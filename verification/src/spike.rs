//! The bookkeeping of the PDF extraction benchmark: how one extraction
//! run is judged, how a child process reports, and the running totals.
//!
//! Running the engines (threads, child processes, timers) is the caller's
//! part; this module turns what came back into results.

use vstd::prelude::*;
use vstd::string::*;

use crate::chunk::{word_end, word_spans, words, words_from};
use crate::extract::{extension, spec_extension};
use crate::text::{collect_chars, decimal, digit_char, is_whitespace, push_char, push_decimal, spec_is_whitespace};

verus! {

/// Below this many visible characters a PDF counts as empty (a scan).
pub const MIN_TEXT_CHARS: usize = 20;

/// How one extraction ended.
#[derive(Debug, Clone, Copy, PartialEq, Eq)]
pub enum Outcome {
    Success,
    Empty,
    Error,
    Panic,
    Timeout,
}

pub open spec fn spec_label(o: Outcome) -> Seq<char> {
    match o {
        Outcome::Success => "ok"@,
        Outcome::Empty => "vide"@,
        Outcome::Error => "erreur"@,
        Outcome::Panic => "PANIC"@,
        Outcome::Timeout => "TIMEOUT"@,
    }
}

impl Outcome {
    /// The label of the outcome in the report.
    pub fn label(self) -> (res: &'static str)
        ensures
            res@ == spec_label(self),
    {
        match self {
            Outcome::Success => "ok",
            Outcome::Empty => "vide",
            Outcome::Error => "erreur",
            Outcome::Panic => "PANIC",
            Outcome::Timeout => "TIMEOUT",
        }
    }
}

/// The measure of one engine on one file.
#[derive(Debug, Clone, Copy, PartialEq, Eq)]
pub struct EngineResult {
    pub outcome: Outcome,
    /// Visible (non-whitespace) characters extracted.
    pub chars: usize,
    /// `(cid:` artefacts in the text.
    pub cid_garbage: usize,
    pub ms: u128,
}

/// How a run in a thread ended.
pub enum Finished {
    /// The engine returned this text.
    Text(String),
    /// The engine returned an error.
    Failed,
    /// The engine panicked.
    Panicked,
    /// No answer before the timeout.
    TimedOut,
}

/// The number of characters of `s` that are not whitespace.
pub open spec fn visible_count(s: Seq<char>) -> nat
    decreases s.len(),
{
    if s.len() == 0 {
        0
    } else {
        visible_count(s.drop_last()) + if spec_is_whitespace(s.last()) {
            0nat
        } else {
            1nat
        }
    }
}

pub open spec fn cid_marker() -> Seq<char> {
    seq!['(', 'c', 'i', 'd', ':']
}

/// Whether `(cid:` starts at `i`.
pub open spec fn cid_at(s: Seq<char>, i: int) -> bool {
    0 <= i && i + 5 <= s.len() && s.subrange(i, i + 5) == cid_marker()
}

/// The number of positions below `n` where `(cid:` starts (occurrences
/// cannot overlap, so this is what `str::matches` counts).
pub open spec fn cid_count_below(s: Seq<char>, n: int) -> nat
    decreases n,
{
    if n <= 0 {
        0
    } else {
        cid_count_below(s, n - 1) + if cid_at(s, n - 1) {
            1nat
        } else {
            0nat
        }
    }
}

/// Empty below [`MIN_TEXT_CHARS`] visible characters, ok otherwise.
pub open spec fn outcome_of_chars(chars: int) -> Outcome {
    if chars < MIN_TEXT_CHARS {
        Outcome::Empty
    } else {
        Outcome::Success
    }
}

const CID: [char; 5] = ['(', 'c', 'i', 'd', ':'];

fn has_cid_at(s: &Vec<char>, i: usize) -> (res: bool)
    requires
        i < s@.len(),
    ensures
        res == cid_at(s@, i as int),
{
    if s.len() - i < 5 {
        return false;
    }
    proof {
        assert(CID@ == cid_marker());
    }
    let n = s.len();
    let mut k: usize = 0;
    while k < 5
        invariant
            n == s@.len(),
            i + 5 <= n,
            CID@ == cid_marker(),
            k <= 5,
            forall|j: int| 0 <= j < k ==> s@[i + j] == cid_marker()[j],
        decreases 5 - k,
    {
        if s[i + k] != CID[k] {
            proof {
                assert(s@.subrange(i as int, i + 5)[k as int] != cid_marker()[k as int]);
            }
            return false;
        }
        k = k + 1;
    }
    proof {
        assert(s@.subrange(i as int, i + 5) =~= cid_marker());
    }
    true
}

/// The number of visible (non-whitespace) characters of `text`.
pub fn visible_chars(text: &str) -> (res: usize)
    ensures
        res == visible_count(text@),
{
    let s = collect_chars(text);
    let mut chars: usize = 0;
    let mut i: usize = 0;
    while i < s.len()
        invariant
            s@ == text@,
            i <= s@.len(),
            chars == visible_count(s@.take(i as int)),
            chars <= i,
        decreases s@.len() - i,
    {
        proof {
            assert(s@.take(i + 1).drop_last() == s@.take(i as int));
        }
        if !is_whitespace(s[i]) {
            chars = chars + 1;
        }
        i = i + 1;
    }
    proof {
        assert(s@.take(s@.len() as int) == s@);
    }
    chars
}

/// The result of an extraction that returned `text` after `ms`
/// milliseconds.
pub fn text_result(text: &str, ms: u128) -> (res: EngineResult)
    ensures
        res.chars == visible_count(text@),
        res.cid_garbage == cid_count_below(text@, text@.len() as int),
        res.outcome == outcome_of_chars(res.chars as int),
        res.ms == ms,
{
    let s = collect_chars(text);
    let mut chars: usize = 0;
    let mut cid: usize = 0;
    let mut i: usize = 0;
    while i < s.len()
        invariant
            s@ == text@,
            i <= s@.len(),
            chars == visible_count(s@.take(i as int)),
            cid == cid_count_below(s@, i as int),
            chars <= i,
            cid <= i,
        decreases s@.len() - i,
    {
        proof {
            assert(s@.take(i + 1).drop_last() == s@.take(i as int));
        }
        if !is_whitespace(s[i]) {
            chars = chars + 1;
        }
        if has_cid_at(&s, i) {
            cid = cid + 1;
        }
        i = i + 1;
    }
    proof {
        assert(s@.take(s@.len() as int) == s@);
    }
    EngineResult {
        outcome: if chars < MIN_TEXT_CHARS {
            Outcome::Empty
        } else {
            Outcome::Success
        },
        chars,
        cid_garbage: cid,
        ms,
    }
}

/// A run that produced nothing: its outcome, no character, and its time.
pub open spec fn failed_result(outcome: Outcome, ms: u128) -> EngineResult {
    EngineResult { outcome, chars: 0, cid_garbage: 0, ms }
}

/// The result of a run in a thread that ended as `finished`, `elapsed_ms`
/// after its start; a timed-out run is charged the whole timeout.
pub fn measure_result(finished: Finished, elapsed_ms: u128, timeout_ms: u128) -> (res: EngineResult)
    ensures
        match finished {
            Finished::Text(t) => res.chars == visible_count(t@) && res.cid_garbage == cid_count_below(
                t@,
                t@.len() as int,
            ) && res.outcome == outcome_of_chars(res.chars as int) && res.ms == elapsed_ms,
            Finished::Failed => res == failed_result(Outcome::Error, elapsed_ms),
            Finished::Panicked => res == failed_result(Outcome::Panic, elapsed_ms),
            Finished::TimedOut => res == failed_result(Outcome::Timeout, timeout_ms),
        },
{
    match finished {
        Finished::Text(t) => text_result(t.as_str(), elapsed_ms),
        Finished::Failed => EngineResult { outcome: Outcome::Error, chars: 0, cid_garbage: 0, ms: elapsed_ms },
        Finished::Panicked => EngineResult { outcome: Outcome::Panic, chars: 0, cid_garbage: 0, ms: elapsed_ms },
        Finished::TimedOut => EngineResult { outcome: Outcome::Timeout, chars: 0, cid_garbage: 0, ms: timeout_ms },
    }
}

/// The value of a string of decimal digits.
pub open spec fn digits_value(s: Seq<char>) -> int
    decreases s.len(),
{
    if s.len() == 0 {
        0
    } else {
        digits_value(s.drop_last()) * 10 + (s.last() as int - 48)
    }
}

pub open spec fn all_digits(s: Seq<char>) -> bool {
    forall|i: int| 0 <= i < s.len() ==> '0' <= #[trigger] s[i] <= '9'
}

/// What `str::parse` gives for an unsigned integer type whose largest
/// value is `max`: an optional `+`, then at least one digit, and a value
/// that fits.
pub open spec fn spec_parse_unsigned(s: Seq<char>, max: int) -> Option<int> {
    let body = if s.len() > 0 && s[0] == '+' {
        s.drop_first()
    } else {
        s
    };
    if body.len() > 0 && all_digits(body) && digits_value(body) <= max {
        Some(digits_value(body))
    } else {
        None
    }
}

/// Parses `s` as an unsigned number no larger than `max` (see
/// [`spec_parse_unsigned`]).
pub fn parse_unsigned(s: &Vec<char>, max: u128) -> (res: Option<u128>)
    ensures
        match spec_parse_unsigned(s@, max as int) {
            Some(v) => res matches Some(x) && x as int == v,
            None => res is None,
        },
        res matches Some(v) ==> v <= max,
{
    let start: usize = if s.len() > 0 && s[0] == '+' {
        1
    } else {
        0
    };
    let ghost body = if s@.len() > 0 && s@[0] == '+' {
        s@.drop_first()
    } else {
        s@
    };
    proof {
        assert(body =~= s@.skip(start as int));
    }
    if s.len() == start {
        return None;
    }
    let mut value: u128 = 0;
    let mut over = false;
    let mut i: usize = start;
    while i < s.len()
        invariant
            start <= i <= s@.len(),
            body == s@.skip(start as int),
            body == (if s@.len() > 0 && s@[0] == '+' {
                s@.drop_first()
            } else {
                s@
            }),
            all_digits(body.take(i - start)),
            over ==> digits_value(body.take(i - start)) > max,
            !over ==> value == digits_value(body.take(i - start)),
            value <= max,
        decreases s@.len() - i,
    {
        let c = s[i];
        if c < '0' || c > '9' {
            proof {
                assert(body[i - start] == c);
                assert(!all_digits(body));
            }
            return None;
        }
        let d = (c as u32 - 48) as u128;
        let ghost prev = body.take(i - start);
        proof {
            assert(body.take(i - start + 1).drop_last() == prev);
            assert(body.take(i - start + 1).last() == c);
            assert(all_digits(body.take(i - start + 1))) by {
                assert forall|j: int| 0 <= j < body.take(i - start + 1).len() implies '0' <= #[trigger] body.take(
                    i - start + 1,
                )[j] <= '9' by {
                    if j < i - start {
                        assert(body.take(i - start + 1)[j] == prev[j]);
                    }
                }
            }
        }
        if !over {
            if d > max {
                over = true;
            } else if value > (max - d) / 10 {
                proof {
                    assert(value * 10 + d > max) by (nonlinear_arith)
                        requires
                            value > (max - d) / 10,
                            d <= max,
                    ;
                }
                over = true;
            } else {
                proof {
                    assert(value * 10 + d <= max) by (nonlinear_arith)
                        requires
                            value <= (max - d) / 10,
                            d <= max,
                    ;
                }
                value = value * 10 + d;
            }
        } else {
            proof {
                assert(digits_value(body.take(i - start + 1)) > max) by (nonlinear_arith)
                    requires
                        digits_value(prev) > max,
                        digits_value(body.take(i - start + 1)) == digits_value(prev) * 10 + d,
                        max >= 0,
                        d >= 0,
                ;
            }
        }
        i = i + 1;
    }
    proof {
        assert(body.take(i - start) == body);
    }
    if over {
        None
    } else {
        Some(value)
    }
}

/// The first two words of `s`, if there are that many.
pub open spec fn word(s: Seq<char>, k: int) -> Option<Seq<char>> {
    if 0 <= k < words(s).len() {
        Some(s.subrange(words(s)[k].0, words(s)[k].1))
    } else {
        None
    }
}

/// A number read from a word of a report: the parsed value, or 0 when the
/// word is missing or is not a number that fits.
pub open spec fn report_number(w: Option<Seq<char>>, max: int) -> int {
    match w {
        Some(t) => match spec_parse_unsigned(t, max) {
            Some(v) => v,
            None => 0,
        },
        None => 0,
    }
}

/// The report a child process prints: the number of visible characters,
/// a space, the milliseconds.
pub open spec fn spec_child_report(chars: nat, ms: nat) -> Seq<char> {
    decimal(chars) + seq![' '] + decimal(ms)
}

fn word_chars(s: &Vec<char>, a: usize, b: usize) -> (res: Vec<char>)
    requires
        a <= b <= s@.len(),
    ensures
        res@ == s@.subrange(a as int, b as int),
{
    let mut out: Vec<char> = Vec::new();
    let mut i: usize = a;
    while i < b
        invariant
            a <= i <= b <= s@.len(),
            out@ == s@.subrange(a as int, i as int),
        decreases b - i,
    {
        out.push(s[i]);
        proof {
            assert(s@.subrange(a as int, i + 1) == s@.subrange(a as int, i as int).push(s@[i as int]));
        }
        i = i + 1;
    }
    out
}

/// The characters and milliseconds a child process reported on its
/// standard output (each 0 when missing or not a number).
pub fn parse_child_report(out: &str) -> (res: (usize, u128))
    ensures
        res.0 as int == report_number(word(out@, 0), usize::MAX as int),
        res.1 as int == report_number(word(out@, 1), u128::MAX as int),
{
    let s = collect_chars(out);
    let spans = word_spans(&s);
    proof {
        crate::chunk::lemma_words_bounds(out@);
    }
    let chars: usize = if spans.len() > 0 {
        let w = word_chars(&s, spans[0].0, spans[0].1);
        proof {
            assert(word(out@, 0) == Some(w@));
        }
        match parse_unsigned(&w, usize::MAX as u128) {
            Some(v) => {
                proof {
                    assert(v <= usize::MAX);
                    assert(spec_parse_unsigned(w@, usize::MAX as int) == Some(v as int));
                }
                v as usize
            },
            None => {
                proof {
                    assert(spec_parse_unsigned(w@, usize::MAX as int) is None);
                }
                0
            },
        }
    } else {
        0
    };
    assert(chars as int == report_number(word(out@, 0), usize::MAX as int));
    let ms: u128 = if spans.len() > 1 {
        let w = word_chars(&s, spans[1].0, spans[1].1);
        proof {
            assert(word(out@, 1) == Some(w@));
        }
        match parse_unsigned(&w, u128::MAX) {
            Some(v) => {
                proof {
                    assert(spec_parse_unsigned(w@, u128::MAX as int) == Some(v as int));
                }
                v
            },
            None => {
                proof {
                    assert(spec_parse_unsigned(w@, u128::MAX as int) is None);
                }
                0
            },
        }
    } else {
        0
    };
    (chars, ms)
}

/// How a child process ended.
pub open spec fn spec_child_result(success: bool, signaled: bool, out: Seq<char>) -> EngineResult {
    if success {
        let chars = report_number(word(out, 0), usize::MAX as int);
        EngineResult {
            outcome: outcome_of_chars(chars),
            chars: chars as usize,
            cid_garbage: 0,
            ms: report_number(word(out, 1), u128::MAX as int) as u128,
        }
    } else if signaled {
        failed_result(Outcome::Panic, 0)
    } else {
        failed_result(Outcome::Error, 0)
    }
}

/// The result of a child process that exited (`success` when with status
/// 0; `signaled` when killed by a signal, as a panic that aborts is),
/// having printed `out`.
pub fn child_result(success: bool, signaled: bool, out: &str) -> (res: EngineResult)
    ensures
        res == spec_child_result(success, signaled, out@),
{
    if success {
        let (chars, ms) = parse_child_report(out);
        EngineResult {
            outcome: if chars < MIN_TEXT_CHARS {
                Outcome::Empty
            } else {
                Outcome::Success
            },
            chars,
            cid_garbage: 0,
            ms,
        }
    } else if signaled {
        EngineResult { outcome: Outcome::Panic, chars: 0, cid_garbage: 0, ms: 0 }
    } else {
        EngineResult { outcome: Outcome::Error, chars: 0, cid_garbage: 0, ms: 0 }
    }
}

/// The line a child process prints for `chars` characters in `ms`
/// milliseconds.
pub fn child_report(chars: usize, ms: u128) -> (res: String)
    ensures
        res@ == spec_child_report(chars as nat, ms as nat),
{
    let mut out = String::new();
    push_decimal(&mut out, chars as u128);
    push_char(&mut out, ' ');
    push_decimal(&mut out, ms);
    out
}

/// What polling the child process found.
pub enum ChildPoll {
    /// It could not be started.
    SpawnFailed,
    /// It ended (`success`: exit status 0; `signaled`: killed by a signal),
    /// having printed `out`.
    Exited { success: bool, signaled: bool, out: String },
    /// It is still running.
    Running,
    /// Its state could not be read.
    Unknown,
}

/// What the measuring loop does after a poll.
#[derive(Debug, Clone, Copy, PartialEq, Eq)]
pub enum PollStep {
    /// Sleep a little and poll again.
    Wait,
    /// Kill the child; this is the result.
    Kill(EngineResult),
    /// The child is done; this is the result.
    Done(EngineResult),
}

/// The step after a poll: an ended child gives its result; a running one is
/// waited for until the deadline, then killed and charged the whole
/// timeout; a child that could not be started or read is an error.
pub open spec fn spec_poll_step(poll: ChildPoll, past_deadline: bool, timeout_ms: u128) -> PollStep {
    match poll {
        ChildPoll::SpawnFailed => PollStep::Done(failed_result(Outcome::Error, 0)),
        ChildPoll::Exited { success, signaled, out } => PollStep::Done(spec_child_result(success, signaled, out@)),
        ChildPoll::Running => if past_deadline {
            PollStep::Kill(failed_result(Outcome::Timeout, timeout_ms))
        } else {
            PollStep::Wait
        },
        ChildPoll::Unknown => PollStep::Done(failed_result(Outcome::Error, 0)),
    }
}

pub fn poll_step(poll: ChildPoll, past_deadline: bool, timeout_ms: u128) -> (res: PollStep)
    ensures
        res == spec_poll_step(poll, past_deadline, timeout_ms),
{
    match poll {
        ChildPoll::SpawnFailed => PollStep::Done(EngineResult { outcome: Outcome::Error, chars: 0, cid_garbage: 0, ms: 0 }),
        ChildPoll::Exited { success, signaled, out } => PollStep::Done(child_result(success, signaled, out.as_str())),
        ChildPoll::Running => if past_deadline {
            PollStep::Kill(EngineResult { outcome: Outcome::Timeout, chars: 0, cid_garbage: 0, ms: timeout_ms })
        } else {
            PollStep::Wait
        },
        ChildPoll::Unknown => PollStep::Done(EngineResult { outcome: Outcome::Error, chars: 0, cid_garbage: 0, ms: 0 }),
    }
}

/// Whether the path names a PDF: its extension is `pdf` in any case.
pub open spec fn spec_is_pdf(path: Seq<char>) -> bool {
    spec_extension(path) == Some(seq!['p', 'd', 'f'])
}

pub fn is_pdf(path: &str) -> (res: bool)
    ensures
        res == spec_is_pdf(path@),
{
    match extension(path) {
        Some(e) => {
            let ok = e.len() == 3 && e[0] == 'p' && e[1] == 'd' && e[2] == 'f';
            proof {
                if ok {
                    assert(e@ =~= seq!['p', 'd', 'f']);
                }
            }
            ok
        },
        None => false,
    }
}

/// The running totals of the benchmark.
#[derive(Debug, Clone, Copy, PartialEq, Eq)]
pub struct Totals {
    pub pe_ok: usize,
    pub pe_empty: usize,
    pub pe_fail: usize,
    pub pe_ms: u128,
    pub pe_chars: usize,
    pub pe_cid: usize,
    pub pi_ok: usize,
    pub pi_empty: usize,
    pub pi_fail: usize,
    pub pi_ms: u128,
    pub pi_chars: usize,
}

impl Default for Totals {
    /// All zero.
    fn default() -> (res: Totals)
        ensures
            res == (Totals {
                pe_ok: 0,
                pe_empty: 0,
                pe_fail: 0,
                pe_ms: 0,
                pe_chars: 0,
                pe_cid: 0,
                pi_ok: 0,
                pi_empty: 0,
                pi_fail: 0,
                pi_ms: 0,
                pi_chars: 0,
            }),
    {
        Totals::new()
    }
}

/// 1 when the outcome is `Success`.
pub open spec fn ok_count(o: Outcome) -> int {
    if o == Outcome::Success {
        1
    } else {
        0
    }
}

pub open spec fn empty_count(o: Outcome) -> int {
    if o == Outcome::Empty {
        1
    } else {
        0
    }
}

/// 1 for an error, a panic or a timeout.
pub open spec fn fail_count(o: Outcome) -> int {
    if o == Outcome::Success || o == Outcome::Empty {
        0
    } else {
        1
    }
}

/// The totals after one more file, measured by both engines.
pub open spec fn spec_add(t: Totals, pe: EngineResult, pi: EngineResult) -> Totals {
    Totals {
        pe_ok: (t.pe_ok + ok_count(pe.outcome)) as usize,
        pe_empty: (t.pe_empty + empty_count(pe.outcome)) as usize,
        pe_fail: (t.pe_fail + fail_count(pe.outcome)) as usize,
        pe_ms: (t.pe_ms + pe.ms) as u128,
        pe_chars: (t.pe_chars + pe.chars) as usize,
        pe_cid: (t.pe_cid + pe.cid_garbage) as usize,
        pi_ok: (t.pi_ok + ok_count(pi.outcome)) as usize,
        pi_empty: (t.pi_empty + empty_count(pi.outcome)) as usize,
        pi_fail: (t.pi_fail + fail_count(pi.outcome)) as usize,
        pi_ms: (t.pi_ms + pi.ms) as u128,
        pi_chars: (t.pi_chars + pi.chars) as usize,
    }
}

/// Whether one more file fits in the counters.
pub open spec fn can_add(t: Totals, pe: EngineResult, pi: EngineResult) -> bool {
    &&& t.pe_ok < usize::MAX && t.pe_empty < usize::MAX && t.pe_fail < usize::MAX
    &&& t.pi_ok < usize::MAX && t.pi_empty < usize::MAX && t.pi_fail < usize::MAX
    &&& t.pe_ms + pe.ms <= u128::MAX && t.pi_ms + pi.ms <= u128::MAX
    &&& t.pe_chars + pe.chars <= usize::MAX && t.pi_chars + pi.chars <= usize::MAX
    &&& t.pe_cid + pe.cid_garbage <= usize::MAX
}

impl Totals {
    /// All zero.
    pub fn new() -> (res: Totals)
        ensures
            res == (Totals {
                pe_ok: 0,
                pe_empty: 0,
                pe_fail: 0,
                pe_ms: 0,
                pe_chars: 0,
                pe_cid: 0,
                pi_ok: 0,
                pi_empty: 0,
                pi_fail: 0,
                pi_ms: 0,
                pi_chars: 0,
            }),
    {
        Totals {
            pe_ok: 0,
            pe_empty: 0,
            pe_fail: 0,
            pe_ms: 0,
            pe_chars: 0,
            pe_cid: 0,
            pi_ok: 0,
            pi_empty: 0,
            pi_fail: 0,
            pi_ms: 0,
            pi_chars: 0,
        }
    }

    /// Counts one file: the outcome of each engine (errors, panics and
    /// timeouts are failures), its time, its characters, and the `(cid:`
    /// artefacts of pdf-extract.
    pub fn add(&mut self, pe: &EngineResult, pi: &EngineResult)
        requires
            can_add(*old(self), *pe, *pi),
        ensures
            *final(self) == spec_add(*old(self), *pe, *pi),
    {
        match pe.outcome {
            Outcome::Success => self.pe_ok = self.pe_ok + 1,
            Outcome::Empty => self.pe_empty = self.pe_empty + 1,
            _ => self.pe_fail = self.pe_fail + 1,
        }
        self.pe_ms = self.pe_ms + pe.ms;
        self.pe_chars = self.pe_chars + pe.chars;
        self.pe_cid = self.pe_cid + pe.cid_garbage;
        match pi.outcome {
            Outcome::Success => self.pi_ok = self.pi_ok + 1,
            Outcome::Empty => self.pi_empty = self.pi_empty + 1,
            _ => self.pi_fail = self.pi_fail + 1,
        }
        self.pi_ms = self.pi_ms + pi.ms;
        self.pi_chars = self.pi_chars + pi.chars;
    }
}


/// Totals with nothing counted.
pub open spec fn zero_totals() -> Totals {
    Totals {
        pe_ok: 0,
        pe_empty: 0,
        pe_fail: 0,
        pe_ms: 0,
        pe_chars: 0,
        pe_cid: 0,
        pi_ok: 0,
        pi_empty: 0,
        pi_fail: 0,
        pi_ms: 0,
        pi_chars: 0,
    }
}

/// The totals after adding, from zero, each file's pair of results in turn
/// (pdf-extract's first, pdfium's second).
pub open spec fn totals_after(results: Seq<(EngineResult, EngineResult)>) -> Totals
    decreases results.len(),
{
    if results.len() == 0 {
        zero_totals()
    } else {
        spec_add(totals_after(results.drop_last()), results.last().0, results.last().1)
    }
}

/// The result of the first engine of a pair, or of the second.
pub open spec fn pick(r: (EngineResult, EngineResult), second: bool) -> EngineResult {
    if second {
        r.1
    } else {
        r.0
    }
}

/// The time one engine took over the files.
pub open spec fn ms_total(results: Seq<(EngineResult, EngineResult)>, second: bool) -> int
    decreases results.len(),
{
    if results.len() == 0 {
        0
    } else {
        ms_total(results.drop_last(), second) + pick(results.last(), second).ms
    }
}

/// The characters one engine extracted over the files.
pub open spec fn chars_total(results: Seq<(EngineResult, EngineResult)>, second: bool) -> int
    decreases results.len(),
{
    if results.len() == 0 {
        0
    } else {
        chars_total(results.drop_last(), second) + pick(results.last(), second).chars
    }
}

/// The `(cid:` artefacts of the first engine over the files.
pub open spec fn cid_total(results: Seq<(EngineResult, EngineResult)>) -> int
    decreases results.len(),
{
    if results.len() == 0 {
        0
    } else {
        cid_total(results.drop_last()) + results.last().0.cid_garbage
    }
}

/// Every file counts once per engine: adding one file's results makes
/// exactly one of that engine's success, empty and failure counters grow,
/// by one.
pub proof fn law_add_counts_one_outcome(t: Totals, pe: EngineResult, pi: EngineResult)
    requires
        can_add(t, pe, pi),
    ensures
        spec_add(t, pe, pi).pe_ok + spec_add(t, pe, pi).pe_empty + spec_add(t, pe, pi).pe_fail
            == t.pe_ok + t.pe_empty + t.pe_fail + 1,
        spec_add(t, pe, pi).pi_ok + spec_add(t, pe, pi).pi_empty + spec_add(t, pe, pi).pi_fail
            == t.pi_ok + t.pi_empty + t.pi_fail + 1,
        spec_add(t, pe, pi).pe_ok >= t.pe_ok && spec_add(t, pe, pi).pe_empty >= t.pe_empty
            && spec_add(t, pe, pi).pe_fail >= t.pe_fail,
        spec_add(t, pe, pi).pi_ok >= t.pi_ok && spec_add(t, pe, pi).pi_empty >= t.pi_empty
            && spec_add(t, pe, pi).pi_fail >= t.pi_fail,
{
}

/// Counting a run: from zero, after each file's results are added in turn
/// (each fitting in the counters), each engine has exactly one outcome per
/// file, and its times, characters and `(cid:` artefacts are the sums over
/// the files.
pub proof fn law_totals_count_every_file(results: Seq<(EngineResult, EngineResult)>)
    requires
        forall|k: int|
            0 <= k < results.len() ==> can_add(#[trigger] totals_after(results.take(k)), results[k].0, results[k].1),
    ensures
        totals_after(results).pe_ok + totals_after(results).pe_empty + totals_after(results).pe_fail
            == results.len(),
        totals_after(results).pi_ok + totals_after(results).pi_empty + totals_after(results).pi_fail
            == results.len(),
        totals_after(results).pe_ms == ms_total(results, false),
        totals_after(results).pi_ms == ms_total(results, true),
        totals_after(results).pe_chars == chars_total(results, false),
        totals_after(results).pi_chars == chars_total(results, true),
        totals_after(results).pe_cid == cid_total(results),
    decreases results.len(),
{
    if results.len() > 0 {
        let init = results.drop_last();
        assert forall|k: int| 0 <= k < init.len() implies can_add(
            #[trigger] totals_after(init.take(k)),
            init[k].0,
            init[k].1,
        ) by {
            assert(init.take(k) =~= results.take(k));
            assert(totals_after(results.take(k)) == totals_after(init.take(k)));
        }
        law_totals_count_every_file(init);
        let n = results.len() - 1;
        assert(results.take(n) =~= init);
        assert(can_add(totals_after(results.take(n)), results[n].0, results[n].1));
        law_add_counts_one_outcome(totals_after(init), results.last().0, results.last().1);
    }
}

proof fn lemma_decimal_digits(n: nat)
    ensures
        decimal(n).len() >= 1,
        all_digits(decimal(n)),
        digits_value(decimal(n)) == n,
        forall|i: int| 0 <= i < decimal(n).len() ==> !spec_is_whitespace(#[trigger] decimal(n)[i]),
        decimal(n)[0] != '+',
    decreases n,
{
    let d = (n % 10) as int;
    assert(digit_char(d) as int == 48 + d);
    if n >= 10 {
        lemma_decimal_digits((n / 10) as nat);
        let init = decimal((n / 10) as nat);
        assert(decimal(n) == init.push(digit_char(d)));
        assert(decimal(n).drop_last() == init);
        assert forall|i: int| 0 <= i < decimal(n).len() implies '0' <= #[trigger] decimal(n)[i] <= '9'
            && !spec_is_whitespace(decimal(n)[i]) by {
            if i < init.len() {
                assert(decimal(n)[i] == init[i]);
            }
        }
        assert(decimal(n)[0] == init[0]);
        assert(digits_value(decimal(n)) == digits_value(init) * 10 + d);
        assert((n / 10) * 10 + n % 10 == n) by (nonlinear_arith);
    } else {
        assert(n % 10 == n);
        assert(decimal(n).drop_last() =~= Seq::<char>::empty());
        assert(decimal(n).last() == digit_char(n as int));
        assert(digits_value(decimal(n)) == digits_value(Seq::<char>::empty()) * 10 + (digit_char(n as int) as int - 48));
    }
}

/// What a child process prints reads back as what it meant: the parent
/// gets the same character count and milliseconds.
pub proof fn law_child_report_roundtrip(chars: nat, ms: nat)
    requires
        chars <= usize::MAX,
        ms <= u128::MAX,
    ensures
        report_number(word(spec_child_report(chars, ms), 0), usize::MAX as int) == chars,
        report_number(word(spec_child_report(chars, ms), 1), u128::MAX as int) == ms,
{
    let d1 = decimal(chars);
    let d2 = decimal(ms);
    let s = spec_child_report(chars, ms);
    lemma_decimal_digits(chars);
    lemma_decimal_digits(ms);
    let a = d1.len() as int;
    let n = s.len() as int;
    assert(s == d1 + seq![' '] + d2);
    assert(n == a + 1 + d2.len());
    assert forall|k: int| 0 <= k < a implies !spec_is_whitespace(#[trigger] s[k]) by {
        assert(s[k] == d1[k]);
    }
    assert forall|k: int| a + 1 <= k < n implies !spec_is_whitespace(#[trigger] s[k]) by {
        assert(s[k] == d2[k - a - 1]);
    }
    assert(s[a] == ' ');
    assert(spec_is_whitespace(s[a]));
    crate::chunk::lemma_word_end_same(s, 0, a);
    crate::chunk::lemma_word_end_same(s, a + 1, n);
    assert(word_end(s, a) == a);
    assert(word_end(s, n) == n);
    assert(words_from(s, n) == Seq::<(int, int)>::empty());
    assert(s[a + 1] == d2[0]);
    assert(words_from(s, a + 1) == seq![(a + 1, n)] + words_from(s, n));
    assert(words_from(s, a) == words_from(s, a + 1));
    assert(s[0] == d1[0]);
    assert(words_from(s, 0) == seq![(0, a)] + words_from(s, a));
    assert(words(s) =~= seq![(0, a), (a + 1, n)]);
    assert(s.subrange(0, a) =~= d1);
    assert(s.subrange(a + 1, n) =~= d2);
    assert(word(s, 0) == Some(d1));
    assert(word(s, 1) == Some(d2));
}


/// A row of the summary table: `| label | a | b |`.
pub open spec fn spec_summary_row(label: Seq<char>, a: nat, b: Seq<char>) -> Seq<char> {
    "| "@ + label + " | "@ + decimal(a) + " | "@ + b + " |"@
}

fn summary_row(label: &str, a: u128, b: &str) -> (res: String)
    ensures
        res@ == spec_summary_row(label@, a as nat, b@),
{
    let mut out = "| ".to_owned();
    out.append(label);
    out.append(" | ");
    push_decimal(&mut out, a);
    out.append(" | ");
    out.append(b);
    out.append(" |");
    out
}

fn decimal_string(n: u128) -> (res: String)
    ensures
        res@ == decimal(n as nat),
{
    let mut out = String::new();
    push_decimal(&mut out, n);
    out
}

/// The summary printed after the last file, line by line.
pub open spec fn spec_summary_lines(t: Totals, n: nat) -> Seq<Seq<char>> {
    seq![
        Seq::empty(),
        "## Bilan sur "@ + decimal(n) + " fichiers"@,
        Seq::empty(),
        "|  | pdf-extract | pdfium-render |"@,
        "|---|---:|---:|"@,
        spec_summary_row("texte extrait"@, t.pe_ok as nat, decimal(t.pi_ok as nat)),
        spec_summary_row("vide (scan/image)"@, t.pe_empty as nat, decimal(t.pi_empty as nat)),
        spec_summary_row("échec (erreur/panic/timeout)"@, t.pe_fail as nat, decimal(t.pi_fail as nat)),
        spec_summary_row("caractères totaux"@, t.pe_chars as nat, decimal(t.pi_chars as nat)),
        spec_summary_row("artefacts (cid:)"@, t.pe_cid as nat, "0"@),
        spec_summary_row("temps total (ms)"@, t.pe_ms as nat, decimal(t.pi_ms as nat)),
    ]
}

impl Totals {
    /// The summary of `n` files: a heading and a table of both engines'
    /// counts (see [`spec_summary_lines`]).
    pub fn summary_lines(&self, n: usize) -> (res: Vec<String>)
        ensures
            res@.len() == 11,
            forall|i: int| 0 <= i < 11 ==> (#[trigger] res@[i])@ == spec_summary_lines(*self, n as nat)[i],
    {
        let mut out: Vec<String> = Vec::new();
        out.push(String::new());
        let mut title = "## Bilan sur ".to_owned();
        push_decimal(&mut title, n as u128);
        title.append(" fichiers");
        out.push(title);
        out.push(String::new());
        out.push("|  | pdf-extract | pdfium-render |".to_owned());
        out.push("|---|---:|---:|".to_owned());
        out.push(summary_row("texte extrait", self.pe_ok as u128, decimal_string(self.pi_ok as u128).as_str()));
        out.push(summary_row("vide (scan/image)", self.pe_empty as u128, decimal_string(self.pi_empty as u128).as_str()));
        out.push(
            summary_row("échec (erreur/panic/timeout)", self.pe_fail as u128, decimal_string(self.pi_fail as u128).as_str()),
        );
        out.push(summary_row("caractères totaux", self.pe_chars as u128, decimal_string(self.pi_chars as u128).as_str()));
        out.push(summary_row("artefacts (cid:)", self.pe_cid as u128, "0"));
        out.push(summary_row("temps total (ms)", self.pe_ms, decimal_string(self.pi_ms).as_str()));
        proof {
            let e = spec_summary_lines(*self, n as nat);
            assert(out@[0]@ == e[0]);
        }
        out
    }
}

/// A row of the per-file table: name, size in KiB, then for each engine
/// its outcome, characters (and `(cid:` count for pdf-extract) and time.
pub open spec fn spec_file_row(name: Seq<char>, size_kb: nat, pe: EngineResult, pi: EngineResult) -> Seq<char> {
    "| "@ + name + " | "@ + decimal(size_kb) + " | "@ + spec_label(pe.outcome) + " | "@ + decimal(pe.chars as nat)
        + " | "@ + decimal(pe.cid_garbage as nat) + " | "@ + decimal(pe.ms as nat) + " | "@ + spec_label(pi.outcome)
        + " | "@ + decimal(pi.chars as nat) + " | "@ + decimal(pi.ms as nat) + " |"@
}

pub fn file_row(name: &str, size_kb: u64, pe: &EngineResult, pi: &EngineResult) -> (res: String)
    ensures
        res@ == spec_file_row(name@, size_kb as nat, *pe, *pi),
{
    let mut out = "| ".to_owned();
    out.append(name);
    out.append(" | ");
    push_decimal(&mut out, size_kb as u128);
    out.append(" | ");
    out.append(pe.outcome.label());
    out.append(" | ");
    push_decimal(&mut out, pe.chars as u128);
    out.append(" | ");
    push_decimal(&mut out, pe.cid_garbage as u128);
    out.append(" | ");
    push_decimal(&mut out, pe.ms);
    out.append(" | ");
    out.append(pi.outcome.label());
    out.append(" | ");
    push_decimal(&mut out, pi.chars as u128);
    out.append(" | ");
    push_decimal(&mut out, pi.ms);
    out.append(" |");
    out
}


/// Where the pdfium library is looked for: `$MIKKE_PDFIUM` when set, else
/// `~/.cache/mikke-spike/libpdfium.so`.
pub open spec fn spec_pdfium_lib_path(mikke_pdfium: Option<Seq<char>>, home: Seq<char>) -> Seq<char> {
    match mikke_pdfium {
        Some(p) => p,
        None => home + "/.cache/mikke-spike/libpdfium.so"@,
    }
}

/// The pdfium library path given the values of `MIKKE_PDFIUM` and `HOME`
/// (see [`spec_pdfium_lib_path`]).
pub fn pdfium_lib_path(mikke_pdfium: Option<&str>, home: &str) -> (res: String)
    ensures
        res@ == spec_pdfium_lib_path(
            match mikke_pdfium {
                Some(p) => Some(p@),
                None => None,
            },
            home@,
        ),
{
    match mikke_pdfium {
        Some(p) => p.to_owned(),
        None => {
            let mut out = home.to_owned();
            out.append("/.cache/mikke-spike/libpdfium.so");
            out
        },
    }
}

}
