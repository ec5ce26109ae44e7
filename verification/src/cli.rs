//! Presentation of search results on a terminal.

use vstd::prelude::*;
use vstd::string::*;
use vstd::slice::*;

use crate::chunk::{word_spans, words};
use crate::ranges::{sort_by_start, sort_ranges};
use crate::text::{collect_chars, decimal, push_char, push_decimal};

verus! {

/// The ANSI sequence that opens a highlight (256-colour orange 208).
pub open spec fn highlight_on() -> Seq<u8> {
    seq![0x1bu8, 0x5bu8, 0x33u8, 0x38u8, 0x3bu8, 0x35u8, 0x3bu8, 0x32u8, 0x30u8, 0x38u8, 0x6du8]
}

/// The ANSI sequence that closes a highlight.
pub open spec fn highlight_off() -> Seq<u8> {
    seq![0x1bu8, 0x5bu8, 0x30u8, 0x6du8]
}

const HIGHLIGHT_ON: [u8; 11] = [0x1b, 0x5b, 0x33, 0x38, 0x3b, 0x35, 0x3b, 0x32, 0x30, 0x38, 0x6d];

const HIGHLIGHT_OFF: [u8; 4] = [0x1b, 0x5b, 0x30, 0x6d];

/// Walking the sorted ranges from `cursor`: a range that starts before the
/// cursor (it overlaps an earlier one) or runs past the text is skipped;
/// any other is wrapped in the colour codes, and the text between ranges
/// is copied as it is.
pub open spec fn highlight_from(text: Seq<u8>, rs: Seq<(usize, usize)>, cursor: int) -> Seq<u8>
    decreases rs.len(),
{
    if rs.len() == 0 {
        text.subrange(cursor, text.len() as int)
    } else {
        let r = rs[0];
        if r.0 < cursor || r.1 > text.len() {
            highlight_from(text, rs.drop_first(), cursor)
        } else {
            text.subrange(cursor, r.0 as int) + highlight_on() + text.subrange(r.0 as int, r.1 as int)
                + highlight_off() + highlight_from(text, rs.drop_first(), r.1 as int)
        }
    }
}

/// `text` with the byte ranges `ranges` (sorted by start) coloured; without
/// colour or without ranges, `text` unchanged.
pub open spec fn spec_highlight(text: Seq<u8>, ranges: Seq<(usize, usize)>, color: bool) -> Seq<u8> {
    if !color || ranges.len() == 0 {
        text
    } else {
        highlight_from(text, sort_by_start(ranges), 0)
    }
}

/// Walking the sorted ranges as [`highlight_from`] does, every range that
/// is not skipped has its start at most its end (a range that is skipped
/// may be anything).
pub open spec fn usable_from(len: int, rs: Seq<(usize, usize)>, cursor: int) -> bool
    decreases rs.len(),
{
    if rs.len() == 0 {
        true
    } else {
        let r = rs[0];
        if r.0 < cursor || r.1 > len {
            usable_from(len, rs.drop_first(), cursor)
        } else {
            r.0 <= r.1 && usable_from(len, rs.drop_first(), r.1 as int)
        }
    }
}

/// The ranges can be highlighted in a text of `len` bytes: no range that
/// is reached, in order of start, ends before it starts.
pub open spec fn ranges_usable(len: int, ranges: Seq<(usize, usize)>) -> bool {
    usable_from(len, sort_by_start(ranges), 0)
}

/// Whether `ranges` can be highlighted in `text` (see [`ranges_usable`]).
pub fn usable_ranges(text: &str, ranges: &Vec<(usize, usize)>) -> (res: bool)
    ensures
        res == ranges_usable(text.spec_bytes().len() as int, ranges@),
{
    let n = text.as_bytes().len();
    let sorted = sort_ranges(ranges);
    let mut cursor: usize = 0;
    let mut i: usize = 0;
    proof {
        assert(sorted@.skip(0) == sorted@);
    }
    while i < sorted.len()
        invariant
            n == text.spec_bytes().len(),
            sorted@ == sort_by_start(ranges@),
            i <= sorted@.len(),
            usable_from(n as int, sorted@.skip(i as int), cursor as int) == usable_from(n as int, sorted@, 0),
        decreases sorted@.len() - i,
    {
        let (start, end) = sorted[i];
        proof {
            assert(sorted@.skip(i as int)[0] == sorted@[i as int]);
            assert(sorted@.skip(i as int).drop_first() == sorted@.skip(i + 1));
        }
        if !(start < cursor || end > n) {
            if start > end {
                assert(!usable_from(n as int, sorted@.skip(i as int), cursor as int));
                return false;
            }
            cursor = end;
        }
        i = i + 1;
    }
    proof {
        assert(sorted@.skip(i as int).len() == 0);
    }
    true
}

fn append_slice(out: &mut Vec<u8>, bytes: &[u8])
    ensures
        final(out)@ == old(out)@ + bytes@,
{
    let mut v = slice_to_vec(bytes);
    out.append(&mut v);
}

/// Inserts the colour codes around the highlighted byte ranges of `text`
/// (see [`spec_highlight`]). The result is returned as bytes; when every
/// range falls on character boundaries, as the ranges of a snippet do, it
/// is UTF-8.
pub fn highlight(text: &str, ranges: &Vec<(usize, usize)>, color: bool) -> (res: Vec<u8>)
    requires
        color && ranges@.len() > 0 ==> ranges_usable(text.spec_bytes().len() as int, ranges@),
    ensures
        res@ == spec_highlight(text.spec_bytes(), ranges@, color),
{
    let bytes = text.as_bytes();
    if !color || ranges.len() == 0 {
        return slice_to_vec(bytes);
    }
    let sorted = sort_ranges(ranges);
    let n = bytes.len();
    let mut out: Vec<u8> = Vec::new();
    let mut cursor: usize = 0;
    let mut i: usize = 0;
    let ghost total = highlight_from(bytes@, sorted@, 0);
    proof {
        assert(sorted@.skip(0) == sorted@);
    }
    while i < sorted.len()
        invariant
            n == bytes@.len(),
            cursor <= n,
            i <= sorted@.len(),
            usable_from(n as int, sorted@.skip(i as int), cursor as int),
            out@ + highlight_from(bytes@, sorted@.skip(i as int), cursor as int) == total,
        decreases sorted@.len() - i,
    {
        let (start, end) = sorted[i];
        proof {
            assert(sorted@.skip(i as int)[0] == sorted@[i as int]);
            assert(sorted@.skip(i as int).drop_first() == sorted@.skip(i + 1));
        }
        if start < cursor || end > n {
            i = i + 1;
            continue;
        }
        let ghost before = out@;
        append_slice(&mut out, slice_subrange(bytes, cursor, start));
        append_slice(&mut out, &HIGHLIGHT_ON);
        append_slice(&mut out, slice_subrange(bytes, start, end));
        append_slice(&mut out, &HIGHLIGHT_OFF);
        proof {
            assert(HIGHLIGHT_ON@ == highlight_on());
            assert(HIGHLIGHT_OFF@ == highlight_off());
            assert(out@ == before + (bytes@.subrange(cursor as int, start as int) + highlight_on()
                + bytes@.subrange(start as int, end as int) + highlight_off()));
        }
        cursor = end;
        i = i + 1;
    }
    proof {
        assert(sorted@.skip(i as int).len() == 0);
    }
    append_slice(&mut out, slice_subrange(bytes, cursor, n));
    out
}

/// `s` starts with `p`.
pub open spec fn starts_with(s: Seq<u8>, p: Seq<u8>) -> bool {
    p.len() <= s.len() && s.take(p.len() as int) == p
}

/// `s` with every highlight code taken out, read from the left.
pub open spec fn remove_codes(s: Seq<u8>) -> Seq<u8>
    decreases s.len(),
{
    if s.len() == 0 {
        s
    } else if starts_with(s, highlight_on()) {
        remove_codes(s.skip(11))
    } else if starts_with(s, highlight_off()) {
        remove_codes(s.skip(4))
    } else {
        seq![s[0]] + remove_codes(s.skip(1))
    }
}

/// No escape byte (the first byte of every colour code).
pub open spec fn no_escape(s: Seq<u8>) -> bool {
    forall|i: int| 0 <= i < s.len() ==> #[trigger] s[i] != 0x1bu8
}

proof fn lemma_remove_plain(t: Seq<u8>, rest: Seq<u8>)
    requires
        no_escape(t),
    ensures
        remove_codes(t + rest) == t + remove_codes(rest),
    decreases t.len(),
{
    if t.len() == 0 {
        assert(t + rest =~= rest);
    } else {
        let s = t + rest;
        assert(s[0] == t[0]);
        assert(t[0] != 0x1bu8);
        assert(!starts_with(s, highlight_on())) by {
            if starts_with(s, highlight_on()) {
                assert(s.take(11)[0] == s[0]);
            }
        }
        assert(!starts_with(s, highlight_off())) by {
            if starts_with(s, highlight_off()) {
                assert(s.take(4)[0] == s[0]);
            }
        }
        assert(s.skip(1) =~= t.skip(1) + rest);
        lemma_remove_plain(t.skip(1), rest);
        assert(t =~= seq![t[0]] + t.skip(1));
        assert(seq![t[0]] + (t.skip(1) + remove_codes(rest)) =~= t + remove_codes(rest));
    }
}

proof fn lemma_remove_codes_step(rest: Seq<u8>)
    ensures
        remove_codes(highlight_on() + rest) == remove_codes(rest),
        remove_codes(highlight_off() + rest) == remove_codes(rest),
{
    let a = highlight_on() + rest;
    assert(a.take(11) =~= highlight_on());
    assert(a.skip(11) =~= rest);
    let b = highlight_off() + rest;
    assert(b.take(4) =~= highlight_off());
    assert(b.skip(4) =~= rest);
    assert(!starts_with(b, highlight_on())) by {
        if starts_with(b, highlight_on()) {
            assert(b.take(11)[2] == b[2]);
        }
    }
}

proof fn lemma_highlight_from_removes(text: Seq<u8>, rs: Seq<(usize, usize)>, cursor: int)
    requires
        no_escape(text),
        0 <= cursor <= text.len(),
        usable_from(text.len() as int, rs, cursor),
    ensures
        remove_codes(highlight_from(text, rs, cursor)) == text.subrange(cursor, text.len() as int),
    decreases rs.len(),
{
    let len = text.len() as int;
    if rs.len() == 0 {
        lemma_remove_plain(text.subrange(cursor, len), Seq::empty());
        assert(text.subrange(cursor, len) + Seq::<u8>::empty() =~= text.subrange(cursor, len));
    } else {
        let r = rs[0];
        if r.0 < cursor || r.1 > len {
            lemma_highlight_from_removes(text, rs.drop_first(), cursor);
        } else {
            let a = text.subrange(cursor, r.0 as int);
            let b = text.subrange(r.0 as int, r.1 as int);
            let h = highlight_from(text, rs.drop_first(), r.1 as int);
            lemma_highlight_from_removes(text, rs.drop_first(), r.1 as int);
            assert(a + highlight_on() + b + highlight_off() + h =~= a + (highlight_on() + (b + (highlight_off() + h))));
            lemma_remove_plain(a, highlight_on() + (b + (highlight_off() + h)));
            lemma_remove_codes_step(b + (highlight_off() + h));
            lemma_remove_plain(b, highlight_off() + h);
            lemma_remove_codes_step(h);
            assert(a + (b + text.subrange(r.1 as int, len)) =~= text.subrange(cursor, len));
        }
    }
}

/// Highlighting only adds colour codes: a text that holds no escape byte
/// comes back whole once the codes are taken out of its highlighting,
/// whatever the ranges (those that are skipped included), with colour or
/// without.
pub proof fn law_highlight_only_adds_codes(text: Seq<u8>, ranges: Seq<(usize, usize)>, color: bool)
    requires
        no_escape(text),
        color && ranges.len() > 0 ==> ranges_usable(text.len() as int, ranges),
    ensures
        remove_codes(spec_highlight(text, ranges, color)) == text,
{
    if color && ranges.len() > 0 {
        lemma_highlight_from_removes(text, sort_by_start(ranges), 0);
        assert(text.subrange(0, text.len() as int) =~= text);
    } else {
        lemma_remove_plain(text, Seq::empty());
        assert(text + Seq::<u8>::empty() =~= text);
        assert(Seq::<u8>::empty().len() == 0);
    }
}

/// Every range that ends within a text of `len` bytes starts no later than
/// it ends.
pub open spec fn inverted_only_past(len: int, ranges: Seq<(usize, usize)>) -> bool {
    forall|i: int| 0 <= i < ranges.len() && (#[trigger] ranges[i]).1 <= len ==> ranges[i].0 <= ranges[i].1
}

proof fn lemma_insert_keeps_order(len: int, sorted: Seq<(usize, usize)>, r: (usize, usize))
    requires
        inverted_only_past(len, sorted),
        r.1 <= len ==> r.0 <= r.1,
    ensures
        inverted_only_past(len, crate::ranges::insert_by_start(sorted, r)),
    decreases sorted.len(),
{
    if sorted.len() > 0 && sorted.last().0 > r.0 {
        let init = sorted.drop_last();
        assert(inverted_only_past(len, init)) by {
            assert forall|i: int| 0 <= i < init.len() && (#[trigger] init[i]).1 <= len implies init[i].0 <= init[i].1 by {
                assert(init[i] == sorted[i]);
            }
        }
        lemma_insert_keeps_order(len, init, r);
        let ins = crate::ranges::insert_by_start(init, r);
        assert forall|i: int| 0 <= i < ins.push(sorted.last()).len() && (#[trigger] ins.push(sorted.last())[i]).1 <= len
            implies ins.push(sorted.last())[i].0 <= ins.push(sorted.last())[i].1 by {
            if i < ins.len() {
                assert(ins.push(sorted.last())[i] == ins[i]);
            } else {
                assert(sorted[sorted.len() - 1] == sorted.last());
            }
        }
    }
}

proof fn lemma_sort_keeps_order(len: int, ranges: Seq<(usize, usize)>)
    requires
        inverted_only_past(len, ranges),
    ensures
        inverted_only_past(len, sort_by_start(ranges)),
    decreases ranges.len(),
{
    if ranges.len() > 0 {
        let init = ranges.drop_last();
        assert(inverted_only_past(len, init)) by {
            assert forall|i: int| 0 <= i < init.len() && (#[trigger] init[i]).1 <= len implies init[i].0 <= init[i].1 by {
                assert(init[i] == ranges[i]);
            }
        }
        lemma_sort_keeps_order(len, init);
        assert(ranges[ranges.len() - 1] == ranges.last());
        lemma_insert_keeps_order(len, sort_by_start(init), ranges.last());
    }
}

proof fn lemma_usable_when_ordered(len: int, rs: Seq<(usize, usize)>, cursor: int)
    requires
        inverted_only_past(len, rs),
    ensures
        usable_from(len, rs, cursor),
    decreases rs.len(),
{
    if rs.len() > 0 {
        let rest = rs.drop_first();
        assert(inverted_only_past(len, rest)) by {
            assert forall|i: int| 0 <= i < rest.len() && (#[trigger] rest[i]).1 <= len implies rest[i].0 <= rest[i].1 by {
                assert(rest[i] == rs[i + 1]);
            }
        }
        lemma_usable_when_ordered(len, rest, cursor);
        lemma_usable_when_ordered(len, rest, rs[0].1 as int);
    }
}

/// Ranges of which none that ends within the text starts after its end
/// (the others are skipped) can always be highlighted.
pub proof fn law_ordered_ranges_are_usable(len: int, ranges: Seq<(usize, usize)>)
    requires
        inverted_only_past(len, ranges),
    ensures
        ranges_usable(len, ranges),
{
    lemma_sort_keeps_order(len, ranges);
    lemma_usable_when_ordered(len, sort_by_start(ranges), 0);
}

/// Highlighting only adds colour codes, on the plain condition that no
/// range ending within the text starts after its end: once the codes are
/// taken out, a text without escape bytes comes back whole.
pub proof fn law_highlight_gives_text_back(text: Seq<u8>, ranges: Seq<(usize, usize)>, color: bool)
    requires
        no_escape(text),
        inverted_only_past(text.len() as int, ranges),
    ensures
        remove_codes(spec_highlight(text, ranges, color)) == text,
{
    law_ordered_ranges_are_usable(text.len() as int, ranges);
    law_highlight_only_adds_codes(text, ranges, color);
}

/// The words of `s` joined by single spaces (`split_whitespace` then
/// `join(" ")`): the snippet on one line.
pub open spec fn spec_one_line(s: Seq<char>) -> Seq<char> {
    join_words(s, words(s))
}

pub open spec fn join_words(s: Seq<char>, w: Seq<(int, int)>) -> Seq<char>
    decreases w.len(),
{
    if w.len() == 0 {
        Seq::empty()
    } else if w.len() == 1 {
        s.subrange(w[0].0, w[0].1)
    } else {
        join_words(s, w.drop_last()) + seq![' '] + s.subrange(w.last().0, w.last().1)
    }
}

pub fn one_line(s: &str) -> (res: String)
    ensures
        res@ == spec_one_line(s@),
{
    let chars = collect_chars(s);
    let spans = word_spans(&chars);
    proof {
        crate::chunk::lemma_words_bounds(s@);
    }
    let mut out = String::new();
    let mut i: usize = 0;
    while i < spans.len()
        invariant
            chars@ == s@,
            i <= spans@.len(),
            spans@.len() == words(s@).len(),
            forall|k: int|
                0 <= k < spans@.len() ==> (#[trigger] spans@[k]).0 as int == words(s@)[k].0 && spans@[k].1 as int
                    == words(s@)[k].1,
            forall|k: int| 0 <= k < words(s@).len() ==> 0 <= (#[trigger] words(s@)[k]).0 < words(s@)[k].1 <= s@.len(),
            out@ == join_words(s@, words(s@).take(i as int)),
        decreases spans@.len() - i,
    {
        let (a, b) = spans[i];
        if i > 0 {
            push_char(&mut out, ' ');
        }
        let piece = s.substring_char(a, b);
        out.append(piece);
        proof {
            let w = words(s@).take(i + 1);
            assert(w.drop_last() == words(s@).take(i as int));
            assert(w.last() == words(s@)[i as int]);
            if i == 0 {
                assert(out@ =~= s@.subrange(a as int, b as int));
            } else {
                assert(out@ =~= join_words(s@, w.drop_last()) + seq![' '] + s@.subrange(a as int, b as int));
            }
        }
        i = i + 1;
    }
    proof {
        assert(words(s@).take(spans@.len() as int) == words(s@));
    }
    out
}

/// `path` with the home directory written `~` when it starts with it.
pub open spec fn spec_shorten_home(path: Seq<char>, home: Option<Seq<char>>) -> Seq<char> {
    match home {
        Some(h) => if h.len() <= path.len() && path.take(h.len() as int) == h {
            seq!['~'] + path.skip(h.len() as int)
        } else {
            path
        },
        None => path,
    }
}

pub fn shorten_home(path: &str, home: Option<&str>) -> (res: String)
    ensures
        res@ == spec_shorten_home(path@, match home {
            Some(h) => Some(h@),
            None => None,
        }),
{
    match home {
        None => path.to_owned(),
        Some(h) => {
            let p = collect_chars(path);
            let hc = collect_chars(h);
            if hc.len() > p.len() {
                proof {
                    assert(h@.len() > path@.len());
                }
                return path.to_owned();
            }
            let mut i: usize = 0;
            while i < hc.len()
                invariant
                    home == Some(h),
                    hc@ == h@,
                    p@ == path@,
                    hc@.len() <= p@.len(),
                    i <= hc@.len(),
                    forall|k: int| 0 <= k < i ==> p@[k] == hc@[k],
                decreases hc@.len() - i,
            {
                if p[i] != hc[i] {
                    proof {
                        assert(path@.take(h@.len() as int)[i as int] != h@[i as int]);
                    }
                    return path.to_owned();
                }
                i = i + 1;
            }
            proof {
                assert(path@.take(h@.len() as int) =~= h@);
            }
            let mut out = String::new();
            push_char(&mut out, '~');
            out.append(path.substring_char(hc.len(), p.len()));
            proof {
                assert(out@ =~= seq!['~'] + path@.skip(h@.len() as int));
            }
            out
        },
    }
}


/// A subcommand of the command line.
pub enum CliCommand {
    /// Index a directory (a full reindex for now).
    Index { dir: String },
    /// The full-screen search.
    Tui,
}

/// What a run of the command line does.
pub enum RunPlan {
    Index { dir: String },
    /// Stop with this error.
    Fail { message: String },
    /// Print the help.
    Help,
    /// Search the words of the query, joined by spaces.
    Search { query: String },
}

/// The words of the query joined by single spaces.
pub open spec fn join_space(parts: Seq<Seq<char>>) -> Seq<char>
    decreases parts.len(),
{
    if parts.len() == 0 {
        Seq::empty()
    } else if parts.len() == 1 {
        parts[0]
    } else {
        join_space(parts.drop_last()) + seq![' '] + parts.last()
    }
}

pub open spec fn tui_missing_message() -> Seq<char> {
    "le TUI n'existe pas encore (étape 6 de la roadmap)"@
}

pub open spec fn string_views(v: Seq<String>) -> Seq<Seq<char>> {
    v.map_values(|s: String| s@)
}

/// What the command line does: index with the `index` subcommand; the
/// full-screen search does not exist yet; without a subcommand, print the
/// help when there is no query, search the query otherwise.
pub open spec fn spec_plan_run(command: Option<CliCommand>, query: Seq<String>, plan: RunPlan) -> bool {
    match command {
        Some(CliCommand::Index { dir }) => plan matches RunPlan::Index { dir: d } && d@ == dir@,
        Some(CliCommand::Tui) => plan matches RunPlan::Fail { message } && message@ == tui_missing_message(),
        None => if query.len() == 0 {
            plan is Help
        } else {
            plan matches RunPlan::Search { query: q } && q@ == join_space(string_views(query))
        },
    }
}

/// The words joined by single spaces (see [`join_space`]).
pub fn join_words_space(parts: &Vec<String>) -> (res: String)
    ensures
        res@ == join_space(string_views(parts@)),
{
    let mut out = String::new();
    let mut i: usize = 0;
    while i < parts.len()
        invariant
            i <= parts@.len(),
            out@ == join_space(string_views(parts@).take(i as int)),
        decreases parts@.len() - i,
    {
        let ghost before = string_views(parts@).take(i as int);
        if i > 0 {
            push_char(&mut out, ' ');
        }
        out.append(parts[i].as_str());
        proof {
            let t = string_views(parts@).take(i + 1);
            assert(t.drop_last() =~= before);
            assert(t.last() == parts@[i as int]@);
            if i == 0 {
                assert(out@ =~= parts@[0]@);
            }
        }
        i = i + 1;
    }
    proof {
        assert(string_views(parts@).take(parts@.len() as int) =~= string_views(parts@));
    }
    out
}

/// What to do with the parsed command line (see [`spec_plan_run`]).
pub fn plan_run(command: Option<CliCommand>, query: &Vec<String>) -> (res: RunPlan)
    ensures
        spec_plan_run(command, query@, res),
{
    match command {
        Some(CliCommand::Index { dir }) => RunPlan::Index { dir },
        Some(CliCommand::Tui) => RunPlan::Fail {
            message: "le TUI n'existe pas encore (étape 6 de la roadmap)".to_owned(),
        },
        None => if query.len() == 0 {
            RunPlan::Help
        } else {
            RunPlan::Search { query: join_words_space(query) }
        },
    }
}

/// The message when a search finds nothing.
pub open spec fn spec_nothing_found(query: Seq<char>) -> Seq<char> {
    "rien trouvé pour « "@ + query + " »"@
}

pub fn nothing_found(query: &str) -> (res: String)
    ensures
        res@ == spec_nothing_found(query@),
{
    let mut out = "rien trouvé pour « ".to_owned();
    out.append(query);
    out.append(" »");
    out
}

/// The rank and path that head a hit: the rank right-aligned on two
/// columns, a dot, a space, the path.
pub open spec fn spec_hit_heading(rank: nat, path: Seq<char>) -> Seq<char> {
    let d = decimal(rank);
    (if d.len() < 2 {
        seq![' '] + d
    } else {
        d
    }) + seq!['.', ' '] + path
}

pub fn hit_heading(rank: usize, path: &str) -> (res: String)
    ensures
        res@ == spec_hit_heading(rank as nat, path@),
{
    let mut out = String::new();
    if rank < 10 {
        push_char(&mut out, ' ');
    }
    push_decimal(&mut out, rank as u128);
    proof {
        crate::text::lemma_decimal_len(rank as nat);
    }
    push_char(&mut out, '.');
    push_char(&mut out, ' ');
    out.append(path);
    out
}

}
