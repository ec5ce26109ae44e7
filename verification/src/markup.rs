//! Text out of markup: the visible text of an HTML page, and the text of
//! the runs of a DOCX body (`word/document.xml`).
//!
//! Both are read left to right. Markup is matched ASCII case aside; the
//! usual character entities are decoded, others are kept as written.

use vstd::prelude::*;

use crate::extract::{ascii_lower, lower_char};
use crate::text::{collect_chars, is_whitespace, spec_is_whitespace, string_of_chars};

verus! {

/// `pat` (in lower case) is written at `i` in `s`, ASCII case aside.
pub open spec fn matches_at(s: Seq<char>, i: int, pat: Seq<char>) -> bool {
    &&& 0 <= i
    &&& i + pat.len() <= s.len()
    &&& forall|k: int| 0 <= k < pat.len() ==> ascii_lower(s[i + k]) == #[trigger] pat[k]
}

/// The first place from `i` where `pat` is written, or the end of `s`.
pub open spec fn find_from(s: Seq<char>, i: int, pat: Seq<char>) -> int
    decreases s.len() - i,
{
    if i < 0 || i + pat.len() > s.len() {
        s.len() as int
    } else if matches_at(s, i, pat) {
        i
    } else {
        find_from(s, i + 1, pat)
    }
}

/// Just past the first `pat` from `i`, or the end of `s` when there is none.
pub open spec fn past(s: Seq<char>, i: int, pat: Seq<char>) -> int {
    let f = find_from(s, i, pat);
    if f >= s.len() {
        s.len() as int
    } else {
        f + pat.len()
    }
}

proof fn lemma_find_from(s: Seq<char>, i: int, pat: Seq<char>)
    requires
        0 <= i <= s.len(),
        pat.len() > 0,
    ensures
        i <= find_from(s, i, pat) <= s.len(),
        find_from(s, i, pat) < s.len() ==> matches_at(s, find_from(s, i, pat), pat),
        i <= past(s, i, pat) <= s.len(),
    decreases s.len() - i,
{
    if i + pat.len() <= s.len() && !matches_at(s, i, pat) {
        lemma_find_from(s, i + 1, pat);
    }
}

pub open spec fn gt() -> Seq<char> {
    seq!['>']
}

pub open spec fn comment_open() -> Seq<char> {
    seq!['<', '!', '-', '-']
}

pub open spec fn comment_close() -> Seq<char> {
    seq!['-', '-', '>']
}

pub open spec fn script_name() -> Seq<char> {
    seq!['s', 'c', 'r', 'i', 'p', 't']
}

pub open spec fn style_name() -> Seq<char> {
    seq!['s', 't', 'y', 'l', 'e']
}

pub open spec fn script_close() -> Seq<char> {
    seq!['<', '/', 's', 'c', 'r', 'i', 'p', 't']
}

pub open spec fn style_close() -> Seq<char> {
    seq!['<', '/', 's', 't', 'y', 'l', 'e']
}

pub open spec fn is_name_char(c: char) -> bool {
    ('a' <= c && c <= 'z') || ('A' <= c && c <= 'Z') || ('0' <= c && c <= '9')
}

/// The tag at `i` opens the element `name` (`script` or `style`), whose
/// content is not text.
pub open spec fn opens_element(s: Seq<char>, i: int, name: Seq<char>) -> bool {
    &&& matches_at(s, i + 1, name)
    &&& (i + 1 + name.len() == s.len() || !is_name_char(s[i + 1 + name.len()]))
}

/// Where the text resumes after the markup that starts at `i` (a `<`): past
/// a comment's `-->`; past the closing tag of a `script` or `style`
/// element; past the `>` of any other tag.
pub open spec fn tag_end(s: Seq<char>, i: int) -> int {
    if matches_at(s, i, comment_open()) {
        past(s, i + 4, comment_close())
    } else if opens_element(s, i, script_name()) {
        past(s, past(s, i + 7, script_close()), gt())
    } else if opens_element(s, i, style_name()) {
        past(s, past(s, i + 6, style_close()), gt())
    } else {
        past(s, i + 1, gt())
    }
}

/// The character entity at `i`, if it is one of `&amp;`, `&lt;`, `&gt;`,
/// `&quot;`, `&#39;`, `&apos;`, `&nbsp;`: the character and its length.
pub open spec fn entity_at(s: Seq<char>, i: int) -> Option<(char, int)> {
    if matches_at(s, i, seq!['&', 'a', 'm', 'p', ';']) {
        Some(('&', 5))
    } else if matches_at(s, i, seq!['&', 'l', 't', ';']) {
        Some(('<', 4))
    } else if matches_at(s, i, seq!['&', 'g', 't', ';']) {
        Some(('>', 4))
    } else if matches_at(s, i, seq!['&', 'q', 'u', 'o', 't', ';']) {
        Some(('"', 6))
    } else if matches_at(s, i, seq!['&', '#', '3', '9', ';']) {
        Some(('\'', 5))
    } else if matches_at(s, i, seq!['&', 'a', 'p', 'o', 's', ';']) {
        Some(('\'', 6))
    } else if matches_at(s, i, seq!['&', 'n', 'b', 's', 'p', ';']) {
        Some((' ', 6))
    } else {
        None
    }
}

/// One step of reading HTML at `i`: the character it gives and where the
/// next step starts. Markup gives a space.
pub open spec fn html_step(s: Seq<char>, i: int) -> (char, int) {
    if s[i] == '<' {
        (' ', tag_end(s, i))
    } else if entity_at(s, i) is Some {
        let (c, n) = entity_at(s, i).unwrap();
        (c, i + n)
    } else {
        (s[i], i + 1)
    }
}

pub open spec fn html_from(s: Seq<char>, i: int) -> Seq<char>
    decreases s.len() - i,
{
    if i < 0 || i >= s.len() {
        seq![]
    } else {
        let (c, n) = html_step(s, i);
        if n <= i || n > s.len() {
            seq![]
        } else {
            seq![c] + html_from(s, n)
        }
    }
}

/// Runs of white space become one space; white space at the start goes.
pub open spec fn squeeze(s: Seq<char>) -> Seq<char>
    decreases s.len(),
{
    if s.len() == 0 {
        seq![]
    } else {
        let p = squeeze(s.drop_last());
        if spec_is_whitespace(s.last()) {
            if p.len() == 0 || p.last() == ' ' {
                p
            } else {
                p.push(' ')
            }
        } else {
            p.push(s.last())
        }
    }
}

/// The visible text of an HTML page: tags, comments, and the content of
/// `script` and `style` elements left out, entities decoded, white space
/// squeezed.
pub open spec fn spec_html_text(s: Seq<char>) -> Seq<char> {
    squeeze(html_from(s, 0))
}

pub open spec fn run_text_open() -> Seq<char> {
    seq!['<', 'w', ':', 't']
}

pub open spec fn run_text_close() -> Seq<char> {
    seq!['<', '/', 'w', ':', 't', '>']
}

pub open spec fn paragraph_close() -> Seq<char> {
    seq!['<', '/', 'w', ':', 'p', '>']
}

/// The tag at `i` opens a run's text (`<w:t>` or `<w:t ...>`).
pub open spec fn opens_run_text(s: Seq<char>, i: int) -> bool {
    &&& matches_at(s, i, run_text_open())
    &&& i + 4 < s.len()
    &&& (s[i + 4] == '>' || s[i + 4] == ' ')
}

/// The tag at `i` is the empty element `name` (`<w:tab/>`, `<w:br/>`, with
/// or without attributes).
pub open spec fn opens_empty(s: Seq<char>, i: int, name: Seq<char>) -> bool {
    &&& matches_at(s, i, name)
    &&& i + name.len() < s.len()
    &&& (s[i + name.len()] == '/' || s[i + name.len()] == ' ')
}

pub open spec fn tab_tag() -> Seq<char> {
    seq!['<', 'w', ':', 't', 'a', 'b']
}

pub open spec fn break_tag() -> Seq<char> {
    seq!['<', 'w', ':', 'b', 'r']
}

/// One step of reading a DOCX body at `i`, inside a run's text or not: what
/// it gives, where the next step starts, and whether it is then inside a
/// run's text. A paragraph's end and a line break give a line break, a tab
/// a tab.
pub open spec fn docx_step(s: Seq<char>, i: int, in_text: bool) -> (Option<char>, int, bool) {
    if s[i] == '<' {
        let e = past(s, i + 1, gt());
        if opens_run_text(s, i) {
            (None, e, true)
        } else if matches_at(s, i, run_text_close()) {
            (None, e, false)
        } else if matches_at(s, i, paragraph_close()) {
            (Some('\n'), e, false)
        } else if opens_empty(s, i, tab_tag()) {
            (Some('\t'), e, in_text)
        } else if opens_empty(s, i, break_tag()) {
            (Some('\n'), e, in_text)
        } else {
            (None, e, in_text)
        }
    } else if in_text {
        if entity_at(s, i) is Some {
            let (c, n) = entity_at(s, i).unwrap();
            (Some(c), i + n, true)
        } else {
            (Some(s[i]), i + 1, true)
        }
    } else {
        (None, i + 1, false)
    }
}

pub open spec fn opt_seq(c: Option<char>) -> Seq<char> {
    match c {
        Some(c) => seq![c],
        None => seq![],
    }
}

pub open spec fn docx_from(s: Seq<char>, i: int, in_text: bool) -> Seq<char>
    decreases s.len() - i,
{
    if i < 0 || i >= s.len() {
        seq![]
    } else {
        let (c, n, t) = docx_step(s, i, in_text);
        if n <= i || n > s.len() {
            seq![]
        } else {
            opt_seq(c) + docx_from(s, n, t)
        }
    }
}

/// The text of a DOCX body: the text of its runs, in order, with a line
/// break at the end of each paragraph.
pub open spec fn spec_docx_text(s: Seq<char>) -> Seq<char> {
    docx_from(s, 0, false)
}

fn match_at(s: &Vec<char>, i: usize, pat: &[char]) -> (res: bool)
    ensures
        res == matches_at(s@, i as int, pat@),
{
    if i > s.len() || pat.len() > s.len() - i {
        return false;
    }
    let len = s.len();
    let mut k: usize = 0;
    while k < pat.len()
        invariant
            len == s@.len(),
            k <= pat@.len(),
            i + pat@.len() <= s@.len(),
            forall|m: int| 0 <= m < k ==> ascii_lower(s@[i + m]) == #[trigger] pat@[m],
        decreases pat@.len() - k,
    {
        if lower_char(s[i + k]) != pat[k] {
            assert(ascii_lower(s@[i + k]) != pat@[k as int]);
            return false;
        }
        k = k + 1;
    }
    true
}

fn find(s: &Vec<char>, i: usize, pat: &[char]) -> (res: usize)
    requires
        i <= s@.len(),
        pat@.len() > 0,
    ensures
        res == find_from(s@, i as int, pat@),
{
    let mut j = i;
    while j < s.len() && pat.len() <= s.len() - j && !match_at(s, j, pat)
        invariant
            i <= j <= s@.len(),
            pat@.len() > 0,
            find_from(s@, j as int, pat@) == find_from(s@, i as int, pat@),
        decreases s@.len() - j,
    {
        j = j + 1;
    }
    if j < s.len() && pat.len() <= s.len() - j {
        j
    } else {
        s.len()
    }
}

fn past_of(s: &Vec<char>, i: usize, pat: &[char]) -> (res: usize)
    requires
        i <= s@.len(),
        pat@.len() > 0,
    ensures
        res == past(s@, i as int, pat@),
        i <= res <= s@.len(),
{
    proof {
        lemma_find_from(s@, i as int, pat@);
    }
    let f = find(s, i, pat);
    if f >= s.len() {
        s.len()
    } else {
        f + pat.len()
    }
}

fn past_gt(s: &Vec<char>, i: usize) -> (res: usize)
    requires
        i <= s@.len(),
    ensures
        res == past(s@, i as int, gt()),
        i <= res <= s@.len(),
{
    let p = ['>'];
    assert(p@ =~= gt());
    past_of(s, i, &p)
}

fn tag_end_of(s: &Vec<char>, i: usize) -> (res: usize)
    requires
        i < s@.len(),
    ensures
        res == tag_end(s@, i as int),
        i < res <= s@.len(),
{
    let len = s.len();
    let co = ['<', '!', '-', '-'];
    let cc = ['-', '-', '>'];
    let sn = ['s', 'c', 'r', 'i', 'p', 't'];
    let tn = ['s', 't', 'y', 'l', 'e'];
    let sc = ['<', '/', 's', 'c', 'r', 'i', 'p', 't'];
    let tc = ['<', '/', 's', 't', 'y', 'l', 'e'];
    proof {
        assert(co@ =~= comment_open());
        assert(cc@ =~= comment_close());
        assert(sn@ =~= script_name());
        assert(tn@ =~= style_name());
        assert(sc@ =~= script_close());
        assert(tc@ =~= style_close());
    }
    if match_at(s, i, &co) {
        past_of(s, i + 4, &cc)
    } else if match_at(s, i + 1, &sn) && (i + 7 == s.len() || !is_name(s[i + 7])) {
        let c = past_of(s, i + 7, &sc);
        past_gt(s, c)
    } else if match_at(s, i + 1, &tn) && (i + 6 == s.len() || !is_name(s[i + 6])) {
        let c = past_of(s, i + 6, &tc);
        past_gt(s, c)
    } else {
        past_gt(s, i + 1)
    }
}

fn is_name(c: char) -> (res: bool)
    ensures
        res == is_name_char(c),
{
    ('a' <= c && c <= 'z') || ('A' <= c && c <= 'Z') || ('0' <= c && c <= '9')
}

fn entity_of(s: &Vec<char>, i: usize) -> (res: Option<(char, usize)>)
    requires
        i < s@.len(),
    ensures
        match entity_at(s@, i as int) {
            Some((c, n)) => res == Some((c, n as usize)) && i + n <= s@.len() && n > 0,
            None => res is None,
        },
{
    let amp = ['&', 'a', 'm', 'p', ';'];
    let lt = ['&', 'l', 't', ';'];
    let gt = ['&', 'g', 't', ';'];
    let quot = ['&', 'q', 'u', 'o', 't', ';'];
    let apos39 = ['&', '#', '3', '9', ';'];
    let apos = ['&', 'a', 'p', 'o', 's', ';'];
    let nbsp = ['&', 'n', 'b', 's', 'p', ';'];
    proof {
        assert(amp@ =~= seq!['&', 'a', 'm', 'p', ';']);
        assert(lt@ =~= seq!['&', 'l', 't', ';']);
        assert(gt@ =~= seq!['&', 'g', 't', ';']);
        assert(quot@ =~= seq!['&', 'q', 'u', 'o', 't', ';']);
        assert(apos39@ =~= seq!['&', '#', '3', '9', ';']);
        assert(apos@ =~= seq!['&', 'a', 'p', 'o', 's', ';']);
        assert(nbsp@ =~= seq!['&', 'n', 'b', 's', 'p', ';']);
    }
    if match_at(s, i, &amp) {
        Some(('&', 5))
    } else if match_at(s, i, &lt) {
        Some(('<', 4))
    } else if match_at(s, i, &gt) {
        Some(('>', 4))
    } else if match_at(s, i, &quot) {
        Some(('"', 6))
    } else if match_at(s, i, &apos39) {
        Some(('\'', 5))
    } else if match_at(s, i, &apos) {
        Some(('\'', 6))
    } else if match_at(s, i, &nbsp) {
        Some((' ', 6))
    } else {
        None
    }
}

fn html_step_of(s: &Vec<char>, i: usize) -> (res: (char, usize))
    requires
        i < s@.len(),
    ensures
        res.0 == html_step(s@, i as int).0,
        res.1 == html_step(s@, i as int).1,
        i < res.1 <= s@.len(),
{
    let len = s.len();
    if s[i] == '<' {
        (' ', tag_end_of(s, i))
    } else {
        match entity_of(s, i) {
            Some((c, n)) => (c, i + n),
            None => (s[i], i + 1),
        }
    }
}

fn squeeze_chars(v: &Vec<char>) -> (res: Vec<char>)
    ensures
        res@ == squeeze(v@),
{
    let mut out: Vec<char> = Vec::new();
    let mut i: usize = 0;
    while i < v.len()
        invariant
            i <= v@.len(),
            out@ == squeeze(v@.take(i as int)),
        decreases v@.len() - i,
    {
        proof {
            assert(v@.take(i + 1).drop_last() =~= v@.take(i as int));
        }
        let c = v[i];
        if is_whitespace(c) {
            if out.len() > 0 && out[out.len() - 1] != ' ' {
                out.push(' ');
            }
        } else {
            out.push(c);
        }
        i = i + 1;
    }
    proof {
        assert(v@.take(v@.len() as int) =~= v@);
    }
    out
}

/// The visible text of an HTML page (see [`spec_html_text`]).
pub fn html_text(html: &str) -> (res: String)
    ensures
        res@ == spec_html_text(html@),
{
    let s = collect_chars(html);
    let mut out: Vec<char> = Vec::new();
    let mut i: usize = 0;
    while i < s.len()
        invariant
            i <= s@.len(),
            out@ + html_from(s@, i as int) == html_from(s@, 0),
        decreases s@.len() - i,
    {
        let (c, n) = html_step_of(&s, i);
        proof {
            assert(html_from(s@, i as int) == seq![c] + html_from(s@, n as int));
            assert(out@.push(c) + html_from(s@, n as int) =~= out@ + html_from(s@, i as int));
        }
        out.push(c);
        i = n;
    }
    proof {
        assert(out@ =~= html_from(s@, 0));
    }
    let squeezed = squeeze_chars(&out);
    string_of_chars(&squeezed)
}

fn docx_step_of(s: &Vec<char>, i: usize, in_text: bool) -> (res: (Option<char>, usize, bool))
    requires
        i < s@.len(),
    ensures
        res.0 == docx_step(s@, i as int, in_text).0,
        res.1 == docx_step(s@, i as int, in_text).1,
        res.2 == docx_step(s@, i as int, in_text).2,
        i < res.1 <= s@.len(),
{
    let len = s.len();
    if s[i] == '<' {
        let e = past_gt(s, i + 1);
        let open = ['<', 'w', ':', 't'];
        let close = ['<', '/', 'w', ':', 't', '>'];
        let para = ['<', '/', 'w', ':', 'p', '>'];
        let tab = ['<', 'w', ':', 't', 'a', 'b'];
        let br = ['<', 'w', ':', 'b', 'r'];
        proof {
            assert(open@ =~= run_text_open());
            assert(close@ =~= run_text_close());
            assert(para@ =~= paragraph_close());
            assert(tab@ =~= tab_tag());
            assert(br@ =~= break_tag());
        }
        if match_at(s, i, &open) && i + 4 < s.len() && (s[i + 4] == '>' || s[i + 4] == ' ') {
            (None, e, true)
        } else if match_at(s, i, &close) {
            (None, e, false)
        } else if match_at(s, i, &para) {
            (Some('\n'), e, false)
        } else if match_at(s, i, &tab) && i + 6 < len && (s[i + 6] == '/' || s[i + 6] == ' ') {
            (Some('\t'), e, in_text)
        } else if match_at(s, i, &br) && i + 5 < len && (s[i + 5] == '/' || s[i + 5] == ' ') {
            (Some('\n'), e, in_text)
        } else {
            (None, e, in_text)
        }
    } else if in_text {
        match entity_of(s, i) {
            Some((c, n)) => (Some(c), i + n, true),
            None => (Some(s[i]), i + 1, true),
        }
    } else {
        (None, i + 1, false)
    }
}

/// The text of a DOCX body (see [`spec_docx_text`]).
pub fn docx_text(xml: &str) -> (res: String)
    ensures
        res@ == spec_docx_text(xml@),
{
    let s = collect_chars(xml);
    let mut out: Vec<char> = Vec::new();
    let mut i: usize = 0;
    let mut in_text = false;
    while i < s.len()
        invariant
            i <= s@.len(),
            out@ + docx_from(s@, i as int, in_text) == docx_from(s@, 0, false),
        decreases s@.len() - i,
    {
        let (c, n, t) = docx_step_of(&s, i, in_text);
        proof {
            assert(docx_from(s@, i as int, in_text) == opt_seq(c) + docx_from(s@, n as int, t));
        }
        match c {
            Some(ch) => {
                proof {
                    assert(out@.push(ch) + docx_from(s@, n as int, t) =~= out@ + docx_from(s@, i as int, in_text));
                }
                out.push(ch);
            },
            None => {
                proof {
                    assert(out@ + docx_from(s@, n as int, t) =~= out@ + docx_from(s@, i as int, in_text));
                }
            },
        }
        i = n;
        in_text = t;
    }
    proof {
        assert(out@ =~= docx_from(s@, 0, false));
    }
    string_of_chars(&out)
}

}
