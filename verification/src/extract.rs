//! Which files mikke reads, and in which format: plain text, Markdown,
//! PDF, DOCX and HTML.

use vstd::prelude::*;

use vstd::utf8::{decode_utf8, valid_utf8};

use crate::paths::{file_name, spec_file_name};

verus! {

#[derive(Debug)]
pub enum ExtractError {
    Io(std::io::Error),
    /// The file is not a readable document of its format (a corrupt PDF, a
    /// DOCX without a body).
    Format(String),
}

/// How the text of a file is read.
#[derive(Debug, Clone, Copy, PartialEq, Eq, Structural)]
pub enum Format {
    /// Plain text and Markdown, read as they are.
    Text,
    Pdf,
    Docx,
    Html,
}

/// The last `.` of `name`, if any.
pub open spec fn last_dot(name: Seq<char>) -> Option<int>
    decreases name.len(),
{
    if name.len() == 0 {
        None
    } else if name.last() == '.' {
        Some(name.len() - 1)
    } else {
        last_dot(name.drop_last())
    }
}

/// The extension of a file name, as `Path::extension` documents it: none
/// without a `.`, none when the only `.` starts the name; otherwise what
/// follows the last `.`.
pub open spec fn spec_name_extension(name: Seq<char>) -> Option<Seq<char>> {
    match last_dot(name) {
        None => None,
        Some(p) => if p == 0 {
            None
        } else {
            Some(name.skip(p + 1))
        },
    }
}

pub open spec fn spec_path_extension(path: Seq<char>) -> Option<Seq<char>> {
    match spec_file_name(path) {
        None => None,
        Some(n) => spec_name_extension(n),
    }
}

pub open spec fn ascii_lower(c: char) -> char {
    if 'A' <= c && c <= 'Z' {
        ((c as u32) + 32) as char
    } else {
        c
    }
}

/// `str::to_ascii_lowercase`: ASCII capitals lowered, everything else kept.
pub open spec fn spec_ascii_lowercase(s: Seq<char>) -> Seq<char> {
    s.map_values(|c: char| ascii_lower(c))
}

/// The lowercased extension of the file a path names.
pub open spec fn spec_extension(path: Seq<char>) -> Option<Seq<char>> {
    match spec_path_extension(path) {
        None => None,
        Some(e) => Some(spec_ascii_lowercase(e)),
    }
}

proof fn lemma_last_dot(name: Seq<char>)
    ensures
        match last_dot(name) {
            Some(p) => 0 <= p < name.len() && name[p] == '.' && forall|k: int| p < k < name.len() ==> name[k] != '.',
            None => forall|k: int| 0 <= k < name.len() ==> name[k] != '.',
        },
    decreases name.len(),
{
    if name.len() > 0 && name.last() != '.' {
        lemma_last_dot(name.drop_last());
        assert forall|k: int| 0 <= k < name.len() - 1 implies name[k] == name.drop_last()[k] by {}
    }
}

pub(crate) fn lower_char(c: char) -> (res: char)
    ensures
        res == ascii_lower(c),
{
    if 'A' <= c && c <= 'Z' {
        let b = (c as u8) + 32;
        b as char
    } else {
        c
    }
}

pub fn extension(path: &str) -> (res: Option<Vec<char>>)
    ensures
        match res {
            Some(e) => spec_extension(path@) == Some(e@),
            None => spec_extension(path@) is None,
        },
{
    let name = match file_name(path) {
        None => return None,
        Some(n) => n,
    };
    proof {
        lemma_last_dot(name@);
    }
    let mut p = name.len();
    while p > 0 && name[p - 1] != '.'
        invariant
            p <= name@.len(),
            forall|k: int| p <= k < name@.len() ==> name@[k] != '.',
        decreases p,
    {
        p = p - 1;
    }
    if p <= 1 {
        proof {
            if p == 1 {
                assert(last_dot(name@) == Some(0int));
            } else {
                assert(last_dot(name@) is None);
            }
        }
        return None;
    }
    proof {
        assert(last_dot(name@) == Some(p - 1));
    }
    let mut out: Vec<char> = Vec::new();
    let mut i = p;
    while i < name.len()
        invariant
            p <= i <= name@.len(),
            out@ == spec_ascii_lowercase(name@.skip(p as int)).take((i - p) as int),
        decreases name@.len() - i,
    {
        out.push(lower_char(name[i]));
        proof {
            assert(spec_ascii_lowercase(name@.skip(p as int)).take((i + 1 - p) as int) =~= spec_ascii_lowercase(name@.skip(p as int)).take((i - p) as int).push(ascii_lower(name@[i as int])));
        }
        i = i + 1;
    }
    proof {
        assert(spec_ascii_lowercase(name@.skip(p as int)).take((i - p) as int) =~= spec_ascii_lowercase(name@.skip(p as int)));
    }
    Some(out)
}

/// The format of a file by its (lowercased) extension.
pub open spec fn spec_format(e: Seq<char>) -> Option<Format> {
    if e == seq!['t', 'x', 't'] || e == seq!['t', 'e', 'x', 't'] || e == seq!['m', 'd'] || e == seq![
        'm',
        'a',
        'r',
        'k',
        'd',
        'o',
        'w',
        'n',
    ] {
        Some(Format::Text)
    } else if e == seq!['p', 'd', 'f'] {
        Some(Format::Pdf)
    } else if e == seq!['d', 'o', 'c', 'x'] {
        Some(Format::Docx)
    } else if e == seq!['h', 't', 'm', 'l'] || e == seq!['h', 't', 'm'] {
        Some(Format::Html)
    } else {
        None
    }
}

/// The formats mikke reads.
pub open spec fn is_supported_extension(e: Seq<char>) -> bool {
    spec_format(e) is Some
}

fn is_word(v: &Vec<char>, w: &[char]) -> (res: bool)
    ensures
        res == (v@ == w@),
{
    if v.len() != w.len() {
        return false;
    }
    let mut i: usize = 0;
    while i < v.len()
        invariant
            v@.len() == w@.len(),
            i <= v@.len(),
            forall|j: int| 0 <= j < i ==> v@[j] == w@[j],
        decreases v@.len() - i,
    {
        if v[i] != w[i] {
            return false;
        }
        i = i + 1;
    }
    proof {
        assert(v@ =~= w@);
    }
    true
}

/// The format of the file a path names (see [`spec_format`]), if mikke
/// reads it.
pub fn format_of(path: &str) -> (res: Option<Format>)
    ensures
        res == match spec_extension(path@) {
            Some(e) => spec_format(e),
            None => None,
        },
{
    match extension(path) {
        None => None,
        Some(e) => {
            let txt = ['t', 'x', 't'];
            let text = ['t', 'e', 'x', 't'];
            let md = ['m', 'd'];
            let markdown = ['m', 'a', 'r', 'k', 'd', 'o', 'w', 'n'];
            let pdf = ['p', 'd', 'f'];
            let docx = ['d', 'o', 'c', 'x'];
            let html = ['h', 't', 'm', 'l'];
            let htm = ['h', 't', 'm'];
            proof {
                assert(txt@ == seq!['t', 'x', 't']);
                assert(text@ == seq!['t', 'e', 'x', 't']);
                assert(md@ == seq!['m', 'd']);
                assert(markdown@ == seq!['m', 'a', 'r', 'k', 'd', 'o', 'w', 'n']);
                assert(pdf@ == seq!['p', 'd', 'f']);
                assert(docx@ == seq!['d', 'o', 'c', 'x']);
                assert(html@ == seq!['h', 't', 'm', 'l']);
                assert(htm@ == seq!['h', 't', 'm']);
            }
            if is_word(&e, &txt) || is_word(&e, &text) || is_word(&e, &md) || is_word(&e, &markdown) {
                Some(Format::Text)
            } else if is_word(&e, &pdf) {
                Some(Format::Pdf)
            } else if is_word(&e, &docx) {
                Some(Format::Docx)
            } else if is_word(&e, &html) || is_word(&e, &htm) {
                Some(Format::Html)
            } else {
                None
            }
        },
    }
}

/// Is the file of a format that mikke can read (`txt`, `text`, `md`,
/// `markdown`, `pdf`, `docx`, `html`, `htm`, in any case)?
pub fn supported(path: &str) -> (res: bool)
    ensures
        res == (spec_extension(path@) matches Some(e) && is_supported_extension(e)),
{
    format_of(path).is_some()
}

/// What `String::from_utf8_lossy` makes of some bytes: a function of the
/// bytes alone.
pub uninterp spec fn lossy_decoded(bytes: Seq<u8>) -> Seq<char>;

/// `String::from_utf8_lossy`, owned. Its documentation: the result depends
/// on the bytes alone; valid UTF-8 is decoded as it is; each invalid
/// sequence becomes U+FFFD (which bytes form one sequence is not stated
/// here).
#[verifier::external_body]
fn from_utf8_lossy(bytes: &[u8]) -> (res: String)
    ensures
        res@ == lossy_decoded(bytes@),
        valid_utf8(bytes@) ==> res@ == decode_utf8(bytes@),
{
    String::from_utf8_lossy(bytes).into_owned()
}

/// The text of a file read as it is, from its bytes: bytes that are not
/// UTF-8 are replaced rather than failing the indexing.
pub fn extract_text(bytes: &[u8]) -> (res: String)
    ensures
        res@ == lossy_decoded(bytes@),
        valid_utf8(bytes@) ==> res@ == decode_utf8(bytes@),
{
    from_utf8_lossy(bytes)
}

}
