//! Path strings as `std::path` reads them on Unix.

use vstd::prelude::*;
use vstd::string::*;

use crate::text::{collect_chars, string_of_chars};

verus! {

/// End of the path segment that starts at `i`: the next `/`, or the end.
pub open spec fn segment_end(s: Seq<char>, i: int) -> int
    decreases s.len() - i,
{
    if i < 0 || i >= s.len() || s[i] == '/' {
        i
    } else {
        segment_end(s, i + 1)
    }
}

pub proof fn lemma_segment_end(s: Seq<char>, i: int)
    requires
        0 <= i <= s.len(),
    ensures
        i <= segment_end(s, i) <= s.len(),
        i < s.len() && s[i] != '/' ==> i < segment_end(s, i),
        forall|k: int| i <= k < segment_end(s, i) ==> #[trigger] s[k] != '/',
    decreases s.len() - i,
{
    if i < s.len() && s[i] != '/' {
        lemma_segment_end(s, i + 1);
    }
}

/// The normal components from position `i` on: the pieces between
/// separators, repeated separators ignored and `.` pieces dropped.
pub open spec fn segments_from(s: Seq<char>, i: int) -> Seq<Seq<char>>
    decreases s.len() - i, 1int,
{
    if i < 0 || i >= s.len() {
        Seq::empty()
    } else if s[i] == '/' {
        segments_from(s, i + 1)
    } else {
        let e = segment_end(s, i);
        proof {
            lemma_segment_end(s, i);
        }
        let seg = s.subrange(i, e);
        if seg == seq!['.'] {
            segments_from(s, e)
        } else {
            seq![seg] + segments_from(s, e)
        }
    }
}

/// The components of a path, as `Path::components` documents them: a root
/// (`/`) when the path starts with a separator; else a leading `.` when the
/// path starts with a `.` piece; then the normal pieces. Repeated
/// separators, inner `.` pieces and a trailing separator do not count.
pub open spec fn components(s: Seq<char>) -> Seq<Seq<char>> {
    let lead: Seq<Seq<char>> = if s.len() > 0 && s[0] == '/' {
        seq![seq!['/']]
    } else if s.len() > 0 && s[0] == '.' && (s.len() == 1 || s[1] == '/') {
        seq![seq!['.']]
    } else {
        Seq::empty()
    };
    lead + segments_from(s, 0)
}

/// Two paths are equal as `Path`s: the same components.
pub open spec fn same_path(a: Seq<char>, b: Seq<char>) -> bool {
    components(a) == components(b)
}

/// `base.join(rest)` as `PathBuf::push` documents it on Unix: an absolute
/// `rest` replaces `base`; otherwise a separator is added between them
/// unless `base` is empty or already ends with one.
pub open spec fn spec_join(base: Seq<char>, rest: Seq<char>) -> Seq<char> {
    if rest.len() > 0 && rest[0] == '/' {
        rest
    } else if base.len() == 0 || base.last() == '/' {
        base + rest
    } else {
        base + seq!['/'] + rest
    }
}

fn segments(s: &Vec<char>) -> (res: Vec<Vec<char>>)
    ensures
        res@.len() == segments_from(s@, 0).len(),
        forall|k: int| 0 <= k < res@.len() ==> (#[trigger] res@[k])@ == segments_from(s@, 0)[k],
{
    let n = s.len();
    let mut out: Vec<Vec<char>> = Vec::new();
    let ghost mut acc: Seq<Seq<char>> = Seq::empty();
    let mut i: usize = 0;
    while i < n
        invariant
            n == s@.len(),
            i <= n,
            out@.len() == acc.len(),
            forall|k: int| 0 <= k < acc.len() ==> (#[trigger] out@[k])@ == acc[k],
            acc + segments_from(s@, i as int) == segments_from(s@, 0),
        decreases n - i,
    {
        if s[i] == '/' {
            i = i + 1;
        } else {
            proof {
                lemma_segment_end(s@, i as int);
            }
            let mut j = i;
            let mut seg: Vec<char> = Vec::new();
            while j < n && s[j] != '/'
                invariant
                    n == s@.len(),
                    i <= j <= n,
                    j <= segment_end(s@, i as int),
                    segment_end(s@, j as int) == segment_end(s@, i as int),
                    seg@ == s@.subrange(i as int, j as int),
                decreases n - j,
            {
                seg.push(s[j]);
                proof {
                    lemma_segment_end(s@, j + 1);
                    assert(s@.subrange(i as int, j + 1) == s@.subrange(i as int, j as int).push(s@[j as int]));
                }
                j = j + 1;
            }
            proof {
                assert(j == segment_end(s@, i as int));
            }
            if seg.len() == 1 && seg[0] == '.' {
                proof {
                    assert(seg@ =~= seq!['.']);
                }
            } else {
                proof {
                    assert(seg@ != seq!['.']) by {
                        if seg@ == seq!['.'] {
                            assert(seg@.len() == 1 && seg@[0] == '.');
                        }
                    }
                    acc = acc.push(seg@);
                    assert(acc + segments_from(s@, j as int) =~= (acc.drop_last()) + (seq![seg@] + segments_from(s@, j as int)));
                }
                out.push(seg);
            }
            i = j;
        }
    }
    proof {
        assert(acc =~= segments_from(s@, 0));
    }
    out
}

pub fn components_of(s: &Vec<char>) -> (res: Vec<Vec<char>>)
    ensures
        res@.len() == components(s@).len(),
        forall|k: int| 0 <= k < res@.len() ==> (#[trigger] res@[k])@ == components(s@)[k],
{
    let mut out: Vec<Vec<char>> = Vec::new();
    let ghost mut lead: Seq<Seq<char>> = Seq::empty();
    if s.len() > 0 && s[0] == '/' {
        let mut root: Vec<char> = Vec::new();
        root.push('/');
        proof {
            lead = seq![seq!['/']];
            assert(root@ =~= seq!['/']);
        }
        out.push(root);
    } else if s.len() > 0 && s[0] == '.' && (s.len() == 1 || s[1] == '/') {
        let mut cur: Vec<char> = Vec::new();
        cur.push('.');
        proof {
            lead = seq![seq!['.']];
            assert(cur@ =~= seq!['.']);
        }
        out.push(cur);
    }
    let segs = segments(s);
    let ghost start = out@.len();
    let mut k: usize = 0;
    while k < segs.len()
        invariant
            start == lead.len(),
            lead.len() <= 1,
            lead + segments_from(s@, 0) == components(s@),
            segs@.len() == segments_from(s@, 0).len(),
            forall|j: int| 0 <= j < segs@.len() ==> (#[trigger] segs@[j])@ == segments_from(s@, 0)[j],
            k <= segs@.len(),
            out@.len() == start + k,
            forall|j: int| 0 <= j < out@.len() ==> (#[trigger] out@[j])@ == components(s@)[j],
        decreases segs@.len() - k,
    {
        out.push(segs[k].clone());
        k = k + 1;
    }
    out
}

fn vec_char_eq(a: &Vec<char>, b: &Vec<char>) -> (res: bool)
    ensures
        res == (a@ == b@),
{
    if a.len() != b.len() {
        return false;
    }
    let mut i: usize = 0;
    while i < a.len()
        invariant
            a@.len() == b@.len(),
            i <= a@.len(),
            forall|j: int| 0 <= j < i ==> a@[j] == b@[j],
        decreases a@.len() - i,
    {
        if a[i] != b[i] {
            return false;
        }
        i = i + 1;
    }
    proof {
        assert(a@ =~= b@);
    }
    true
}

/// Are `a` and `b` the same path (`Path`'s `==`)?
pub fn path_eq(a: &str, b: &str) -> (res: bool)
    ensures
        res == same_path(a@, b@),
{
    let ca = components_of(&collect_chars(a));
    let cb = components_of(&collect_chars(b));
    if ca.len() != cb.len() {
        return false;
    }
    let mut i: usize = 0;
    while i < ca.len()
        invariant
            ca@.len() == cb@.len(),
            ca@.len() == components(a@).len(),
            cb@.len() == components(b@).len(),
            forall|j: int| 0 <= j < ca@.len() ==> (#[trigger] ca@[j])@ == components(a@)[j],
            forall|j: int| 0 <= j < cb@.len() ==> (#[trigger] cb@[j])@ == components(b@)[j],
            i <= ca@.len(),
            forall|j: int| 0 <= j < i ==> components(a@)[j] == components(b@)[j],
        decreases ca@.len() - i,
    {
        if !vec_char_eq(&ca[i], &cb[i]) {
            return false;
        }
        i = i + 1;
    }
    proof {
        assert(components(a@) =~= components(b@));
    }
    true
}

/// `base.join(rest)` (see [`spec_join`]).
pub fn path_join(base: &str, rest: &str) -> (res: String)
    ensures
        res@ == spec_join(base@, rest@),
{
    let b = collect_chars(base);
    let r = collect_chars(rest);
    if r.len() > 0 && r[0] == '/' {
        return rest.to_owned();
    }
    let mut out = base.to_owned();
    if !(b.len() == 0 || b[b.len() - 1] == '/') {
        out.append("/");
        proof {
            reveal_strlit("/");
        }
    }
    out.append(rest);
    out
}

/// `base` is a prefix of `path`, whole components matching (`Path::starts_with`).
pub open spec fn is_component_prefix(base: Seq<char>, path: Seq<char>) -> bool {
    components(base).len() <= components(path).len() && components(path).take(
        components(base).len() as int,
    ) == components(base)
}

/// What `Path::strip_prefix` leaves of `path` once `base` is taken off its
/// front, as a string, when `base` is a prefix of `path`.
pub uninterp spec fn stripped_path(path: Seq<char>, base: Seq<char>) -> Option<Seq<char>>;

/// `Path::new(path).strip_prefix(base)`, displayed. Its documentation says:
/// the result is `Err` exactly when `base` is not a prefix of `path`, whole
/// components matching (`starts_with`); otherwise it is the path that, when
/// joined onto `base`, yields `path`. Nothing is claimed of the exact text
/// of the remainder (repeated separators or `.` pieces in it).
#[verifier::external_body]
pub(crate) fn path_strip_prefix(path: &str, base: &str) -> (res: Option<String>)
    ensures
        match res {
            Some(r) => {
                &&& is_component_prefix(base@, path@)
                &&& stripped_path(path@, base@) == Some(r@)
                &&& same_path(spec_join(base@, r@), path@)
            },
            None => !is_component_prefix(base@, path@) && stripped_path(path@, base@) is None,
        },
{
    match std::path::Path::new(path).strip_prefix(base) {
        Ok(r) => Some(r.display().to_string()),
        Err(_) => None,
    }
}


/// The last component of a path when it is a name, as `Path::file_name`
/// documents it: none for an empty path, the root, `.` or a path that ends
/// in `..`.
pub open spec fn spec_file_name(s: Seq<char>) -> Option<Seq<char>> {
    let c = components(s);
    if c.len() == 0 || c.last() == seq!['/'] || c.last() == seq!['.'] || c.last() == seq!['.', '.'] {
        None
    } else {
        Some(c.last())
    }
}

/// `Path::file_name`.
pub fn file_name(path: &str) -> (res: Option<Vec<char>>)
    ensures
        match res {
            Some(n) => spec_file_name(path@) == Some(n@),
            None => spec_file_name(path@) is None,
        },
{
    let c = components_of(&collect_chars(path));
    if c.len() == 0 {
        return None;
    }
    let last = c[c.len() - 1].clone();
    let is_root = last.len() == 1 && last[0] == '/';
    let is_cur = last.len() == 1 && last[0] == '.';
    let is_parent = last.len() == 2 && last[0] == '.' && last[1] == '.';
    proof {
        assert(last@ == components(path@).last());
        assert(is_root == (last@ == seq!['/'])) by {
            if last@ == seq!['/'] {
                assert(last@.len() == 1 && last@[0] == '/');
            }
            if is_root {
                assert(last@ =~= seq!['/']);
            }
        }
        assert(is_cur == (last@ == seq!['.'])) by {
            if last@ == seq!['.'] {
                assert(last@.len() == 1 && last@[0] == '.');
            }
            if is_cur {
                assert(last@ =~= seq!['.']);
            }
        }
        assert(is_parent == (last@ == seq!['.', '.'])) by {
            if last@ == seq!['.', '.'] {
                assert(last@.len() == 2 && last@[0] == '.' && last@[1] == '.');
            }
            if is_parent {
                assert(last@ =~= seq!['.', '.']);
            }
        }
    }
    if is_root || is_cur || is_parent {
        None
    } else {
        Some(last)
    }
}

}
