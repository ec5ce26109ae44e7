//! Choosing what a BM25 search shows.
//!
//! The search runs over chunks; only the best chunk of each file is kept,
//! so that a document never shows twice.

use vstd::prelude::*;
use vstd::string::*;

use crate::text::collect_chars;

verus! {

/// How many chunks are fetched before keeping one per file.
pub const CHUNK_POOL: usize = 50;

/// Longest snippet, in characters.
pub const SNIPPET_MAX_CHARS: usize = 240;

/// The first `max` characters of `s` (all of `s` when it is shorter).
pub open spec fn spec_truncate_chars(s: Seq<char>, max: int) -> Seq<char> {
    if s.len() > max {
        s.take(max)
    } else {
        s
    }
}

pub fn truncate_chars(s: &str, max: usize) -> (res: String)
    ensures
        res@ == spec_truncate_chars(s@, max as int),
{
    let n = collect_chars(s).len();
    if n > max {
        s.substring_char(0, max).to_owned()
    } else {
        s.to_owned()
    }
}

/// A query term of at most this many characters (a digit, a letter, a
/// particle) is a crumb when it is all that a hit matches.
pub const CRUMB_MAX_CHARS: usize = 2;

/// The terms hold at least two different words.
pub open spec fn two_terms(terms: Seq<String>) -> bool {
    exists|i: int| 0 <= i < terms.len() && (#[trigger] terms[i])@ != terms[0]@
}

/// A hit is a crumb when the query has several words and the hit matches
/// only one of them, a short one (see [`CRUMB_MAX_CHARS`]): a lone « 9 »
/// in a long text says nothing of what was asked for.
pub open spec fn spec_is_crumb(matched: Seq<String>, query: Seq<String>) -> bool {
    &&& two_terms(query)
    &&& matched.len() > 0
    &&& !two_terms(matched)
    &&& matched[0]@.len() <= CRUMB_MAX_CHARS
}

fn has_two_terms(terms: &Vec<String>) -> (res: bool)
    ensures
        res == two_terms(terms@),
{
    if terms.len() == 0 {
        return false;
    }
    let mut i: usize = 1;
    while i < terms.len()
        invariant
            1 <= i <= terms@.len(),
            forall|j: int| 0 <= j < i ==> (#[trigger] terms@[j])@ == terms@[0]@,
        decreases terms@.len() - i,
    {
        if terms[i] != terms[0] {
            assert(terms@[i as int]@ != terms@[0]@);
            return true;
        }
        i = i + 1;
    }
    false
}

/// Whether a hit that matches the query terms `matched` (those of
/// `query` found in it) is shown: all but crumbs (see [`spec_is_crumb`]).
pub fn keep_hit(matched: &Vec<String>, query: &Vec<String>) -> (res: bool)
    ensures
        res == !spec_is_crumb(matched@, query@),
{
    if !has_two_terms(query) || matched.len() == 0 || has_two_terms(matched) {
        return true;
    }
    let n = collect_chars(matched[0].as_str()).len();
    n > CRUMB_MAX_CHARS
}

/// Positions of the chunks whose path was not seen before, in rank order.
pub open spec fn first_occurrences(paths: Seq<Seq<char>>) -> Seq<int>
    decreases paths.len(),
{
    if paths.len() == 0 {
        Seq::empty()
    } else {
        let k = paths.len() - 1;
        if paths.take(k).contains(paths[k]) {
            first_occurrences(paths.take(k))
        } else {
            first_occurrences(paths.take(k)).push(k)
        }
    }
}

/// The chunks shown: the best chunk of each file, best first, at most
/// `limit` of them (a `limit` of 0 shows none).
pub open spec fn spec_select_hits(paths: Seq<Seq<char>>, limit: int) -> Seq<int> {
    let f = first_occurrences(paths);
    if f.len() > limit {
        f.take(limit)
    } else {
        f
    }
}

pub open spec fn texts(v: Seq<String>) -> Seq<Seq<char>> {
    v.map_values(|s: String| s@)
}

fn seen_before(paths: &Vec<String>, k: usize) -> (res: bool)
    requires
        k < paths@.len(),
    ensures
        res == texts(paths@).take(k as int).contains(texts(paths@)[k as int]),
{
    let target = collect_chars(paths[k].as_str());
    let mut j: usize = 0;
    while j < k
        invariant
            k < paths@.len(),
            j <= k,
            target@ == paths@[k as int]@,
            forall|i: int| 0 <= i < j ==> paths@[i]@ != paths@[k as int]@,
        decreases k - j,
    {
        let other = collect_chars(paths[j].as_str());
        let mut same = other.len() == target.len();
        let mut q: usize = 0;
        while same && q < other.len()
            invariant
                other@ == paths@[j as int]@,
                target@ == paths@[k as int]@,
                same ==> other@.len() == target@.len(),
                same ==> forall|x: int| 0 <= x < q ==> other@[x] == target@[x],
                !same ==> other@ != target@,
                q <= other@.len(),
            decreases other@.len() - q,
        {
            if other[q] != target[q] {
                same = false;
            }
            q = q + 1;
        }
        if same {
            proof {
                assert(other@ =~= target@);
                assert(texts(paths@).take(k as int)[j as int] == texts(paths@)[k as int]);
            }
            return true;
        }
        j = j + 1;
    }
    proof {
        assert forall|i: int| 0 <= i < k implies texts(paths@).take(k as int)[i] != texts(paths@)[k as int] by {
            assert(texts(paths@).take(k as int)[i] == paths@[i]@);
        }
    }
    false
}

/// Which of the ranked chunks (given by their file paths, best first) are
/// shown (see [`spec_select_hits`]).
pub fn select_hits(paths: &Vec<String>, limit: usize) -> (res: Vec<usize>)
    ensures
        res@.len() == spec_select_hits(texts(paths@), limit as int).len(),
        forall|i: int| 0 <= i < res@.len() ==> (#[trigger] res@[i]) as int == spec_select_hits(texts(paths@), limit as int)[i],
{
    let mut kept: Vec<usize> = Vec::new();
    if limit == 0 {
        proof {
            let f = first_occurrences(texts(paths@));
            if f.len() > 0 {
                assert(f.take(0).len() == 0);
            }
        }
        return kept;
    }
    let mut k: usize = 0;
    while k < paths.len()
        invariant
            k <= paths@.len(),
            kept@.len() == first_occurrences(texts(paths@).take(k as int)).len(),
            forall|i: int| 0 <= i < kept@.len() ==> (#[trigger] kept@[i]) as int == first_occurrences(texts(paths@).take(k as int))[i],
            kept@.len() < limit,
        decreases paths@.len() - k,
    {
        let seen = seen_before(paths, k);
        proof {
            let t = texts(paths@).take(k + 1);
            assert(t.take(k as int) == texts(paths@).take(k as int));
            assert(t[k as int] == texts(paths@)[k as int]);
        }
        if !seen {
            kept.push(k);
            if kept.len() == limit {
                proof {
                    let f = first_occurrences(texts(paths@));
                    lemma_first_occurrences_prefix(texts(paths@), k + 1);
                    assert(kept@.len() == limit);
                    assert forall|i: int| 0 <= i < kept@.len() implies (#[trigger] kept@[i]) as int == spec_select_hits(texts(paths@), limit as int)[i] by {
                        assert(f[i] == first_occurrences(texts(paths@).take(k + 1))[i]);
                    }
                }
                return kept;
            }
        }
        k = k + 1;
    }
    proof {
        assert(texts(paths@).take(paths@.len() as int) == texts(paths@));
    }
    kept
}

/// The first occurrences within a prefix are the first ones overall.
proof fn lemma_first_occurrences_prefix(paths: Seq<Seq<char>>, m: int)
    requires
        0 <= m <= paths.len(),
    ensures
        first_occurrences(paths.take(m)).len() <= first_occurrences(paths).len(),
        forall|i: int| 0 <= i < first_occurrences(paths.take(m)).len() ==> first_occurrences(paths)[i] == #[trigger] first_occurrences(paths.take(m))[i],
    decreases paths.len() - m,
{
    if m < paths.len() {
        let n = paths.len() - 1;
        lemma_first_occurrences_prefix(paths.take(n), m);
        assert(paths.take(n).take(m) == paths.take(m));
        assert(paths.take(paths.len() as int) == paths);
    } else {
        assert(paths.take(m) == paths);
    }
}

/// The excerpt shown: the snippet and its highlights when the snippet has
/// text; otherwise, when the query has no usable position, the start of the
/// chunk, with no highlight.
pub fn choose_snippet(fragment: String, highlights: Vec<(usize, usize)>, body: &str) -> (res: (String, Vec<(usize, usize)>))
    ensures
        fragment@.len() == 0 ==> res.0@ == spec_truncate_chars(body@, SNIPPET_MAX_CHARS as int) && res.1@.len() == 0,
        fragment@.len() > 0 ==> res.0@ == fragment@ && res.1@ == highlights@,
{
    if fragment.as_str().is_empty() {
        (truncate_chars(body, SNIPPET_MAX_CHARS), Vec::new())
    } else {
        (fragment, highlights)
    }
}


proof fn lemma_first_occurrences_props(paths: Seq<Seq<char>>)
    ensures
        forall|a: int|
            0 <= a < first_occurrences(paths).len() ==> {
                let k = #[trigger] first_occurrences(paths)[a];
                0 <= k < paths.len() && !paths.take(k).contains(paths[k])
            },
        forall|a: int, b: int|
            0 <= a < b < first_occurrences(paths).len() ==> #[trigger] first_occurrences(paths)[a]
                < #[trigger] first_occurrences(paths)[b],
    decreases paths.len(),
{
    if paths.len() > 0 {
        let n = paths.len() - 1;
        let init = paths.take(n);
        lemma_first_occurrences_prefix_props(paths, init, n);
    }
}

proof fn lemma_first_occurrences_prefix_props(paths: Seq<Seq<char>>, init: Seq<Seq<char>>, n: int)
    requires
        paths.len() > 0,
        n == paths.len() - 1,
        init == paths.take(n),
    ensures
        forall|a: int|
            0 <= a < first_occurrences(paths).len() ==> {
                let k = #[trigger] first_occurrences(paths)[a];
                0 <= k < paths.len() && !paths.take(k).contains(paths[k])
            },
        forall|a: int, b: int|
            0 <= a < b < first_occurrences(paths).len() ==> #[trigger] first_occurrences(paths)[a]
                < #[trigger] first_occurrences(paths)[b],
    decreases paths.len(), 0int,
{
    lemma_first_occurrences_props(init);
    let f = first_occurrences(init);
    assert forall|a: int| 0 <= a < f.len() implies {
        let k = #[trigger] f[a];
        0 <= k < paths.len() && !paths.take(k).contains(paths[k])
    } by {
        let k = f[a];
        assert(init.take(k) =~= paths.take(k));
        assert(init[k] == paths[k]);
    }
}

/// No file shows twice: the chunks kept have pairwise different paths, and
/// each is the best-ranked chunk of its file (no chunk before it has its
/// path); they keep their rank order; and there are at most `limit` of
/// them.
pub proof fn law_select_hits_one_per_file(paths: Seq<Seq<char>>, limit: int)
    requires
        limit >= 0,
    ensures
        spec_select_hits(paths, limit).len() <= limit,
        forall|a: int|
            0 <= a < spec_select_hits(paths, limit).len() ==> {
                let k = #[trigger] spec_select_hits(paths, limit)[a];
                0 <= k < paths.len() && !paths.take(k).contains(paths[k])
            },
        forall|a: int, b: int|
            0 <= a < b < spec_select_hits(paths, limit).len() ==> {
                &&& #[trigger] spec_select_hits(paths, limit)[a] < #[trigger] spec_select_hits(paths, limit)[b]
                &&& paths[spec_select_hits(paths, limit)[a]] != paths[spec_select_hits(paths, limit)[b]]
            },
{
    lemma_first_occurrences_props(paths);
    let f = first_occurrences(paths);
    let r = spec_select_hits(paths, limit);
    assert forall|a: int| 0 <= a < r.len() implies #[trigger] r[a] == f[a] by {}
    assert forall|a: int, b: int| 0 <= a < b < r.len() implies {
        &&& #[trigger] r[a] < #[trigger] r[b]
        &&& paths[r[a]] != paths[r[b]]
    } by {
        assert(r[a] == f[a] && r[b] == f[b]);
        assert(f[a] < f[b]);
        let kb = f[b];
        let ka = f[a];
        assert(paths.take(kb)[ka] == paths[ka]);
        if paths[ka] == paths[kb] {
            assert(paths.take(kb).contains(paths[kb]));
        }
    }
}


proof fn lemma_first_occurrences_complete(paths: Seq<Seq<char>>, k: int)
    requires
        0 <= k < paths.len(),
        !paths.take(k).contains(paths[k]),
    ensures
        first_occurrences(paths).contains(k),
    decreases paths.len(),
{
    let n = paths.len() - 1;
    let init = paths.take(n);
    if k == n {
        assert(first_occurrences(paths) == first_occurrences(init).push(k));
        assert(first_occurrences(paths)[first_occurrences(init).len() as int] == k);
    } else {
        assert(init.take(k) =~= paths.take(k));
        assert(init[k] == paths[k]);
        lemma_first_occurrences_complete(init, k);
        let f0 = first_occurrences(init);
        let j = choose|j: int| 0 <= j < f0.len() && f0[j] == k;
        if paths.take(n).contains(paths[n]) {
            assert(first_occurrences(paths) == f0);
        } else {
            assert(first_occurrences(paths) == f0.push(n));
            assert(first_occurrences(paths)[j] == k);
        }
    }
}

/// No file is passed over: every chunk that is the first of its file in
/// the ranked list is shown when it comes before the last chunk shown, and
/// when fewer than `limit` are shown every file has its chunk shown (the
/// selection is the first `limit` files of the whole list, in rank order).
pub proof fn law_select_hits_misses_no_file(paths: Seq<Seq<char>>, limit: int, k: int)
    requires
        limit >= 0,
        0 <= k < paths.len(),
        !paths.take(k).contains(paths[k]),
    ensures
        spec_select_hits(paths, limit).len() < limit ==> spec_select_hits(paths, limit).contains(k),
        spec_select_hits(paths, limit).len() > 0 && k <= spec_select_hits(paths, limit).last()
            ==> spec_select_hits(paths, limit).contains(k),
        spec_select_hits(paths, limit).len() < limit ==> exists|a: int|
            0 <= a < spec_select_hits(paths, limit).len() && paths[#[trigger] spec_select_hits(paths, limit)[a]]
                == paths[k],
{
    lemma_first_occurrences_props(paths);
    lemma_first_occurrences_complete(paths, k);
    let f = first_occurrences(paths);
    let r = spec_select_hits(paths, limit);
    let a = choose|a: int| 0 <= a < f.len() && f[a] == k;
    if r.len() < limit {
        assert(r == f);
        assert(r[a] == k);
    }
    if r.len() > 0 && k <= r.last() {
        let m = r.len() - 1;
        assert(r[m] == f[m]);
        if a > m {
            assert(f[m] < f[a]);
        }
        assert(r[a] == f[a]);
    }
}

}
