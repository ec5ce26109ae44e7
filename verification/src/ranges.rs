//! Highlighted byte ranges of an excerpt.

use vstd::prelude::*;

verus! {

/// Inserts `r` after every range of `sorted` that starts at or before it
/// (one step of a stable sort by start).
pub open spec fn insert_by_start(sorted: Seq<(usize, usize)>, r: (usize, usize)) -> Seq<(usize, usize)>
    decreases sorted.len(),
{
    if sorted.len() == 0 {
        seq![r]
    } else if sorted.last().0 <= r.0 {
        sorted.push(r)
    } else {
        insert_by_start(sorted.drop_last(), r).push(sorted.last())
    }
}

/// `ranges` stably sorted by start (ties keep their order), as
/// `sort_by_key(|r| r.start)` leaves them.
pub open spec fn sort_by_start(ranges: Seq<(usize, usize)>) -> Seq<(usize, usize)>
    decreases ranges.len(),
{
    if ranges.len() == 0 {
        ranges
    } else {
        insert_by_start(sort_by_start(ranges.drop_last()), ranges.last())
    }
}

pub open spec fn sorted_by_start(s: Seq<(usize, usize)>) -> bool {
    forall|i: int, j: int| 0 <= i <= j < s.len() ==> (#[trigger] s[i]).0 <= (#[trigger] s[j]).0
}

proof fn lemma_insert_len(sorted: Seq<(usize, usize)>, r: (usize, usize))
    ensures
        insert_by_start(sorted, r).len() == sorted.len() + 1,
    decreases sorted.len(),
{
    if sorted.len() > 0 && sorted.last().0 > r.0 {
        lemma_insert_len(sorted.drop_last(), r);
    }
}

/// `p` is where `insert_by_start` puts `r`: after the ranges that start at
/// or before it.
proof fn lemma_insert_at(sorted: Seq<(usize, usize)>, r: (usize, usize), p: int)
    requires
        sorted_by_start(sorted),
        0 <= p <= sorted.len(),
        forall|k: int| 0 <= k < p ==> (#[trigger] sorted[k]).0 <= r.0,
        forall|k: int| p <= k < sorted.len() ==> (#[trigger] sorted[k]).0 > r.0,
    ensures
        insert_by_start(sorted, r) == sorted.take(p) + seq![r] + sorted.skip(p),
    decreases sorted.len(),
{
    if sorted.len() == 0 {
        assert(sorted.take(p) + seq![r] + sorted.skip(p) =~= seq![r]);
    } else if sorted.last().0 <= r.0 {
        assert(p == sorted.len());
        assert(sorted.take(p) + seq![r] + sorted.skip(p) =~= sorted.push(r));
    } else {
        let init = sorted.drop_last();
        assert(p < sorted.len());
        lemma_insert_at(init, r, p);
        assert(insert_by_start(init, r).push(sorted.last()) =~= sorted.take(p) + seq![r] + sorted.skip(p));
    }
}

/// Sorts `ranges` by start, stably.
pub fn sort_ranges(ranges: &Vec<(usize, usize)>) -> (res: Vec<(usize, usize)>)
    ensures
        res@ == sort_by_start(ranges@),
{
    let mut sorted: Vec<(usize, usize)> = Vec::new();
    let mut i: usize = 0;
    while i < ranges.len()
        invariant
            i <= ranges@.len(),
            sorted@ == sort_by_start(ranges@.take(i as int)),
            sorted_by_start(sorted@),
        decreases ranges@.len() - i,
    {
        let r = ranges[i];
        let mut p: usize = 0;
        while p < sorted.len() && sorted[p].0 <= r.0
            invariant
                p <= sorted@.len(),
                sorted_by_start(sorted@),
                forall|k: int| 0 <= k < p ==> (#[trigger] sorted@[k]).0 <= r.0,
            decreases sorted@.len() - p,
        {
            p = p + 1;
        }
        proof {
            assert forall|k: int| p <= k < sorted@.len() implies (#[trigger] sorted@[k]).0 > r.0 by {
                assert(sorted@[p as int].0 > r.0);
                assert(sorted@[p as int].0 <= sorted@[k].0);
            }
            lemma_insert_at(sorted@, r, p as int);
            assert(ranges@.take(i + 1).drop_last() == ranges@.take(i as int));
        }
        let mut next: Vec<(usize, usize)> = Vec::new();
        let mut k: usize = 0;
        while k < p
            invariant
                k <= p <= sorted@.len(),
                next@ == sorted@.take(k as int),
            decreases p - k,
        {
            next.push(sorted[k]);
            proof {
                assert(sorted@.take(k + 1) == sorted@.take(k as int).push(sorted@[k as int]));
            }
            k = k + 1;
        }
        next.push(r);
        while k < sorted.len()
            invariant
                p <= k <= sorted@.len(),
                next@ == sorted@.take(p as int) + seq![r] + sorted@.subrange(p as int, k as int),
            decreases sorted@.len() - k,
        {
            next.push(sorted[k]);
            proof {
                assert(sorted@.subrange(p as int, k + 1) == sorted@.subrange(p as int, k as int).push(sorted@[k as int]));
            }
            k = k + 1;
        }
        proof {
            assert(sorted@.subrange(p as int, sorted@.len() as int) == sorted@.skip(p as int));
            assert(next@ == insert_by_start(sorted@, r));
            assert forall|a: int, b: int| 0 <= a <= b < next@.len() implies (#[trigger] next@[a]).0 <= (#[trigger] next@[b]).0 by {
                if a < p && b < p {
                } else if a < p && b == p {
                } else if a < p {
                    assert(next@[b] == sorted@[b - 1]);
                } else if a == p && b > p {
                    assert(next@[b] == sorted@[b - 1]);
                } else if a > p {
                    assert(next@[a] == sorted@[a - 1]);
                    assert(next@[b] == sorted@[b - 1]);
                }
            }
        }
        sorted = next;
        i = i + 1;
    }
    proof {
        assert(ranges@.take(ranges@.len() as int) == ranges@);
    }
    sorted
}

}
