//! The vocabulary as the FST stores it: token bytes in strictly increasing
//! lexicographic order, each with the id it has in the model.
//!
//! A model's vocabulary may list the same token twice; the FST keeps one
//! entry per token, the one with the smallest id.

use vstd::prelude::*;
use vstd::slice::*;
use vstd::utf8::encode_utf8;

verus! {

/// `a < b` in the lexicographic order of byte strings (the order of `Ord`
/// on `[u8]` and `Vec<u8>`).
pub open spec fn bytes_lt(a: Seq<u8>, b: Seq<u8>) -> bool
    decreases a.len(),
{
    if b.len() == 0 {
        false
    } else if a.len() == 0 {
        true
    } else if a[0] != b[0] {
        a[0] < b[0]
    } else {
        bytes_lt(a.drop_first(), b.drop_first())
    }
}

/// The order of `Ord` on `(Vec<u8>, u64)`: by bytes, then by id.
pub open spec fn entry_le(a: (Seq<u8>, u64), b: (Seq<u8>, u64)) -> bool {
    bytes_lt(a.0, b.0) || (a.0 == b.0 && a.1 <= b.1)
}

pub open spec fn entry_view(e: (Vec<u8>, u64)) -> (Seq<u8>, u64) {
    (e.0@, e.1)
}

pub open spec fn entry_views(s: Seq<(Vec<u8>, u64)>) -> Seq<(Seq<u8>, u64)> {
    s.map_values(|e: (Vec<u8>, u64)| entry_view(e))
}

/// Each key strictly after the one before it.
pub open spec fn strictly_increasing(d: Seq<(Seq<u8>, u64)>) -> bool {
    forall|i: int| 0 < i < d.len() ==> bytes_lt(#[trigger] d[i - 1].0, d[i].0)
}

/// The FST entries of a vocabulary whose tokens (as bytes) are `tokens`,
/// listed by id: keys strictly increasing; every entry is a token with its
/// id; every token has an entry with an id no larger than its own (so the
/// entry of a token carries its smallest id).
pub open spec fn entries_of_vocab(tokens: Seq<Seq<u8>>, d: Seq<(Seq<u8>, u64)>) -> bool {
    &&& strictly_increasing(d)
    &&& forall|i: int|
        0 <= i < d.len() ==> (#[trigger] d[i]).1 < tokens.len() && tokens[d[i].1 as int] == d[i].0
    &&& forall|k: int| 0 <= k < tokens.len() ==> #[trigger] has_entry_within(d, tokens[k], k)
}

/// Some entry of `d` has key `key` and a value no larger than `bound`.
pub open spec fn has_entry_within(d: Seq<(Seq<u8>, u64)>, key: Seq<u8>, bound: int) -> bool {
    exists|i: int| 0 <= i < d.len() && (#[trigger] d[i]).0 == key && d[i].1 <= bound
}

/// The map that sends each key of `d` to its value (the last one, were a
/// key listed twice).
pub open spec fn entries_map(d: Seq<(Seq<u8>, u64)>) -> Map<Seq<u8>, u64>
    decreases d.len(),
{
    if d.len() == 0 {
        Map::empty()
    } else {
        entries_map(d.drop_last()).insert(d.last().0, d.last().1)
    }
}

/// No byte string comes before itself.
pub proof fn lemma_bytes_lt_irreflexive(a: Seq<u8>)
    ensures
        !bytes_lt(a, a),
    decreases a.len(),
{
    if a.len() > 0 {
        lemma_bytes_lt_irreflexive(a.drop_first());
    }
}

/// `<[T]>::sort` on (token bytes, id) pairs. The standard library
/// documents a stable sort in ascending order; tuples and vectors compare
/// lexicographically, so the result is a permutation of the input ordered by
/// bytes, then id.
#[verifier::external_body]
fn sort_entries(v: &mut Vec<(Vec<u8>, u64)>)
    ensures
        entry_views(final(v)@).to_multiset() == entry_views(old(v)@).to_multiset(),
        sorted_entries(final(v)@),
{
    v.sort();
}

fn bytes_eq(a: &Vec<u8>, b: &Vec<u8>) -> (res: bool)
    ensures
        res == (a@ == b@),
{
    if a.len() != b.len() {
        return false;
    }
    let mut i: usize = 0;
    while i < a.len()
        invariant
            a@.len() == b@.len(),
            i <= a@.len(),
            forall|j: int| 0 <= j < i ==> a@[j] == b@[j],
        decreases a@.len() - i,
    {
        if a[i] != b[i] {
            return false;
        }
        i = i + 1;
    }
    proof {
        assert(a@ =~= b@);
    }
    true
}

/// The tokens of a vocabulary, as UTF-8 bytes, by id.
pub open spec fn token_bytes(vocab: Seq<(String, u64)>) -> Seq<Seq<u8>> {
    vocab.map_values(|e: (String, u64)| encode_utf8(e.0@))
}

proof fn lemma_dedup_covers_vocab(
    tokens: Seq<Seq<u8>>,
    input: Seq<(Seq<u8>, u64)>,
    ev: Seq<(Seq<u8>, u64)>,
    d: Seq<(Seq<u8>, u64)>,
)
    requires
        input.len() == tokens.len(),
        tokens.len() <= usize::MAX,
        forall|j: int| 0 <= j < input.len() ==> #[trigger] input[j] == (tokens[j], j as u64),
        ev.to_multiset() == input.to_multiset(),
        strictly_increasing(d),
        forall|j: int| 0 <= j < d.len() ==> ev.contains(#[trigger] d[j]),
        forall|x: int| 0 <= x < ev.len() ==> #[trigger] has_entry_within(d, ev[x].0, ev[x].1 as int),
    ensures
        entries_of_vocab(tokens, d),
{
    assert forall|i: int| 0 <= i < d.len() implies (#[trigger] d[i]).1 < tokens.len() && tokens[d[i].1 as int]
        == d[i].0 by {
        broadcast use vstd::seq_lib::group_to_multiset_ensures;
        assert(ev.to_multiset().count(d[i]) > 0);
        assert(input.contains(d[i]));
        let j = choose|j: int| 0 <= j < input.len() && input[j] == d[i];
        assert((j as u64) as int == j);
    }
    assert forall|k: int| 0 <= k < tokens.len() implies #[trigger] has_entry_within(d, tokens[k], k) by {
        broadcast use vstd::seq_lib::group_to_multiset_ensures;
        assert(input[k] == (tokens[k], k as u64));
        assert(input.contains(input[k]));
        assert(input.to_multiset().count(input[k]) > 0);
        assert(ev.contains(input[k]));
        let x = choose|x: int| 0 <= x < ev.len() && ev[x] == input[k];
        assert(ev[x] == input[k]);
        assert((k as u64) as int == k);
        assert(has_entry_within(d, ev[x].0, ev[x].1 as int));
    }
}

/// `(tokens[j], j)` for each position `j`.
fn indexed_entries(vocab: &Vec<(String, u64)>) -> (res: Vec<(Vec<u8>, u64)>)
    ensures
        res@.len() == vocab@.len(),
        forall|j: int| 0 <= j < res@.len() ==> #[trigger] entry_view(res@[j]) == (token_bytes(vocab@)[j], j as u64),
{
    let mut entries: Vec<(Vec<u8>, u64)> = Vec::new();
    let mut k: usize = 0;
    while k < vocab.len()
        invariant
            k <= vocab@.len(),
            entries@.len() == k,
            forall|j: int| 0 <= j < k ==> #[trigger] entry_view(entries@[j]) == (token_bytes(vocab@)[j], j as u64),
        decreases vocab@.len() - k,
    {
        let bytes = slice_to_vec(vocab[k].0.as_str().as_bytes());
        entries.push((bytes, k as u64));
        k = k + 1;
    }
    entries
}

/// Sorted entries, ordered by bytes then id.
pub open spec fn sorted_entries(e: Seq<(Vec<u8>, u64)>) -> bool {
    forall|i: int, j: int|
        0 <= i < j < e.len() ==> entry_le(#[trigger] entry_view(e[i]), #[trigger] entry_view(e[j]))
}

/// Keeps the first entry of each run of equal keys.
fn dedup_sorted(entries: &Vec<(Vec<u8>, u64)>) -> (out: Vec<(Vec<u8>, u64)>)
    requires
        sorted_entries(entries@),
    ensures
        strictly_increasing(entry_views(out@)),
        forall|j: int| 0 <= j < out@.len() ==> entry_views(entries@).contains(#[trigger] entry_view(out@[j])),
        forall|x: int|
            0 <= x < entries@.len() ==> #[trigger] has_entry_within(
                entry_views(out@),
                entry_views(entries@)[x].0,
                entry_views(entries@)[x].1 as int,
            ),
{
    let ghost ev = entry_views(entries@);
    let n = entries.len();
    let mut out: Vec<(Vec<u8>, u64)> = Vec::new();
    let ghost mut last_i: int = 0;
    let mut idx: usize = 0;
    while idx < n
        invariant
            n == entries@.len(),
            ev == entry_views(entries@),
            sorted_entries(entries@),
            idx <= n,
            idx == 0 ==> out@.len() == 0,
            idx > 0 ==> {
                &&& 0 <= last_i < idx
                &&& out@.len() > 0
                &&& entry_view(out@.last()) == ev[last_i]
                &&& forall|x: int| last_i <= x < idx ==> (#[trigger] ev[x]).0 == ev[last_i].0
            },
            strictly_increasing(entry_views(out@)),
            forall|j: int| 0 <= j < out@.len() ==> ev.contains(#[trigger] entry_view(out@[j])),
            forall|x: int|
                0 <= x < idx ==> #[trigger] has_entry_within(entry_views(out@), ev[x].0, ev[x].1 as int),
        decreases n - idx,
    {
        let keep = idx == 0 || !bytes_eq(&entries[idx].0, &entries[idx - 1].0);
        let ghost old_out = out@;
        assert(ev[idx as int] == entry_view(entries@[idx as int]));
        if keep {
            let bytes = slice_to_vec(entries[idx].0.as_slice());
            out.push((bytes, entries[idx].1));
            proof {
                assert(entry_view(out@[out@.len() - 1]) == ev[idx as int]);
                assert forall|j: int| 0 <= j < old_out.len() implies #[trigger] out@[j] == old_out[j] by {}
                if idx > 0 {
                    let prev = entry_view(entries@[idx - 1]);
                    assert(ev[idx - 1] == prev);
                    assert(entry_le(prev, entry_view(entries@[idx as int])));
                    assert(entry_views(out@)[out@.len() - 2] == entry_view(old_out.last()));
                }
                assert(strictly_increasing(entry_views(out@))) by {
                    assert forall|i: int| 0 < i < entry_views(out@).len() implies bytes_lt(
                        #[trigger] entry_views(out@)[i - 1].0,
                        entry_views(out@)[i].0,
                    ) by {
                        if i < out@.len() - 1 {
                            assert(entry_views(out@)[i - 1] == entry_views(old_out)[i - 1]);
                            assert(entry_views(out@)[i] == entry_views(old_out)[i]);
                        }
                    }
                }
                assert forall|x: int| 0 <= x < idx + 1 implies #[trigger] has_entry_within(
                    entry_views(out@),
                    ev[x].0,
                    ev[x].1 as int,
                ) by {
                    if x < idx {
                        assert(has_entry_within(entry_views(old_out), ev[x].0, ev[x].1 as int));
                        let j = choose|j: int|
                            0 <= j < entry_views(old_out).len() && (#[trigger] entry_views(old_out)[j]).0 == ev[x].0
                                && entry_views(old_out)[j].1 <= ev[x].1;
                        assert(entry_views(out@)[j] == entry_views(old_out)[j]);
                    } else {
                        assert(entry_views(out@)[out@.len() - 1] == ev[x]);
                    }
                }
                last_i = idx as int;
            }
        } else {
            proof {
                assert(ev[idx - 1] == entry_view(entries@[idx - 1]));
                assert(ev[idx as int].0 == ev[idx - 1].0);
                assert(ev[idx as int].0 == ev[last_i].0);
                if last_i < idx {
                    assert(entry_le(entry_view(entries@[last_i]), entry_view(entries@[idx as int])));
                    lemma_bytes_lt_irreflexive(ev[last_i].0);
                }
                assert forall|x: int| 0 <= x < idx + 1 implies #[trigger] has_entry_within(
                    entry_views(out@),
                    ev[x].0,
                    ev[x].1 as int,
                ) by {
                    if x == idx {
                        assert(entry_views(out@)[out@.len() - 1] == ev[last_i]);
                    }
                }
            }
        }
        idx = idx + 1;
    }
    out
}

/// The entries to store in the FST for `vocab` (tokens with their score
/// bits, listed by id): one per distinct token, in increasing byte order,
/// each with the smallest id the token has.
pub fn vocab_entries(vocab: &Vec<(String, u64)>) -> (res: Vec<(Vec<u8>, u64)>)
    ensures
        entries_of_vocab(token_bytes(vocab@), entry_views(res@)),
{
    let ghost tokens = token_bytes(vocab@);
    let mut entries = indexed_entries(vocab);
    let n = entries.len();
    let ghost input = entry_views(entries@);
    proof {
        assert(n == entries@.len());
        assert forall|j: int| 0 <= j < input.len() implies #[trigger] input[j] == (tokens[j], j as u64) by {
            assert(input[j] == entry_view(entries@[j]));
        }
    }
    sort_entries(&mut entries);
    let out = dedup_sorted(&entries);
    proof {
        let d = entry_views(out@);
        assert forall|j: int| 0 <= j < d.len() implies entry_views(entries@).contains(#[trigger] d[j]) by {
            assert(d[j] == entry_view(out@[j]));
        }
        lemma_dedup_covers_vocab(tokens, input, entry_views(entries@), d);
    }
    out
}


#[verifier::external_type_specification]
#[verifier::external_body]
#[verifier::reject_recursive_types(W)]
pub struct ExMapBuilder<W>(fst::MapBuilder<W>);

/// The entries inserted into a map builder so far, in order.
pub uninterp spec fn builder_entries(b: fst::MapBuilder<Vec<u8>>) -> Seq<(Seq<u8>, u64)>;

/// The bytes of the FST map built by inserting `entries` in order.
pub uninterp spec fn fst_bytes_of(entries: Seq<(Seq<u8>, u64)>) -> Seq<u8>;

/// What `fst::Map::new` finds in `bytes`: the entries of the map, or `None`
/// when it refuses them.
pub uninterp spec fn fst_decode(bytes: Seq<u8>) -> Option<Map<Seq<u8>, u64>>;

/// `fst::MapBuilder::memory`: a builder with nothing inserted.
#[verifier::external_body]
fn builder_memory() -> (res: fst::MapBuilder<Vec<u8>>)
    ensures
        builder_entries(res) == Seq::<(Seq<u8>, u64)>::empty(),
{
    fst::MapBuilder::memory()
}

/// `fst::MapBuilder::insert`. Its source refuses only a key that is not
/// greater than the previous one; writing into memory cannot fail.
#[verifier::external_body]
fn builder_insert(b: &mut fst::MapBuilder<Vec<u8>>, key: &[u8], value: u64) -> (res: Result<(), String>)
    requires
        builder_entries(*old(b)).len() > 0 ==> bytes_lt(builder_entries(*old(b)).last().0, key@),
    ensures
        res is Ok,
        builder_entries(*final(b)) == builder_entries(*old(b)).push((key@, value)),
{
    match b.insert(key, value) {
        Ok(()) => Ok(()),
        Err(e) => Err(e.to_string()),
    }
}

/// `fst::MapBuilder::into_inner` on a builder in memory: the bytes of the
/// map, which `fst::Map::new` reads back as the inserted entries (the
/// documentation says the bytes may be read by `Map`'s constructors).
#[verifier::external_body]
fn builder_into_inner(b: fst::MapBuilder<Vec<u8>>) -> (res: Result<Vec<u8>, String>)
    ensures
        res is Ok,
        res matches Ok(bytes) ==> bytes@ == fst_bytes_of(builder_entries(b)),
        res matches Ok(bytes) ==> (strictly_increasing(builder_entries(b)) ==> fst_decode(bytes@) == Some(
            entries_map(builder_entries(b)),
        )),
{
    match b.into_inner() {
        Ok(v) => Ok(v),
        Err(e) => Err(e.to_string()),
    }
}

/// The bytes of the FST map of `entries`, which must be strictly increasing.
pub fn fst_of_entries(entries: &Vec<(Vec<u8>, u64)>) -> (res: Vec<u8>)
    requires
        strictly_increasing(entry_views(entries@)),
    ensures
        res@ == fst_bytes_of(entry_views(entries@)),
        fst_decode(res@) == Some(entries_map(entry_views(entries@))),
{
    let ghost ev = entry_views(entries@);
    let mut b = builder_memory();
    let mut i: usize = 0;
    while i < entries.len()
        invariant
            i <= entries@.len(),
            ev == entry_views(entries@),
            strictly_increasing(ev),
            builder_entries(b) == ev.take(i as int),
        decreases entries@.len() - i,
    {
        proof {
            if i > 0 {
                assert(ev.take(i as int).last() == ev[i - 1]);
                assert(ev[i as int] == entry_view(entries@[i as int]));
            }
        }
        let _ = builder_insert(&mut b, entries[i].0.as_slice(), entries[i].1);
        proof {
            assert(ev.take(i + 1) == ev.take(i as int).push(ev[i as int]));
        }
        i = i + 1;
    }
    proof {
        assert(ev.take(entries@.len() as int) == ev);
    }
    match builder_into_inner(b) {
        Ok(bytes) => bytes,
        Err(_) => Vec::new(),
    }
}

}
