//! The values kept in the indexing state database: what is known of each
//! indexed file, and the blob layout of a stored embedding.
//!
//! The database itself (SQLite) is the caller's; this module holds what its
//! rows turn into and back.

use vstd::prelude::*;
use vstd::bytes::*;
use vstd::slice::*;

verus! {

/// File name of the state database inside the index directory.
pub const DB_FILE: &'static str = "state.db";

/// What is remembered of an indexed file.
#[derive(Debug, Clone, Copy, PartialEq, Eq)]
pub struct FileRecord {
    pub mtime_ns: i64,
    pub size: i64,
    /// BLAKE3 hash of the contents.
    pub hash: [u8; 32],
}

/// The stored hash of a file: the blob when it is 32 bytes long, all zeros
/// otherwise.
pub open spec fn spec_hash_from_blob(blob: Seq<u8>) -> Seq<u8> {
    if blob.len() == 32 {
        blob
    } else {
        Seq::new(32, |i: int| 0u8)
    }
}

/// The hash read back from a database blob (see [`spec_hash_from_blob`]).
pub fn hash_from_blob(blob: &Vec<u8>) -> (res: [u8; 32])
    ensures
        res@ == spec_hash_from_blob(blob@),
{
    let mut h: [u8; 32] = [0u8; 32];
    proof {
        assert(h@ =~= Seq::new(32, |i: int| 0u8));
    }
    if blob.len() != 32 {
        return h;
    }
    let mut i: usize = 0;
    while i < 32
        invariant
            blob@.len() == 32,
            i <= 32,
            h@.len() == 32,
            forall|j: int| 0 <= j < i ==> h@[j] == blob@[j],
        decreases 32 - i,
    {
        h[i] = blob[i];
        i = i + 1;
    }
    proof {
        assert(h@ =~= blob@);
    }
    h
}

/// The little-endian bytes of each component, in order.
pub open spec fn spec_vector_blob(bits: Seq<u32>) -> Seq<u8>
    decreases bits.len(),
{
    if bits.len() == 0 {
        Seq::empty()
    } else {
        spec_vector_blob(bits.drop_last()) + spec_u32_to_le_bytes(bits.last())
    }
}

/// The components read from a blob, 4 little-endian bytes each; a last
/// group shorter than 4 bytes is ignored.
pub open spec fn spec_blob_vector(blob: Seq<u8>) -> Seq<u32> {
    Seq::new(blob.len() / 4, |k: int| spec_u32_from_le_bytes(blob.subrange(4 * k, 4 * k + 4)))
}

/// The blob of an embedding, given the bit patterns of its `f32`
/// components.
pub fn vector_blob(bits: &Vec<u32>) -> (res: Vec<u8>)
    ensures
        res@ == spec_vector_blob(bits@),
{
    let mut out: Vec<u8> = Vec::new();
    let mut i: usize = 0;
    while i < bits.len()
        invariant
            i <= bits@.len(),
            out@ == spec_vector_blob(bits@.take(i as int)),
        decreases bits@.len() - i,
    {
        let mut b = u32_to_le_bytes(bits[i]);
        out.append(&mut b);
        proof {
            assert(bits@.take(i + 1).drop_last() == bits@.take(i as int));
        }
        i = i + 1;
    }
    proof {
        assert(bits@.take(bits@.len() as int) == bits@);
    }
    out
}

/// The bit patterns of the components stored in `blob` (see
/// [`spec_blob_vector`]).
pub fn blob_vector(blob: &[u8]) -> (res: Vec<u32>)
    ensures
        res@ == spec_blob_vector(blob@),
{
    let len = blob.len();
    let n = len / 4;
    let mut out: Vec<u32> = Vec::new();
    let mut k: usize = 0;
    while k < n
        invariant
            len == blob@.len(),
            n == blob@.len() / 4,
            k <= n,
            out@ == spec_blob_vector(blob@).take(k as int),
        decreases n - k,
    {
        proof {
            assert(4 * k + 4 <= blob@.len()) by (nonlinear_arith)
                requires
                    k < n,
                    n == blob@.len() / 4,
            ;
        }
        let start = 4 * k;
        out.push(u32_from_le_bytes(slice_subrange(blob, start, start + 4)));
        proof {
            assert(spec_blob_vector(blob@).take(k + 1) =~= spec_blob_vector(blob@).take(k as int).push(
                spec_u32_from_le_bytes(blob@.subrange(start as int, start + 4)),
            ));
        }
        k = k + 1;
    }
    proof {
        assert(spec_blob_vector(blob@).take(n as int) =~= spec_blob_vector(blob@));
    }
    out
}

proof fn lemma_vector_blob_len(bits: Seq<u32>)
    ensures
        spec_vector_blob(bits).len() == 4 * bits.len(),
    decreases bits.len(),
{
    lemma_auto_spec_u32_to_from_le_bytes();
    if bits.len() > 0 {
        lemma_vector_blob_len(bits.drop_last());
    }
}

proof fn lemma_vector_blob_at(bits: Seq<u32>, k: int)
    requires
        0 <= k < bits.len(),
    ensures
        spec_vector_blob(bits).subrange(4 * k, 4 * k + 4) == spec_u32_to_le_bytes(bits[k]),
    decreases bits.len(),
{
    lemma_auto_spec_u32_to_from_le_bytes();
    let init = bits.drop_last();
    lemma_vector_blob_len(init);
    if k < bits.len() - 1 {
        lemma_vector_blob_at(init, k);
        assert(spec_vector_blob(bits).subrange(4 * k, 4 * k + 4) =~= spec_vector_blob(init).subrange(
            4 * k,
            4 * k + 4,
        ));
    } else {
        assert(spec_vector_blob(bits).subrange(4 * k, 4 * k + 4) =~= spec_u32_to_le_bytes(bits.last()));
    }
}

/// An embedding stored as a blob reads back unchanged.
pub proof fn law_vector_blob_roundtrip(bits: Seq<u32>)
    ensures
        spec_blob_vector(spec_vector_blob(bits)) == bits,
{
    lemma_auto_spec_u32_to_from_le_bytes();
    lemma_vector_blob_len(bits);
    let b = spec_vector_blob(bits);
    assert(b.len() / 4 == bits.len());
    assert forall|k: int| 0 <= k < bits.len() implies #[trigger] spec_blob_vector(b)[k] == bits[k] by {
        lemma_vector_blob_at(bits, k);
        assert(spec_u32_to_le_bytes(bits[k]).len() == 4);
        assert(spec_blob_vector(b)[k] == spec_u32_from_le_bytes(b.subrange(4 * k, 4 * k + 4)));
    }
    assert(spec_blob_vector(b) =~= bits);
}

}
