//! The binary layout of the tokenizer cache.
//!
//! `MAGIC` (8 bytes), then three length-prefixed sections, each length a
//! little-endian `u64`: the FST bytes, the scores (as the little-endian bit
//! patterns of `f64` values, 8 bytes each; the count is the prefix), and the
//! SentencePiece charsmap bytes. Bytes after the last section are ignored.

use vstd::prelude::*;
use vstd::bytes::*;
use vstd::slice::*;

verus! {

/// The file signature: `MIKKETK2`.
pub const MAGIC: [u8; 8] = [0x4d, 0x49, 0x4b, 0x4b, 0x45, 0x54, 0x4b, 0x32];

pub open spec fn spec_magic() -> Seq<u8> {
    seq![0x4du8, 0x49u8, 0x4bu8, 0x4bu8, 0x45u8, 0x54u8, 0x4bu8, 0x32u8]
}

/// What the cache holds.
pub struct CacheParts {
    pub fst: Vec<u8>,
    /// Bit patterns of the token scores, by token id.
    pub scores: Vec<u64>,
    pub charsmap: Vec<u8>,
}

/// Why a cache cannot be read.
#[derive(Debug, Clone, Copy, PartialEq, Eq)]
pub enum CacheFault {
    /// Wrong signature, or a section longer than what is left.
    Corrupt,
    /// A length prefix cut short.
    Truncated,
}

/// Little-endian bytes of each score, in order.
pub open spec fn spec_scores_bytes(scores: Seq<u64>) -> Seq<u8>
    decreases scores.len(),
{
    if scores.len() == 0 {
        Seq::empty()
    } else {
        spec_scores_bytes(scores.drop_last()) + spec_u64_to_le_bytes(scores.last())
    }
}

/// The bytes of a cache holding `fst`, `scores` and `charsmap`.
pub open spec fn spec_encode(fst: Seq<u8>, scores: Seq<u64>, charsmap: Seq<u8>) -> Seq<u8> {
    spec_magic() + spec_u64_to_le_bytes(fst.len() as u64) + fst + spec_u64_to_le_bytes(
        scores.len() as u64,
    ) + spec_scores_bytes(scores) + spec_u64_to_le_bytes(charsmap.len() as u64) + charsmap
}

/// The little-endian `u64` at `pos`, if 8 bytes are there.
pub open spec fn spec_read_u64(b: Seq<u8>, pos: int) -> Option<u64> {
    if 0 <= pos && pos + 8 <= b.len() {
        Some(spec_u64_from_le_bytes(b.subrange(pos, pos + 8)))
    } else {
        None
    }
}

/// The FST section: the signature must be there and the section must fit.
pub open spec fn spec_fst_section(b: Seq<u8>) -> Result<Seq<u8>, CacheFault> {
    if b.len() < 16 || b.take(8) != spec_magic() {
        Err(CacheFault::Corrupt)
    } else {
        let len = spec_u64_from_le_bytes(b.subrange(8, 16)) as int;
        if 16 + len > b.len() {
            Err(CacheFault::Corrupt)
        } else {
            Ok(b.subrange(16, 16 + len))
        }
    }
}

/// The `count` scores stored from `pos` on.
pub open spec fn spec_scores_at(b: Seq<u8>, pos: int, count: int) -> Seq<u64> {
    Seq::new(count as nat, |k: int| spec_u64_from_le_bytes(b.subrange(pos + 8 * k, pos + 8 * k + 8)))
}

/// The scores and charsmap sections, which start at `pos`.
pub open spec fn spec_tail_sections(b: Seq<u8>, pos: int) -> Result<(Seq<u64>, Seq<u8>), CacheFault> {
    match spec_read_u64(b, pos) {
        None => Err(CacheFault::Truncated),
        Some(n) => {
            let p = pos + 8;
            if p + 8 * n > b.len() {
                Err(CacheFault::Corrupt)
            } else {
                let q = p + 8 * n;
                match spec_read_u64(b, q) {
                    None => Err(CacheFault::Truncated),
                    Some(c) => {
                        let r = q + 8;
                        if r + c > b.len() {
                            Err(CacheFault::Corrupt)
                        } else {
                            Ok((spec_scores_at(b, p, n as int), b.subrange(r, r + c)))
                        }
                    },
                }
            }
        },
    }
}

fn append_bytes(out: &mut Vec<u8>, bytes: &[u8])
    ensures
        final(out)@ == old(out)@ + bytes@,
{
    let mut v = slice_to_vec(bytes);
    out.append(&mut v);
}

fn append_u64(out: &mut Vec<u8>, x: u64)
    ensures
        final(out)@ == old(out)@ + spec_u64_to_le_bytes(x),
{
    let mut v = u64_to_le_bytes(x);
    out.append(&mut v);
}

/// The cache bytes of `parts`.
pub fn encode_cache(parts: &CacheParts) -> (res: Vec<u8>)
    ensures
        res@ == spec_encode(parts.fst@, parts.scores@, parts.charsmap@),
{
    let mut out: Vec<u8> = Vec::new();
    append_bytes(&mut out, &MAGIC);
    proof {
        assert(MAGIC@ == spec_magic());
    }
    append_u64(&mut out, parts.fst.len() as u64);
    append_bytes(&mut out, parts.fst.as_slice());
    append_u64(&mut out, parts.scores.len() as u64);
    let ghost before = out@;
    let mut i: usize = 0;
    while i < parts.scores.len()
        invariant
            i <= parts.scores@.len(),
            out@ == before + spec_scores_bytes(parts.scores@.take(i as int)),
        decreases parts.scores@.len() - i,
    {
        append_u64(&mut out, parts.scores[i]);
        proof {
            assert(parts.scores@.take(i + 1).drop_last() == parts.scores@.take(i as int));
        }
        i = i + 1;
    }
    proof {
        assert(parts.scores@.take(parts.scores@.len() as int) == parts.scores@);
    }
    append_u64(&mut out, parts.charsmap.len() as u64);
    append_bytes(&mut out, parts.charsmap.as_slice());
    out
}

fn read_u64(b: &[u8], pos: usize) -> (res: Option<u64>)
    ensures
        res == spec_read_u64(b@, pos as int),
{
    if pos <= b.len() && 8 <= b.len() - pos {
        Some(u64_from_le_bytes(slice_subrange(b, pos, pos + 8)))
    } else {
        None
    }
}

/// The FST section of a cache, and where the next section starts.
pub fn decode_fst_section(b: &[u8]) -> (res: Result<(Vec<u8>, usize), CacheFault>)
    ensures
        match spec_fst_section(b@) {
            Ok(f) => res matches Ok((v, next)) && v@ == f && next == 16 + f.len(),
            Err(e) => res == Err::<(Vec<u8>, usize), CacheFault>(e),
        },
{
    if b.len() < 16 {
        return Err(CacheFault::Corrupt);
    }
    let mut k: usize = 0;
    while k < 8
        invariant
            b@.len() >= 16,
            k <= 8,
            forall|j: int| 0 <= j < k ==> b@[j] == #[trigger] spec_magic()[j],
        decreases 8 - k,
    {
        if b[k] != MAGIC[k] {
            proof {
                assert(b@.take(8)[k as int] != spec_magic()[k as int]);
            }
            return Err(CacheFault::Corrupt);
        }
        k = k + 1;
    }
    proof {
        assert(b@.take(8) =~= spec_magic());
    }
    let len = u64_from_le_bytes(slice_subrange(b, 8, 16));
    if len > (b.len() - 16) as u64 {
        return Err(CacheFault::Corrupt);
    }
    let end = 16 + len as usize;
    Ok((slice_to_vec(slice_subrange(b, 16, end)), end))
}

/// The scores and the charsmap of a cache, from `pos` on.
pub fn decode_tail_sections(b: &[u8], pos: usize) -> (res: Result<(Vec<u64>, Vec<u8>), CacheFault>)
    ensures
        match spec_tail_sections(b@, pos as int) {
            Ok((s, c)) => res matches Ok((vs, vc)) && vs@ == s && vc@ == c,
            Err(e) => res matches Err(f) && f == e,
        },
{
    let n = match read_u64(b, pos) {
        None => return Err(CacheFault::Truncated),
        Some(n) => n,
    };
    proof {
        assert(pos + 8 <= b@.len());
        assert(b@.len() == b.len());
    }
    let p = pos + 8;
    if n > ((b.len() - p) / 8) as u64 {
        proof {
            assert(p + 8 * n > b@.len()) by (nonlinear_arith)
                requires
                    n > (b@.len() - p) / 8,
                    p <= b@.len(),
            ;
        }
        return Err(CacheFault::Corrupt);
    }
    let count = n as usize;
    proof {
        assert(p + 8 * count <= b@.len()) by (nonlinear_arith)
            requires
                count <= (b@.len() - p) / 8,
                p <= b@.len(),
        ;
    }
    let mut scores: Vec<u64> = Vec::new();
    let mut k: usize = 0;
    while k < count
        invariant
            p + 8 * count <= b@.len(),
            b@.len() == b.len(),
            k <= count,
            scores@ == spec_scores_at(b@, p as int, count as int).take(k as int),
        decreases count - k,
    {
        proof {
            assert(p + 8 * k + 8 <= b@.len()) by (nonlinear_arith)
                requires
                    k < count,
                    p + 8 * count <= b@.len(),
            ;
        }
        let start = p + 8 * k;
        scores.push(u64_from_le_bytes(slice_subrange(b, start, start + 8)));
        proof {
            assert(spec_scores_at(b@, p as int, count as int).take(k + 1) =~= spec_scores_at(
                b@,
                p as int,
                count as int,
            ).take(k as int).push(spec_u64_from_le_bytes(b@.subrange(start as int, start + 8))));
        }
        k = k + 1;
    }
    proof {
        assert(spec_scores_at(b@, p as int, count as int).take(count as int) =~= spec_scores_at(
            b@,
            p as int,
            count as int,
        ));
    }
    let q = p + 8 * count;
    let c = match read_u64(b, q) {
        None => return Err(CacheFault::Truncated),
        Some(c) => c,
    };
    let r = q + 8;
    if c > (b.len() - r) as u64 {
        return Err(CacheFault::Corrupt);
    }
    let end = r + c as usize;
    Ok((scores, slice_to_vec(slice_subrange(b, r, end))))
}

proof fn lemma_scores_bytes_len(scores: Seq<u64>)
    ensures
        spec_scores_bytes(scores).len() == 8 * scores.len(),
    decreases scores.len(),
{
    if scores.len() > 0 {
        lemma_scores_bytes_len(scores.drop_last());
        lemma_auto_spec_u64_to_from_le_bytes();
    }
}

proof fn lemma_scores_bytes_at(scores: Seq<u64>, k: int)
    requires
        0 <= k < scores.len(),
    ensures
        spec_scores_bytes(scores).subrange(8 * k, 8 * k + 8) == spec_u64_to_le_bytes(scores[k]),
    decreases scores.len(),
{
    lemma_auto_spec_u64_to_from_le_bytes();
    let init = scores.drop_last();
    lemma_scores_bytes_len(init);
    if k < scores.len() - 1 {
        lemma_scores_bytes_at(init, k);
        assert(spec_scores_bytes(scores) == spec_scores_bytes(init) + spec_u64_to_le_bytes(scores.last()));
        assert(spec_scores_bytes(scores).subrange(8 * k, 8 * k + 8) =~= spec_scores_bytes(init).subrange(8 * k, 8 * k + 8));
    } else {
        assert(spec_scores_bytes(scores).subrange(8 * k, 8 * k + 8) =~= spec_u64_to_le_bytes(scores.last()));
    }
}

/// A cache written by `encode_cache` reads back as the same three sections.
pub proof fn lemma_cache_roundtrip(fst: Seq<u8>, scores: Seq<u64>, charsmap: Seq<u8>)
    requires
        fst.len() <= u64::MAX,
        scores.len() <= u64::MAX,
        charsmap.len() <= u64::MAX,
    ensures
        spec_fst_section(spec_encode(fst, scores, charsmap)) == Ok::<Seq<u8>, CacheFault>(fst),
        spec_tail_sections(spec_encode(fst, scores, charsmap), 16 + fst.len() as int) == Ok::<
            (Seq<u64>, Seq<u8>),
            CacheFault,
        >((scores, charsmap)),
{
    lemma_auto_spec_u64_to_from_le_bytes();
    lemma_scores_bytes_len(scores);
    let b = spec_encode(fst, scores, charsmap);
    let lf = spec_u64_to_le_bytes(fst.len() as u64);
    let ls = spec_u64_to_le_bytes(scores.len() as u64);
    let sb = spec_scores_bytes(scores);
    let lc = spec_u64_to_le_bytes(charsmap.len() as u64);
    let n = scores.len() as int;
    let f = fst.len() as int;
    let c = charsmap.len() as int;
    assert(b.len() == 16 + f + 8 + 8 * n + 8 + c);
    assert(b.take(8) =~= spec_magic());
    assert(b.subrange(8, 16) =~= lf);
    assert(b.subrange(16, 16 + f) =~= fst);
    let p = 16 + f + 8;
    assert(b.subrange(16 + f, p) =~= ls);
    let q = p + 8 * n;
    assert(b.subrange(q, q + 8) =~= lc);
    assert(b.subrange(q + 8, q + 8 + c) =~= charsmap);
    assert forall|k: int| 0 <= k < n implies #[trigger] spec_scores_at(b, p, n)[k] == scores[k] by {
        lemma_scores_bytes_at(scores, k);
        assert(b.subrange(p + 8 * k, p + 8 * k + 8) =~= sb.subrange(8 * k, 8 * k + 8));
    }
    assert(spec_scores_at(b, p, n) =~= scores);
}

}
