//! What the model2vec embedder decides: where the embedding matrix lies in
//! the model file, which rows a text averages, and whether the result is
//! normalized.
//!
//! The model file is mapped and the float arithmetic done by the caller;
//! the rows are read here as the bit patterns of their `f32` values.

use vstd::prelude::*;
use vstd::slice::*;
use vstd::string::*;

use crate::json::JsonValue;
use crate::state::{blob_vector, spec_blob_vector};
use crate::tok::{member, TokError};

verus! {

/// Tokens averaged at most (model2vec's default).
pub const MAX_TOKENS: usize = 512;

/// Why a model cannot be used.
#[derive(Debug)]
pub enum EmbedError {
    Io(std::io::Error),
    Tokenizer(TokError),
    Format(String),
}

/// A tensor as a safetensors header describes it: the name of its element
/// type, its shape, and the range of its bytes after the header.
pub type TensorInfoView = (Seq<char>, Seq<usize>, usize, usize);

pub open spec fn f32_name() -> Seq<char> {
    seq!['F', '3', '2']
}

/// A tensor as read from a safetensors header, with its element type by
/// name (`F32`, `F16`, ...).
pub struct TensorInfo {
    pub dtype: String,
    pub shape: Vec<usize>,
    /// Its bytes run from `start` to `end`, counted after the header.
    pub start: usize,
    pub end: usize,
}

pub open spec fn info_view(i: TensorInfo) -> TensorInfoView {
    (i.dtype@, i.shape@, i.start, i.end)
}

/// Where the embedding matrix lies in the model file.
#[derive(Debug, Clone, Copy, PartialEq, Eq)]
pub struct EmbeddingLayout {
    /// Offset of its first byte.
    pub data_start: usize,
    pub rows: usize,
    pub dim: usize,
}

pub open spec fn not_found_message() -> Seq<char> {
    "tensor `embeddings` not found"@
}

pub open spec fn dtype_message(dtype: Seq<char>) -> Seq<char> {
    "unsupported dtype "@ + dtype + " (expected F32)"@
}

pub open spec fn not_2d_message() -> Seq<char> {
    "embeddings tensor is not 2-D"@
}

pub open spec fn bounds_message() -> Seq<char> {
    "invalid shape, data type, or offset for tensor"@
}

/// The `rows` x `dim` matrix of 4-byte values whose bytes run from
/// `start` to `end` after a header of `header_len` bytes (itself after the
/// 8 bytes of its length) lies whole within a file of `file_len` bytes.
pub open spec fn matrix_fits(file_len: int, header_len: int, start: int, end: int, rows: int, dim: int) -> bool {
    &&& start <= end
    &&& 8 + header_len + end <= file_len
    &&& 4 * rows * dim <= end - start
}

/// The layout of the `embeddings` tensor of a model file of `file_len`
/// bytes whose header is `header_len` bytes long, given that tensor's
/// description (`None` when the header has no such tensor); or the message
/// of why it cannot be used.
pub open spec fn spec_layout(file_len: int, header_len: int, info: Option<TensorInfoView>) -> Result<EmbeddingLayout, Seq<char>> {
    match info {
        None => Err(not_found_message()),
        Some(t) => if t.0 != f32_name() {
            Err(dtype_message(t.0))
        } else if t.1.len() != 2 {
            Err(not_2d_message())
        } else if !matrix_fits(file_len, header_len, t.2 as int, t.3 as int, t.1[0] as int, t.1[1] as int) {
            Err(bounds_message())
        } else {
            Ok(EmbeddingLayout { data_start: (8 + header_len + t.2) as usize, rows: t.1[0], dim: t.1[1] })
        },
    }
}

fn is_f32_name(s: &String) -> (res: bool)
    ensures
        res == (s@ == f32_name()),
{
    let c = crate::text::collect_chars(s.as_str());
    let ok = c.len() == 3 && c[0] == 'F' && c[1] == '3' && c[2] == '2';
    proof {
        if ok {
            assert(c@ =~= f32_name());
        }
    }
    ok
}

/// Where the `embeddings` matrix of a model file lies (see
/// [`spec_layout`]): a 2-D tensor of `f32`, whose rows lie whole within the
/// file.
pub fn embeddings_layout(file_len: usize, header_len: usize, info: Option<&TensorInfo>) -> (res: Result<EmbeddingLayout, EmbedError>)
    ensures
        match spec_layout(
            file_len as int,
            header_len as int,
            match info {
                Some(t) => Some(info_view(*t)),
                None => None,
            },
        ) {
            Ok(l) => res == Ok::<EmbeddingLayout, EmbedError>(l) && l.data_start + 4 * l.rows * l.dim <= file_len,
            Err(m) => res matches Err(EmbedError::Format(x)) && x@ == m,
        },
{
    let info = match info {
        Some(t) => t,
        None => {
            return Err(EmbedError::Format("tensor `embeddings` not found".to_owned()));
        },
    };
    if !is_f32_name(&info.dtype) {
        let mut m = "unsupported dtype ".to_owned();
        m.append(info.dtype.as_str());
        m.append(" (expected F32)");
        return Err(EmbedError::Format(m));
    }
    if info.shape.len() != 2 {
        return Err(EmbedError::Format("embeddings tensor is not 2-D".to_owned()));
    }
    let rows = info.shape[0];
    let dim = info.shape[1];
    let ghost fits = matrix_fits(file_len as int, header_len as int, info.start as int, info.end as int, rows as int, dim as int);
    let ok = if header_len > file_len || file_len - header_len < 8 || info.start > info.end {
        false
    } else {
        let avail = file_len - header_len - 8;
        if info.end > avail {
            false
        } else {
            let span = (info.end - info.start) / 4;
            let within = if dim == 0 {
                true
            } else {
                rows <= span / dim
            };
            proof {
                assert((4 * rows * dim <= info.end - info.start) == (rows * dim <= span)) by (nonlinear_arith)
                    requires
                        span == (info.end - info.start) / 4,
                        info.end - info.start >= 0,
                ;
                assert(within == (rows * dim <= span)) by (nonlinear_arith)
                    requires
                        within == (if dim == 0 { true } else { rows <= span / dim }),
                ;
            }
            within
        }
    };
    proof {
        assert(ok == fits);
    }
    if !ok {
        return Err(EmbedError::Format("invalid shape, data type, or offset for tensor".to_owned()));
    }
    proof {
        assert(4 * rows * dim == 4 * (rows * dim)) by (nonlinear_arith);
    }
    Ok(EmbeddingLayout { data_start: 8 + header_len + info.start, rows, dim })
}

/// The bit patterns of the `f32` values of row `ix` of the matrix.
pub fn row_bits(buffer: &[u8], layout: EmbeddingLayout, ix: usize) -> (res: Vec<u32>)
    requires
        ix < layout.rows,
        layout.data_start + 4 * layout.rows * layout.dim <= buffer@.len(),
    ensures
        res@ == spec_blob_vector(
            buffer@.subrange(
                layout.data_start + 4 * ix * layout.dim,
                layout.data_start + 4 * (ix + 1) * layout.dim,
            ),
        ),
{
    let len = buffer.len();
    proof {
        assert(len == buffer@.len());
        assert(4 * (ix + 1) * layout.dim <= 4 * layout.rows * layout.dim) by (nonlinear_arith)
            requires
                ix < layout.rows,
        ;
        assert(4 * layout.dim <= 4 * (ix + 1) * layout.dim) by (nonlinear_arith);
        assert(ix * (4 * layout.dim) == 4 * ix * layout.dim) by (nonlinear_arith);
        assert(ix * (4 * layout.dim) + 4 * layout.dim == 4 * (ix + 1) * layout.dim) by (nonlinear_arith);
    }
    let stride = 4 * layout.dim;
    let start = layout.data_start + ix * stride;
    let end = start + stride;
    blob_vector(slice_subrange(buffer, start, end))
}

/// The rows a text averages: its first [`MAX_TOKENS`] token ids, without
/// the ids that have no row.
pub open spec fn spec_selected_rows(ids: Seq<u32>, rows: int) -> Seq<usize> {
    let first = if ids.len() > MAX_TOKENS {
        ids.take(MAX_TOKENS as int)
    } else {
        ids
    };
    first.filter(|id: u32| id < rows).map_values(|id: u32| id as usize)
}

pub fn selected_rows(ids: &Vec<u32>, rows: usize) -> (res: Vec<usize>)
    ensures
        res@ == spec_selected_rows(ids@, rows as int),
{
    let n = if ids.len() > MAX_TOKENS {
        MAX_TOKENS
    } else {
        ids.len()
    };
    let ghost first = if ids@.len() > MAX_TOKENS {
        ids@.take(MAX_TOKENS as int)
    } else {
        ids@
    };
    proof {
        assert(first.len() == n);
        assert(first =~= ids@.take(n as int));
    }
    let mut out: Vec<usize> = Vec::new();
    let mut i: usize = 0;
    while i < n
        invariant
            n <= ids@.len(),
            first == ids@.take(n as int),
            i <= n,
            out@ == first.take(i as int).filter(|id: u32| id < rows).map_values(|id: u32| id as usize),
        decreases n - i,
    {
        let id = ids[i];
        proof {
            assert(first.take(i + 1) =~= first.take(i as int).push(id));
            reveal(Seq::filter);
            assert(first.take(i + 1).drop_last() =~= first.take(i as int));
        }
        if (id as usize) < rows {
            out.push(id as usize);
            proof {
                let f = first.take(i as int).filter(|id: u32| id < rows);
                assert(first.take(i + 1).filter(|id: u32| id < rows) =~= f.push(id));
                assert(f.push(id).map_values(|id: u32| id as usize) =~= f.map_values(|id: u32| id as usize).push(
                    id as usize,
                ));
            }
        } else {
            proof {
                assert(first.take(i + 1).filter(|id: u32| id < rows) =~= first.take(i as int).filter(
                    |id: u32| id < rows,
                ));
            }
        }
        i = i + 1;
    }
    proof {
        assert(first.take(n as int) =~= first);
    }
    out
}

pub open spec fn normalize_key() -> Seq<char> {
    "normalize"@
}

/// Whether embeddings are L2-normalized: the `normalize` member of the
/// model's `config.json` when it is a boolean, yes otherwise (also when the
/// file is missing or not JSON).
pub open spec fn spec_normalize_flag(config: Option<JsonValue>) -> bool {
    match config {
        Some(JsonValue::Object(o)) => match member(o@, normalize_key()) {
            Some(JsonValue::Bool(b)) => b,
            _ => true,
        },
        _ => true,
    }
}

fn is_normalize_key(k: &String) -> (res: bool)
    ensures
        res == (k@ == normalize_key()),
{
    proof {
        reveal_strlit("normalize");
    }
    let c = crate::text::collect_chars(k.as_str());
    let ok = c.len() == 9 && c[0] == 'n' && c[1] == 'o' && c[2] == 'r' && c[3] == 'm' && c[4] == 'a'
        && c[5] == 'l' && c[6] == 'i' && c[7] == 'z' && c[8] == 'e';
    proof {
        if ok {
            assert(c@ =~= normalize_key());
        }
        if k@ == normalize_key() {
            assert(c@[0] == 'n' && c@[8] == 'e');
        }
    }
    ok
}

fn normalize_member(o: &Vec<(String, JsonValue)>, i: usize) -> (res: bool)
    requires
        i <= o@.len(),
    ensures
        res == match member(o@.skip(i as int), normalize_key()) {
            Some(JsonValue::Bool(b)) => b,
            _ => true,
        },
    decreases o@.len() - i,
{
    if i == o.len() {
        return true;
    }
    proof {
        assert(o@.skip(i as int).drop_first() =~= o@.skip(i + 1));
    }
    if is_normalize_key(&o[i].0) {
        match &o[i].1 {
            JsonValue::Bool(b) => *b,
            _ => true,
        }
    } else {
        normalize_member(o, i + 1)
    }
}

/// Whether embeddings are normalized (see [`spec_normalize_flag`]).
pub fn normalize_flag(config: Option<&JsonValue>) -> (res: bool)
    ensures
        res == spec_normalize_flag(
            match config {
                Some(v) => Some(*v),
                None => None,
            },
        ),
{
    match config {
        Some(JsonValue::Object(o)) => {
            proof {
                assert(o@.skip(0) =~= o@);
            }
            normalize_member(o, 0)
        },
        _ => true,
    }
}

}
