//! Splitting documents into bounded chunks for indexing.

use vstd::prelude::*;
use vstd::string::*;
use vstd::utf8::{encode_scalar, encode_utf8};

use crate::text::{collect_chars, is_whitespace, spec_is_whitespace};

verus! {

/// End of the word that starts at `i`: the first whitespace at or after `i`,
/// or the end of the text.
pub open spec fn word_end(s: Seq<char>, i: int) -> int
    decreases s.len() - i,
{
    if i < 0 || i >= s.len() || spec_is_whitespace(s[i]) {
        i
    } else {
        word_end(s, i + 1)
    }
}

/// The words (maximal runs of non-whitespace characters) found at or after
/// `i`, as half-open character ranges, in text order.
pub open spec fn words_from(s: Seq<char>, i: int) -> Seq<(int, int)>
    decreases s.len() - i, 1int,
{
    if i < 0 || i >= s.len() {
        Seq::empty()
    } else if spec_is_whitespace(s[i]) {
        words_from(s, i + 1)
    } else {
        let e = word_end(s, i);
        proof {
            lemma_word_end_bounds(s, i);
        }
        seq![(i, e)] + words_from(s, e)
    }
}

/// All the words of `s`.
pub open spec fn words(s: Seq<char>) -> Seq<(int, int)> {
    words_from(s, 0)
}

/// The chunks that start at word `i`: a window of `target` words, then the
/// next window `step` words further, until a window reaches the last word.
pub open spec fn windows_from(s: Seq<char>, w: Seq<(int, int)>, i: int, target: int, step: int) -> Seq<Seq<char>>
    recommends
        0 <= i < w.len(),
        target > 0,
        step > 0,
    decreases w.len() - i,
{
    if i < 0 || i >= w.len() || target <= 0 || step <= 0 {
        Seq::empty()
    } else if i + target >= w.len() {
        seq![s.subrange(w[i].0, w[w.len() - 1].1)]
    } else {
        let rest = if i + step < w.len() {
            windows_from(s, w, i + step, target, step)
        } else {
            Seq::empty()
        };
        seq![s.subrange(w[i].0, w[i + target - 1].1)] + rest
    }
}

/// The chunks of `s`: windows of `target` words, consecutive windows sharing
/// `overlap` words, each cut from the text itself (punctuation and line
/// breaks inside a window are kept). No words, no chunks.
pub open spec fn spec_chunks(s: Seq<char>, target: int, overlap: int) -> Seq<Seq<char>> {
    let w = words(s);
    if w.len() == 0 {
        Seq::empty()
    } else {
        windows_from(s, w, 0, target, target - overlap)
    }
}

pub proof fn lemma_word_end_bounds(s: Seq<char>, i: int)
    requires
        0 <= i <= s.len(),
    ensures
        i <= word_end(s, i) <= s.len(),
        i < s.len() && !spec_is_whitespace(s[i]) ==> i < word_end(s, i),
        forall|k: int| i <= k < word_end(s, i) ==> !spec_is_whitespace(#[trigger] s[k]),
        word_end(s, i) < s.len() ==> spec_is_whitespace(s[word_end(s, i)]),
    decreases s.len() - i,
{
    if i < s.len() && !spec_is_whitespace(s[i]) {
        lemma_word_end_bounds(s, i + 1);
    }
}

proof fn lemma_words_from_bounds(s: Seq<char>, i: int)
    requires
        0 <= i <= s.len(),
    ensures
        forall|k: int|
            0 <= k < words_from(s, i).len() ==> i <= (#[trigger] words_from(s, i)[k]).0 < words_from(s, i)[k].1 <= s.len(),
        forall|k: int, l: int|
            0 <= k <= l < words_from(s, i).len() ==> (#[trigger] words_from(s, i)[k]).1 <= (#[trigger] words_from(s, i)[l]).1,
    decreases s.len() - i,
{
    if i < s.len() {
        if spec_is_whitespace(s[i]) {
            lemma_words_from_bounds(s, i + 1);
            assert(words_from(s, i) == words_from(s, i + 1));
        } else {
            lemma_word_end_bounds(s, i);
            let e = word_end(s, i);
            lemma_words_from_bounds(s, e);
            let ws = words_from(s, i);
            let rest = words_from(s, e);
            assert(ws == seq![(i, e)] + rest);
            assert forall|k: int| 0 <= k < ws.len() implies i <= (#[trigger] ws[k]).0 < ws[k].1 <= s.len() by {
                if k > 0 {
                    assert(ws[k] == rest[k - 1]);
                }
            }
            assert forall|k: int, l: int| 0 <= k <= l < ws.len() implies (#[trigger] ws[k]).1 <= (#[trigger] ws[l]).1 by {
                if k > 0 {
                    assert(ws[k] == rest[k - 1]);
                    assert(ws[l] == rest[l - 1]);
                } else if l > 0 {
                    assert(ws[l] == rest[l - 1]);
                    assert(e <= rest[l - 1].0);
                }
            }
        }
    }
}

/// Within a run of non-whitespace characters, every position ends its word
/// at the same place.
pub proof fn lemma_word_end_same(s: Seq<char>, a: int, b: int)
    requires
        0 <= a <= b <= s.len(),
        forall|k: int| a <= k < b ==> !spec_is_whitespace(#[trigger] s[k]),
    ensures
        word_end(s, a) == word_end(s, b),
    decreases b - a,
{
    if a < b {
        lemma_word_end_same(s, a + 1, b);
    }
}

/// The words of `s` are non-empty ranges within `s`.
pub proof fn lemma_words_bounds(s: Seq<char>)
    ensures
        forall|k: int| 0 <= k < words(s).len() ==> 0 <= (#[trigger] words(s)[k]).0 < words(s)[k].1 <= s.len(),
{
    lemma_words_from_bounds(s, 0);
}

/// The number of bytes that the first `k` characters of `s` take in UTF-8.
pub open spec fn byte_pos(s: Seq<char>, k: int) -> int {
    encode_utf8(s.take(k)).len() as int
}

proof fn lemma_encode_concat(a: Seq<char>, b: Seq<char>)
    ensures
        encode_utf8(a + b) == encode_utf8(a) + encode_utf8(b),
    decreases a.len(),
{
    if a.len() == 0 {
        assert(a + b =~= b);
        assert(encode_utf8(a) + encode_utf8(b) =~= encode_utf8(b));
    } else {
        assert((a + b).drop_first() =~= a.drop_first() + b);
        assert((a + b)[0] == a[0]);
        lemma_encode_concat(a.drop_first(), b);
        assert(encode_scalar(a[0] as u32) + (encode_utf8(a.drop_first()) + encode_utf8(b)) =~= (encode_scalar(
            a[0] as u32,
        ) + encode_utf8(a.drop_first())) + encode_utf8(b));
    }
}

fn utf8_width(c: char) -> (res: usize)
    ensures
        res == encode_scalar(c as u32).len(),
        1 <= res <= 4,
{
    let u = c as u32;
    if u <= 0x7f {
        1
    } else if u <= 0x7ff {
        2
    } else if u <= 0xffff && !(0xd800 <= u && u <= 0xdfff) {
        3
    } else {
        4
    }
}

/// Byte ranges of the words of `text`, in order: the words of
/// [`word_spans`], each bound turned into the number of bytes before it.
pub fn word_offsets(text: &str) -> (res: Vec<(usize, usize)>)
    ensures
        res@.len() == words(text@).len(),
        forall|k: int|
            0 <= k < res@.len() ==> (#[trigger] res@[k]).0 as int == byte_pos(text@, words(text@)[k].0) && res@[k].1
                as int == byte_pos(text@, words(text@)[k].1),
{
    let total = text.as_bytes().len();
    proof {
        assert(text.spec_bytes() == encode_utf8(text@));
    }
    let s = collect_chars(text);
    let n = s.len();
    let mut pos: Vec<usize> = Vec::new();
    pos.push(0);
    proof {
        assert(s@.take(0) =~= Seq::<char>::empty());
    }
    let mut k: usize = 0;
    while k < n
        invariant
            n == s@.len(),
            s@ == text@,
            total == encode_utf8(text@).len(),
            k <= n,
            pos@.len() == k + 1,
            forall|j: int| 0 <= j <= k ==> (#[trigger] pos@[j]) as int == byte_pos(s@, j),
        decreases n - k,
    {
        let w = utf8_width(s[k]);
        proof {
            assert(s@.take(k + 1) =~= s@.take(k as int) + seq![s@[k as int]]);
            lemma_encode_concat(s@.take(k as int), seq![s@[k as int]]);
            let one = seq![s@[k as int]];
            assert(one.drop_first() =~= Seq::<char>::empty());
            assert(encode_utf8(one.drop_first()) =~= Seq::<u8>::empty());
            assert(encode_utf8(one) =~= encode_scalar(s@[k as int] as u32));
            assert(s@ =~= s@.take(k + 1) + s@.skip(k + 1));
            lemma_encode_concat(s@.take(k + 1), s@.skip(k + 1));
        }
        let b = pos[k] + w;
        pos.push(b);
        k = k + 1;
    }
    let spans = word_spans(&s);
    proof {
        lemma_words_bounds(s@);
    }
    let mut out: Vec<(usize, usize)> = Vec::new();
    let mut i: usize = 0;
    while i < spans.len()
        invariant
            n == s@.len(),
            s@ == text@,
            pos@.len() == n + 1,
            forall|j: int| 0 <= j <= n ==> (#[trigger] pos@[j]) as int == byte_pos(s@, j),
            spans@.len() == words(s@).len(),
            forall|m: int|
                0 <= m < spans@.len() ==> (#[trigger] spans@[m]).0 as int == words(s@)[m].0 && spans@[m].1 as int
                    == words(s@)[m].1,
            forall|m: int| 0 <= m < words(s@).len() ==> 0 <= (#[trigger] words(s@)[m]).0 < words(s@)[m].1 <= s@.len(),
            i <= spans@.len(),
            out@.len() == i,
            forall|m: int|
                0 <= m < i ==> (#[trigger] out@[m]).0 as int == byte_pos(s@, words(s@)[m].0) && out@[m].1 as int
                    == byte_pos(s@, words(s@)[m].1),
        decreases spans@.len() - i,
    {
        let (a, b) = spans[i];
        proof {
            assert(0 <= words(s@)[i as int].0 < words(s@)[i as int].1 <= s@.len());
        }
        out.push((pos[a], pos[b]));
        i = i + 1;
    }
    out
}

/// Character ranges of the words of `s`, in order.
pub fn word_spans(s: &Vec<char>) -> (res: Vec<(usize, usize)>)
    ensures
        res@.len() == words(s@).len(),
        forall|k: int|
            0 <= k < res@.len() ==> (#[trigger] res@[k]).0 as int == words(s@)[k].0 && res@[k].1 as int
                == words(s@)[k].1,
{
    let n = s.len();
    let mut out: Vec<(usize, usize)> = Vec::new();
    let mut start: Option<usize> = None;
    let mut i: usize = 0;
    let ghost total = words(s@);
    let ghost mut acc: Seq<(int, int)> = Seq::empty();
    while i < n
        invariant
            n == s@.len(),
            i <= n,
            out@.len() == acc.len(),
            forall|k: int|
                0 <= k < acc.len() ==> (#[trigger] out@[k]).0 as int == acc[k].0 && out@[k].1 as int
                    == acc[k].1,
            total == words(s@),
            match start {
                None => acc + words_from(s@, i as int) == total,
                Some(st) => {
                    &&& st < i
                    &&& forall|k: int| st <= k < i ==> !spec_is_whitespace(#[trigger] s@[k])
                    &&& acc + seq![(st as int, word_end(s@, i as int))] + words_from(
                        s@,
                        word_end(s@, i as int),
                    ) == total
                },
            },
        decreases n - i,
    {
        let c = s[i];
        if is_whitespace(c) {
            match start {
                Some(st) => {
                    proof {
                        assert(word_end(s@, i as int) == i);
                        assert(words_from(s@, i as int) == words_from(s@, i + 1));
                        acc = acc.push((st as int, i as int));
                        assert(acc + words_from(s@, i + 1) == total) by {
                            assert(acc == (acc.drop_last()) + seq![(st as int, i as int)]);
                        }
                    }
                    out.push((st, i));
                    start = None;
                },
                None => {
                    proof {
                        assert(words_from(s@, i as int) == words_from(s@, i + 1));
                    }
                },
            }
        } else {
            match start {
                None => {
                    proof {
                        lemma_word_end_bounds(s@, i as int);
                        lemma_word_end_same(s@, i as int, i + 1);
                        assert(words_from(s@, i as int) == seq![(i as int, word_end(s@, i as int))]
                            + words_from(s@, word_end(s@, i as int)));
                        assert(acc + seq![(i as int, word_end(s@, i + 1))] + words_from(
                            s@,
                            word_end(s@, i + 1),
                        ) == total);
                    }
                    start = Some(i);
                },
                Some(st) => {
                    proof {
                        lemma_word_end_same(s@, i as int, i + 1);
                    }
                },
            }
        }
        i = i + 1;
    }
    match start {
        Some(st) => {
            proof {
                assert(word_end(s@, n as int) == n);
                assert(words_from(s@, n as int) =~= Seq::<(int, int)>::empty());
                acc = acc.push((st as int, n as int));
                assert(acc =~= total);
            }
            out.push((st, n));
        },
        None => {
            proof {
                assert(words_from(s@, n as int) =~= Seq::<(int, int)>::empty());
                assert(acc =~= total);
            }
        },
    }
    out
}

/// Splits `text` into chunks of about `target` words, consecutive chunks
/// sharing `overlap` words. Each chunk is cut from the text itself, so
/// punctuation and line breaks inside it are kept.
pub fn chunk(text: &str, target: usize, overlap: usize) -> (res: Vec<String>)
    requires
        target > 0,
        overlap < target,
    ensures
        res@.len() == spec_chunks(text@, target as int, overlap as int).len(),
        forall|k: int|
            0 <= k < res@.len() ==> (#[trigger] res@[k])@ == spec_chunks(
                text@,
                target as int,
                overlap as int,
            )[k],
{
    let chars = collect_chars(text);
    let spans = word_spans(&chars);
    let ghost w = words(text@);
    proof {
        lemma_words_from_bounds(text@, 0);
    }
    let mut out: Vec<String> = Vec::new();
    if spans.len() == 0 {
        return out;
    }
    let step = target - overlap;
    let n = spans.len();
    let mut i: usize = 0;
    let ghost total = spec_chunks(text@, target as int, overlap as int);
    while i < n
        invariant_except_break
            w == words(text@),
            n == w.len(),
            n > 0,
            spans@.len() == n,
            forall|k: int|
                0 <= k < n ==> (#[trigger] spans@[k]).0 as int == w[k].0 && spans@[k].1 as int == w[k].1,
            forall|k: int| 0 <= k < n ==> 0 <= (#[trigger] w[k]).0 < w[k].1 <= text@.len(),
            forall|k: int, l: int| 0 <= k <= l < n ==> (#[trigger] w[k]).1 <= (#[trigger] w[l]).1,
            target > 0,
            step == target - overlap,
            step > 0,
            i < n,
            total == spec_chunks(text@, target as int, overlap as int),
            out@.len() + windows_from(text@, w, i as int, target as int, step as int).len()
                == total.len(),
            forall|k: int| 0 <= k < out@.len() ==> (#[trigger] out@[k])@ == total[k],
            forall|k: int|
                0 <= k < windows_from(text@, w, i as int, target as int, step as int).len()
                    ==> total[out@.len() + k] == #[trigger] windows_from(
                    text@,
                    w,
                    i as int,
                    target as int,
                    step as int,
                )[k],
        ensures
            out@.len() == total.len(),
            forall|k: int| 0 <= k < out@.len() ==> (#[trigger] out@[k])@ == total[k],
        decreases n - i,
    {
        let end = if target < n - i {
            i + target
        } else {
            n
        };
        let (start_char, _) = spans[i];
        let (_, end_char) = spans[end - 1];
        proof {
            assert(w[i as int].1 <= w[end - 1].1);
        }
        let piece = text.substring_char(start_char, end_char).to_owned();
        let ghost rest = windows_from(text@, w, i as int, target as int, step as int);
        out.push(piece);
        proof {
            assert(rest[0] == piece@);
            assert(total[out@.len() - 1] == piece@);
        }
        if end == n {
            proof {
                assert(rest.len() == 1);
            }
            break;
        }
        proof {
            let next = windows_from(text@, w, i + step, target as int, step as int);
            assert(rest == seq![piece@] + next);
            assert forall|k: int| 0 <= k < next.len() implies total[out@.len() + k] == #[trigger] next[k] by {
                assert(rest[k + 1] == next[k]);
            }
        }
        i = i + step;
        proof {
            assert(i < n);
        }
    }
    out
}


/// The smaller of two integers.
pub open spec fn min_int(a: int, b: int) -> int {
    if a < b {
        a
    } else {
        b
    }
}

proof fn lemma_windows_closed_form(s: Seq<char>, w: Seq<(int, int)>, i: int, target: int, step: int, j: int)
    requires
        0 <= i < w.len(),
        target > 0,
        step > 0,
        0 <= j < windows_from(s, w, i, target, step).len(),
    ensures
        i + j * step < w.len(),
        windows_from(s, w, i, target, step)[j] == s.subrange(
            w[i + j * step].0,
            w[min_int(i + j * step + target, w.len() as int) - 1].1,
        ),
    decreases w.len() - i,
{
    if i + target >= w.len() {
        assert(j == 0);
    } else if j == 0 {
    } else {
        let rest = if i + step < w.len() {
            windows_from(s, w, i + step, target, step)
        } else {
            Seq::empty()
        };
        assert(windows_from(s, w, i, target, step) == seq![s.subrange(w[i].0, w[i + target - 1].1)] + rest);
        assert(i + step < w.len());
        lemma_windows_closed_form(s, w, i + step, target, step, j - 1);
        assert(i + step + (j - 1) * step == i + j * step) by (nonlinear_arith);
        assert(windows_from(s, w, i, target, step)[j] == rest[j - 1]);
    }
}

/// Chunk `k` runs from the start of word `k * (target - overlap)` to the
/// end of the word `target` words later, or of the last word: consecutive
/// chunks start `target - overlap` words apart, so each shares `overlap`
/// words with the next, and none holds more than `target` words.
pub proof fn law_chunk_windows(s: Seq<char>, target: int, overlap: int, k: int)
    requires
        target > 0,
        0 <= overlap < target,
        0 <= k < spec_chunks(s, target, overlap).len(),
    ensures
        ({
            let w = words(s);
            let first = k * (target - overlap);
            let last = min_int(first + target, w.len() as int) - 1;
            &&& 0 <= first <= last < w.len()
            &&& last - first < target
            &&& spec_chunks(s, target, overlap)[k] == s.subrange(w[first].0, w[last].1)
        }),
{
    let w = words(s);
    let step = target - overlap;
    assert(w.len() > 0);
    lemma_windows_closed_form(s, w, 0, target, step, k);
    assert(0 + k * step == k * step);
    assert(k * step >= 0) by (nonlinear_arith)
        requires
            k >= 0,
            step > 0,
    ;
}



proof fn lemma_windows_reach_end(s: Seq<char>, w: Seq<(int, int)>, i: int, target: int, step: int)
    requires
        0 <= i < w.len(),
        target > 0,
        0 < step <= target,
    ensures
        windows_from(s, w, i, target, step).len() > 0,
        exists|j: int|
            i <= j < w.len() && windows_from(s, w, i, target, step).last() == s.subrange(
                #[trigger] w[j].0,
                w[w.len() - 1].1,
            ),
    decreases w.len() - i,
{
    if i + target >= w.len() {
        assert(windows_from(s, w, i, target, step).last() == s.subrange(w[i].0, w[w.len() - 1].1));
    } else {
        lemma_windows_reach_end(s, w, i + step, target, step);
        let rest = windows_from(s, w, i + step, target, step);
        let all = windows_from(s, w, i, target, step);
        assert(all == seq![s.subrange(w[i].0, w[i + target - 1].1)] + rest);
        assert(all.last() == rest.last());
        let j = choose|j: int|
            i + step <= j < w.len() && rest.last() == s.subrange(#[trigger] w[j].0, w[w.len() - 1].1);
        assert(all.last() == s.subrange(w[j].0, w[w.len() - 1].1));
    }
}

/// Every word is indexed: a text with words has chunks, and the last chunk
/// runs to the end of the last word, however few words the last window
/// brings.
pub proof fn law_chunks_cover_every_word(s: Seq<char>, target: int, overlap: int)
    requires
        target > 0,
        0 <= overlap < target,
        words(s).len() > 0,
    ensures
        spec_chunks(s, target, overlap).len() > 0,
        exists|j: int|
            0 <= j < words(s).len() && spec_chunks(s, target, overlap).last() == s.subrange(
                #[trigger] words(s)[j].0,
                words(s)[words(s).len() - 1].1,
            ),
{
    lemma_windows_reach_end(s, words(s), 0, target, target - overlap);
}

}
