//! Unigram (SentencePiece) tokenizer on a compact FST cache.
//!
//! The `tokenizer.json` of the model is converted once into a compact cache
//! (FST token -> id, scores, and the SentencePiece `Precompiled` charsmap).
//! Tokenizing replays the model's pipeline: charsmap normalization, ASCII
//! punctuation surrounded by spaces, whitespace collapsed and stripped,
//! Metaspace (every space becomes `▁`, a `▁` prefixed), then a Viterbi
//! segmentation over the vocabulary, where out-of-vocabulary characters are
//! dropped. This module builds and reads the cache, truncates the input,
//! does the normalization that follows the charsmap, and reads the best
//! segmentation back from its back-pointers; the charsmap and the scoring of
//! the segmentation (`f64` sums) are the caller's.

use vstd::prelude::*;
use vstd::string::*;

use base64::Engine;
use vstd::bytes::spec_u32_from_le_bytes;
use vstd::utf8::valid_utf8;

use crate::cache::{
    decode_fst_section, decode_tail_sections, encode_cache, lemma_cache_roundtrip, spec_encode,
    spec_fst_section, spec_tail_sections, CacheFault, CacheParts,
};
use crate::json::JsonValue;
use crate::text::{collect_chars, push_char, spec_is_whitespace, is_whitespace, string_of_chars};
use crate::vocab::{
    builder_entries, entries_map, entries_of_vocab, entry_views, fst_bytes_of, fst_decode,
    fst_of_entries, strictly_increasing, token_bytes, vocab_entries,
};

verus! {

#[verifier::external_type_specification]
#[verifier::external_body]
pub struct ExIoError(std::io::Error);

/// Name of the tokenizer cache file inside the model directory.
pub const CACHE_FILE: &'static str = "tokenizer.mikke";

/// Beyond this many characters a text cannot yield any more useful tokens
/// (the embedding is truncated to 512 tokens anyway).
pub const MAX_INPUT_CHARS: usize = 8192;

/// The Metaspace marker that stands for a space.
pub const METASPACE: char = '▁';

#[derive(Debug)]
pub enum TokError {
    Io(std::io::Error),
    Format(String),
}

/// A `Format` error that carries the message of `e`.
pub fn format_err<T: core::fmt::Display + ?Sized>(e: &T) -> (res: TokError)
    ensures
        res matches TokError::Format(m) && to_string_from_display_ensures::<T>(e, m),
{
    TokError::Format(e.to_string())
}

/// ASCII punctuation, which the model's normalizer surrounds with spaces.
pub open spec fn spec_is_padded_punct(c: char) -> bool {
    ('!' <= c && c <= '/') || (':' <= c && c <= '@') || ('[' <= c && c <= '`') || ('{' <= c
        && c <= '~')
}

pub fn is_padded_punct(c: char) -> (res: bool)
    ensures
        res == spec_is_padded_punct(c),
{
    ('!' <= c && c <= '/') || (':' <= c && c <= '@') || ('[' <= c && c <= '`') || ('{' <= c
        && c <= '~')
}

/// At most the first `MAX_INPUT_CHARS` characters of `s`.
pub open spec fn spec_truncate_input(s: Seq<char>) -> Seq<char> {
    if s.len() > MAX_INPUT_CHARS {
        s.take(MAX_INPUT_CHARS as int)
    } else {
        s
    }
}

pub fn truncate_input(text: &str) -> (res: String)
    ensures
        res@ == spec_truncate_input(text@),
{
    let chars = collect_chars(text);
    if chars.len() > MAX_INPUT_CHARS {
        text.substring_char(0, MAX_INPUT_CHARS).to_owned()
    } else {
        text.to_owned()
    }
}

/// One pass over `s` from position `i`: whitespace only marks a separation;
/// every other character is appended to `out`, preceded by `▁` when `out`
/// is not empty and either a separation was seen, the character is padded
/// punctuation, or the previous appended character was padded punctuation
/// (`sep` carries the last two facts).
pub open spec fn metaspace_from(s: Seq<char>, i: int, sep: bool, out: Seq<char>) -> Seq<char>
    decreases s.len() - i,
{
    if i < 0 || i >= s.len() {
        out
    } else if spec_is_whitespace(s[i]) {
        metaspace_from(s, i + 1, true, out)
    } else {
        let pad = spec_is_padded_punct(s[i]);
        let next = if out.len() > 0 && (sep || pad) {
            out.push(METASPACE).push(s[i])
        } else {
            out.push(s[i])
        };
        metaspace_from(s, i + 1, pad, next)
    }
}

/// The model's normalizer after the charsmap, in one pass: ASCII punctuation
/// surrounded by spaces, runs of whitespace collapsed, both ends stripped,
/// then Metaspace with `split = false` (each space becomes `▁`, and a `▁` is
/// prefixed). A text with no visible character gives the empty string.
pub open spec fn spec_metaspace(s: Seq<char>) -> Seq<char> {
    let o = metaspace_from(s, 0, false, Seq::empty());
    if o.len() == 0 {
        Seq::empty()
    } else {
        seq![METASPACE] + o
    }
}

pub fn metaspace(normalized: &str) -> (res: String)
    ensures
        res@ == spec_metaspace(normalized@),
{
    let chars = collect_chars(normalized);
    let n = chars.len();
    let mut out: Vec<char> = Vec::new();
    let mut sep = false;
    let mut i: usize = 0;
    while i < n
        invariant
            n == chars@.len(),
            chars@ == normalized@,
            i <= n,
            metaspace_from(chars@, i as int, sep, out@) == metaspace_from(
                chars@,
                0,
                false,
                Seq::empty(),
            ),
        decreases n - i,
    {
        let c = chars[i];
        if is_whitespace(c) {
            sep = true;
        } else {
            let pad = is_padded_punct(c);
            if out.len() > 0 && (sep || pad) {
                out.push(METASPACE);
            }
            out.push(c);
            sep = pad;
        }
        i = i + 1;
    }
    if out.len() == 0 {
        return String::new();
    }
    let mut full: Vec<char> = Vec::new();
    full.push(METASPACE);
    let mut k: usize = 0;
    while k < out.len()
        invariant
            k <= out@.len(),
            full@ == seq![METASPACE] + out@.take(k as int),
        decreases out@.len() - k,
    {
        full.push(out[k]);
        proof {
            assert(out@.take(k + 1) == out@.take(k as int).push(out@[k as int]));
        }
        k = k + 1;
    }
    proof {
        assert(out@.take(out@.len() as int) == out@);
    }
    string_of_chars(&full)
}

proof fn lemma_metaspace_from_empty(s: Seq<char>, i: int, sep: bool, out: Seq<char>)
    requires
        0 <= i <= s.len(),
    ensures
        metaspace_from(s, i, sep, out).len() >= out.len(),
        metaspace_from(s, i, sep, out).len() == 0 <==> (out.len() == 0 && forall|k: int|
            i <= k < s.len() ==> spec_is_whitespace(#[trigger] s[k])),
    decreases s.len() - i,
{
    if i < s.len() {
        if spec_is_whitespace(s[i]) {
            lemma_metaspace_from_empty(s, i + 1, true, out);
        } else {
            let pad = spec_is_padded_punct(s[i]);
            let next = if out.len() > 0 && (sep || pad) {
                out.push(METASPACE).push(s[i])
            } else {
                out.push(s[i])
            };
            lemma_metaspace_from_empty(s, i + 1, pad, next);
        }
    }
}

/// A text gives no piece exactly when it has no visible character (an
/// empty or blank text yields no token); otherwise they start with `▁`.
pub proof fn law_metaspace_blank(s: Seq<char>)
    ensures
        spec_metaspace(s).len() == 0 <==> forall|k: int| 0 <= k < s.len() ==> spec_is_whitespace(#[trigger] s[k]),
        spec_metaspace(s).len() > 0 ==> spec_metaspace(s)[0] == METASPACE,
{
    lemma_metaspace_from_empty(s, 0, false, Seq::empty());
}

/// The words of `s[i..]` once ASCII punctuation is set apart, read from
/// the left onto `acc`: white space ends a word; a padded punctuation
/// character is a word of its own; any other character extends the last
/// word, unless a separation (`sep`) comes before it. These are the words
/// of `s` with a space put on each side of every ASCII punctuation
/// character, split at white space.
pub open spec fn words_from(s: Seq<char>, i: int, sep: bool, acc: Seq<Seq<char>>) -> Seq<Seq<char>>
    decreases s.len() - i,
{
    if i < 0 || i >= s.len() {
        acc
    } else if spec_is_whitespace(s[i]) {
        words_from(s, i + 1, true, acc)
    } else {
        let pad = spec_is_padded_punct(s[i]);
        let next = if acc.len() > 0 && !(sep || pad) {
            acc.drop_last().push(acc.last().push(s[i]))
        } else {
            acc.push(seq![s[i]])
        };
        words_from(s, i + 1, pad, next)
    }
}

/// The words of `s`, punctuation set apart (see [`words_from`]).
pub open spec fn padded_words(s: Seq<char>) -> Seq<Seq<char>> {
    words_from(s, 0, false, Seq::empty())
}

/// The words joined by `▁`.
pub open spec fn join_metaspace(ws: Seq<Seq<char>>) -> Seq<char>
    decreases ws.len(),
{
    if ws.len() == 0 {
        Seq::empty()
    } else if ws.len() == 1 {
        ws[0]
    } else {
        join_metaspace(ws.drop_last()) + seq![METASPACE] + ws.last()
    }
}

proof fn lemma_metaspace_is_joined_words(s: Seq<char>, i: int, sep: bool, out: Seq<char>, acc: Seq<Seq<char>>)
    requires
        0 <= i <= s.len(),
        out == join_metaspace(acc),
        out.len() > 0 <==> acc.len() > 0,
        forall|k: int| 0 <= k < acc.len() ==> (#[trigger] acc[k]).len() > 0,
    ensures
        metaspace_from(s, i, sep, out) == join_metaspace(words_from(s, i, sep, acc)),
        metaspace_from(s, i, sep, out).len() > 0 <==> words_from(s, i, sep, acc).len() > 0,
    decreases s.len() - i,
{
    if i < s.len() {
        if spec_is_whitespace(s[i]) {
            lemma_metaspace_is_joined_words(s, i + 1, true, out, acc);
        } else {
            let c = s[i];
            let pad = spec_is_padded_punct(c);
            if acc.len() > 0 && !(sep || pad) {
                let acc2 = acc.drop_last().push(acc.last().push(c));
                assert(acc2.drop_last() =~= acc.drop_last());
                if acc.len() > 1 {
                    assert(join_metaspace(acc2) =~= join_metaspace(acc.drop_last()) + seq![METASPACE] + acc.last().push(c));
                }
                assert(join_metaspace(acc2) =~= out.push(c));
                assert forall|k: int| 0 <= k < acc2.len() implies (#[trigger] acc2[k]).len() > 0 by {
                    if k < acc.len() - 1 {
                        assert(acc2[k] == acc[k]);
                    }
                }
                lemma_metaspace_is_joined_words(s, i + 1, pad, out.push(c), acc2);
            } else {
                let acc2 = acc.push(seq![c]);
                assert(acc2.drop_last() =~= acc);
                if acc.len() > 0 {
                    assert(join_metaspace(acc2) =~= out.push(METASPACE).push(c));
                    lemma_metaspace_is_joined_words(s, i + 1, pad, out.push(METASPACE).push(c), acc2);
                } else {
                    assert(join_metaspace(acc2) =~= out.push(c));
                    lemma_metaspace_is_joined_words(s, i + 1, pad, out.push(c), acc2);
                }
            }
        }
    }
}

/// The normalization depends on the words alone: two texts whose words,
/// with ASCII punctuation set apart, are the same (however they are spaced,
/// at the ends or between words) normalize to the same pieces, `▁` followed
/// by the words joined by `▁`.
pub proof fn law_metaspace_depends_on_words(a: Seq<char>, b: Seq<char>)
    requires
        padded_words(a) == padded_words(b),
    ensures
        spec_metaspace(a) == spec_metaspace(b),
        spec_metaspace(a) == (if padded_words(a).len() == 0 {
            Seq::<char>::empty()
        } else {
            seq![METASPACE] + join_metaspace(padded_words(a))
        }),
{
    lemma_metaspace_is_joined_words(a, 0, false, Seq::empty(), Seq::empty());
    lemma_metaspace_is_joined_words(b, 0, false, Seq::empty(), Seq::empty());
}

/// The token ids read along the back-pointers from position `pos` down to 0:
/// `back[p] = (q, id)` says that the best segmentation of the first `p`
/// bytes ends with the piece `q..p`, which is the token `id` (or an
/// unknown character, dropped, when `id` is `None`).
pub open spec fn spec_backtrace(back: Seq<(usize, Option<u32>)>, pos: int) -> Seq<u32>
    decreases pos,
{
    if pos <= 0 || pos >= back.len() || back[pos].0 >= pos {
        Seq::empty()
    } else {
        let prev = back[pos].0 as int;
        match back[pos].1 {
            Some(id) => spec_backtrace(back, prev).push(id),
            None => spec_backtrace(back, prev),
        }
    }
}

/// Every back-pointer goes strictly backwards.
pub open spec fn back_pointers_descend(back: Seq<(usize, Option<u32>)>) -> bool {
    forall|p: int| 0 < p < back.len() ==> (#[trigger] back[p]).0 < p
}

/// The ids of the best segmentation of a text of `back.len() - 1` bytes,
/// in text order.
pub fn backtrace(back: &Vec<(usize, Option<u32>)>) -> (res: Vec<u32>)
    requires
        back@.len() > 0,
        back_pointers_descend(back@),
    ensures
        res@ == spec_backtrace(back@, back@.len() - 1),
{
    let mut rev: Vec<u32> = Vec::new();
    let mut pos: usize = back.len() - 1;
    let ghost total = spec_backtrace(back@, back@.len() - 1);
    while pos > 0
        invariant
            pos < back@.len(),
            back_pointers_descend(back@),
            spec_backtrace(back@, pos as int) + rev@.reverse() == total,
        decreases pos,
    {
        let (prev, id) = back[pos];
        let ghost old_rev = rev@;
        match id {
            Some(t) => {
                rev.push(t);
                proof {
                    assert(rev@.reverse() == seq![t] + old_rev.reverse()) by {
                        assert(rev@ == old_rev.push(t));
                        assert(old_rev.push(t).reverse() =~= seq![t] + old_rev.reverse());
                    }
                    assert(spec_backtrace(back@, pos as int) == spec_backtrace(back@, prev as int).push(t));
                    assert(spec_backtrace(back@, prev as int) + rev@.reverse() =~= spec_backtrace(back@, prev as int).push(t) + old_rev.reverse());
                }
            },
            None => {},
        }
        pos = prev;
    }
    proof {
        assert(spec_backtrace(back@, 0) == Seq::<u32>::empty());
        assert(rev@.reverse() == total);
    }
    let mut out: Vec<u32> = Vec::new();
    let mut k: usize = rev.len();
    while k > 0
        invariant
            k <= rev@.len(),
            out@ == rev@.reverse().take((rev@.len() - k) as int),
        decreases k,
    {
        k = k - 1;
        out.push(rev[k]);
        proof {
            assert(rev@.reverse().take((rev@.len() - k) as int) =~= rev@.reverse().take((rev@.len() - k - 1) as int).push(rev@[k as int]));
        }
    }
    proof {
        assert(rev@.reverse().take(rev@.len() as int) =~= rev@.reverse());
    }
    out
}


/// Position `q` is met when following the back-pointers down from `pos`.
pub open spec fn on_chain(back: Seq<(usize, Option<u32>)>, pos: int, q: int) -> bool
    decreases pos,
{
    if q == pos {
        true
    } else if pos <= 0 || pos >= back.len() || back[pos].0 >= pos {
        false
    } else {
        on_chain(back, back[pos].0 as int, q)
    }
}

/// Reading back loses no piece: for every position met along the
/// back-pointers from `pos`, what is read from it comes first, unchanged,
/// in what is read from `pos` (an unknown character on the way drops only
/// itself); and every piece with an id met on the way is in the result.
pub proof fn law_backtrace_keeps_every_piece(back: Seq<(usize, Option<u32>)>, pos: int, q: int)
    requires
        on_chain(back, pos, q),
    ensures
        spec_backtrace(back, q).len() <= spec_backtrace(back, pos).len(),
        spec_backtrace(back, pos).take(spec_backtrace(back, q).len() as int) == spec_backtrace(back, q),
        (0 < q < back.len() && back[q].0 < q && back[q].1 is Some) ==> spec_backtrace(back, pos).contains(
            back[q].1->0,
        ),
    decreases pos,
{
    let r = spec_backtrace(back, pos);
    if q == pos {
        assert(r.take(r.len() as int) =~= r);
        if 0 < q < back.len() && back[q].0 < q && back[q].1 is Some {
            assert(r[r.len() - 1] == back[q].1->0);
        }
    } else {
        let prev = back[pos].0 as int;
        law_backtrace_keeps_every_piece(back, prev, q);
        let a = spec_backtrace(back, prev);
        let b = spec_backtrace(back, q);
        match back[pos].1 {
            Some(id) => {
                assert(r == a.push(id));
                assert(r.take(b.len() as int) =~= a.take(b.len() as int));
                if 0 < q < back.len() && back[q].0 < q && back[q].1 is Some {
                    let j = choose|j: int| 0 <= j < a.len() && a[j] == back[q].1->0;
                    assert(r[j] == a[j]);
                }
            },
            None => {
                assert(r == a);
            },
        }
    }
}

/// The number of positions met along the back-pointers from `pos` whose
/// pointer names a token.
pub open spec fn pieces_on_chain(back: Seq<(usize, Option<u32>)>, pos: int) -> nat
    decreases pos,
{
    if pos <= 0 || pos >= back.len() || back[pos].0 >= pos {
        0
    } else {
        pieces_on_chain(back, back[pos].0 as int) + if back[pos].1 is Some {
            1nat
        } else {
            0nat
        }
    }
}

/// One id per known piece: the ids read back are as many as the pointers
/// with an id along the way, each met once.
pub proof fn law_backtrace_one_id_per_piece(back: Seq<(usize, Option<u32>)>, pos: int)
    ensures
        spec_backtrace(back, pos).len() == pieces_on_chain(back, pos),
    decreases pos,
{
    if !(pos <= 0 || pos >= back.len() || back[pos].0 >= pos) {
        law_backtrace_one_id_per_piece(back, back[pos].0 as int);
    }
}

/// A text's ids are those of its best segmentation minus the unknown
/// characters: reading back from the last position keeps, in order, the
/// pieces read back from any position met on the way.
pub proof fn law_backtrace_of_text(back: Seq<(usize, Option<u32>)>, q: int)
    requires
        back.len() > 0,
        on_chain(back, back.len() - 1, q),
    ensures
        spec_backtrace(back, back.len() - 1).take(spec_backtrace(back, q).len() as int) == spec_backtrace(back, q),
{
    law_backtrace_keeps_every_piece(back, back.len() - 1, q);
}

/// The key under which the model's normalizer stores its charsmap.
pub open spec fn charsmap_key() -> Seq<char> {
    seq!['p', 'r', 'e', 'c', 'o', 'm', 'p', 'i', 'l', 'e', 'd', '_', 'c', 'h', 'a', 'r', 's', 'm', 'a', 'p']
}

/// The value of the first member named `key` of an object.
pub open spec fn member(o: Seq<(String, JsonValue)>, key: Seq<char>) -> Option<JsonValue>
    decreases o.len(),
{
    if o.len() == 0 {
        None
    } else if o[0].0@ == key {
        Some(o[0].1)
    } else {
        member(o.drop_first(), key)
    }
}

/// The `precompiled_charsmap` blob found in `v`, searched depth first: in an
/// object, its own `precompiled_charsmap` member when that is a string,
/// else each member value in turn; in an array, each element in turn.
pub open spec fn spec_find_charsmap(v: JsonValue) -> Option<Seq<char>>
    decreases v, 0int,
{
    match v {
        JsonValue::Object(o) => {
            match member(o@, charsmap_key()) {
                Some(JsonValue::Str(s)) => Some(s@),
                _ => find_in_members(o@, 0),
            }
        },
        JsonValue::Array(a) => find_in_elements(a@, 0),
        _ => None,
    }
}

pub open spec fn find_in_members(o: Seq<(String, JsonValue)>, i: int) -> Option<Seq<char>>
    decreases o, o.len() - i,
{
    if i < 0 || i >= o.len() {
        None
    } else {
        match spec_find_charsmap(o[i].1) {
            Some(s) => Some(s),
            None => find_in_members(o, i + 1),
        }
    }
}

pub open spec fn find_in_elements(a: Seq<JsonValue>, i: int) -> Option<Seq<char>>
    decreases a, a.len() - i,
{
    if i < 0 || i >= a.len() {
        None
    } else {
        match spec_find_charsmap(a[i]) {
            Some(s) => Some(s),
            None => find_in_elements(a, i + 1),
        }
    }
}


const CHARSMAP_KEY: [char; 20] = ['p', 'r', 'e', 'c', 'o', 'm', 'p', 'i', 'l', 'e', 'd', '_', 'c', 'h', 'a', 'r', 's', 'm', 'a', 'p'];

fn is_charsmap_key(k: &String) -> (res: bool)
    ensures
        res == (k@ == charsmap_key()),
{
    let chars = collect_chars(k.as_str());
    proof {
        assert(CHARSMAP_KEY@ == charsmap_key());
    }
    if chars.len() != 20 {
        return false;
    }
    let mut i: usize = 0;
    while i < 20
        invariant
            chars@.len() == 20,
            chars@ == k@,
            CHARSMAP_KEY@ == charsmap_key(),
            i <= 20,
            forall|j: int| 0 <= j < i ==> chars@[j] == charsmap_key()[j],
        decreases 20 - i,
    {
        if chars[i] != CHARSMAP_KEY[i] {
            proof {
                assert(chars@[i as int] != charsmap_key()[i as int]);
                assert(k@ == chars@);
            }
            return false;
        }
        i = i + 1;
    }
    proof {
        assert(chars@ =~= charsmap_key());
    }
    true
}

fn find_member<'a>(o: &'a Vec<(String, JsonValue)>, i: usize) -> (res: Option<&'a JsonValue>)
    requires
        i <= o@.len(),
    ensures
        res matches Some(v) ==> member(o@.skip(i as int), charsmap_key()) == Some(*v),
        res is None ==> member(o@.skip(i as int), charsmap_key()) is None,
    decreases o@.len() - i,
{
    if i == o.len() {
        return None;
    }
    proof {
        assert(o@.skip(i as int).drop_first() =~= o@.skip(i + 1));
    }
    if is_charsmap_key(&o[i].0) {
        Some(&o[i].1)
    } else {
        find_member(o, i + 1)
    }
}

/// The charsmap blob of the model's normalizer, if any (see
/// [`spec_find_charsmap`]).
pub fn find_charsmap(v: &JsonValue) -> (res: Option<String>)
    ensures
        match res {
            Some(s) => spec_find_charsmap(*v) == Some(s@),
            None => spec_find_charsmap(*v) is None,
        },
    decreases *v, 0int,
{
    match v {
        JsonValue::Object(o) => {
            proof {
                assert(o@.skip(0) =~= o@);
            }
            match find_member(o, 0) {
                Some(JsonValue::Str(s)) => {
                    return Some(s.clone());
                },
                _ => {},
            }
            members_charsmap(o, 0)
        },
        JsonValue::Array(a) => elements_charsmap(a, 0),
        _ => None,
    }
}

fn members_charsmap(o: &Vec<(String, JsonValue)>, i: usize) -> (res: Option<String>)
    requires
        i <= o@.len(),
    ensures
        match res {
            Some(s) => find_in_members(o@, i as int) == Some(s@),
            None => find_in_members(o@, i as int) is None,
        },
    decreases o@, o@.len() - i,
{
    if i == o.len() {
        return None;
    }
    match find_charsmap(&o[i].1) {
        Some(s) => Some(s),
        None => members_charsmap(o, i + 1),
    }
}

fn elements_charsmap(a: &Vec<JsonValue>, i: usize) -> (res: Option<String>)
    requires
        i <= a@.len(),
    ensures
        match res {
            Some(s) => find_in_elements(a@, i as int) == Some(s@),
            None => find_in_elements(a@, i as int) is None,
        },
    decreases a@, a@.len() - i,
{
    if i == a.len() {
        return None;
    }
    match find_charsmap(&a[i]) {
        Some(s) => Some(s),
        None => elements_charsmap(a, i + 1),
    }
}


#[verifier::external_type_specification]
#[verifier::external_body]
#[verifier::reject_recursive_types(D)]
pub struct ExFstMap<D>(fst::Map<D>);

#[verifier::external_type_specification]
#[verifier::external_body]
pub struct ExPrecompiled(spm_precompiled::Precompiled);

/// The entries an FST map holds.
pub uninterp spec fn fst_map_entries(m: fst::Map<Vec<u8>>) -> Map<Seq<u8>, u64>;

/// The charsmap a `Precompiled` normalizer holds (its source keeps the bytes
/// it was read from).
pub uninterp spec fn charsmap_source(p: spm_precompiled::Precompiled) -> Seq<u8>;

/// What `base64`'s standard engine decodes `s` to, if `s` is valid.
pub uninterp spec fn base64_decoded(s: Seq<char>) -> Option<Seq<u8>>;

/// Whether `Precompiled::from` accepts a charsmap, as its source reads it:
/// a little-endian `u32` trie size, that many bytes (rounded down to whole
/// `u32` words) of trie, then a UTF-8 string.
pub open spec fn charsmap_parses(b: Seq<u8>) -> bool {
    &&& b.len() >= 4
    &&& {
        let end = 4 + 4 * (spec_u32_from_le_bytes(b.take(4)) / 4);
        end <= b.len() && valid_utf8(b.skip(end))
    }
}

/// `fst::Map::new`, which checks the header of the bytes and keeps them.
#[verifier::external_body]
fn fst_map_new(bytes: Vec<u8>) -> (res: Result<fst::Map<Vec<u8>>, String>)
    ensures
        match res {
            Ok(m) => fst_decode(bytes@) == Some(fst_map_entries(m)),
            Err(_) => fst_decode(bytes@) is None,
        },
{
    match fst::Map::new(bytes) {
        Ok(m) => Ok(m),
        Err(e) => Err(e.to_string()),
    }
}

/// `spm_precompiled::Precompiled::from`: it succeeds exactly when the
/// charsmap parses, keeps the bytes, and every failure displays the same
/// message.
#[verifier::external_body]
fn precompiled_from(bytes: &[u8]) -> (res: Result<spm_precompiled::Precompiled, String>)
    ensures
        match res {
            Ok(p) => charsmap_parses(bytes@) && charsmap_source(p) == bytes@,
            Err(m) => !charsmap_parses(bytes@) && m@ == charsmap_error_message(),
        },
{
    match spm_precompiled::Precompiled::from(bytes) {
        Ok(p) => Ok(p),
        Err(e) => Err(e.to_string()),
    }
}

/// Base64 decoding with the standard alphabet and padding
/// (`base64::engine::general_purpose::STANDARD`).
#[verifier::external_body]
fn base64_decode(s: &str) -> (res: Result<Vec<u8>, String>)
    ensures
        match res {
            Ok(v) => base64_decoded(s@) == Some(v@),
            Err(_) => base64_decoded(s@) is None,
        },
{
    match base64::engine::general_purpose::STANDARD.decode(s) {
        Ok(v) => Ok(v),
        Err(e) => Err(e.to_string()),
    }
}

pub open spec fn corrupt_message() -> Seq<char> {
    "cache corrompu (supprime-le, il sera reconstruit)"@
}

pub open spec fn truncated_message() -> Seq<char> {
    "cache tronqué"@
}

pub open spec fn no_charsmap_message() -> Seq<char> {
    "precompiled_charsmap introuvable"@
}

pub open spec fn charsmap_error_message() -> Seq<char> {
    "Cannot parse precompiled_charsmap"@
}

pub open spec fn unsupported_model_message(kind: Seq<char>) -> Seq<char> {
    "modèle "@ + kind + " non géré (Unigram attendu)"@
}

/// The model kind this tokenizer handles.
pub open spec fn unigram() -> Seq<char> {
    seq!['U', 'n', 'i', 'g', 'r', 'a', 'm']
}

const UNIGRAM: [char; 7] = ['U', 'n', 'i', 'g', 'r', 'a', 'm'];

/// The model part of a `tokenizer.json`: its kind, and its vocabulary as
/// (token, bit pattern of the `f64` score) pairs, by id.
pub struct ModelJson {
    pub kind: String,
    pub vocab: Vec<(String, u64)>,
}

/// The parts of a `tokenizer.json` that the cache is built from.
pub struct TokenizerJson {
    pub normalizer: JsonValue,
    pub model: ModelJson,
}

/// The tokenizer: the vocabulary as an FST (token bytes to id), the bit
/// patterns of the scores by id, and the SentencePiece normalizer (`None`:
/// identity).
pub struct Tok {
    pub map: fst::Map<Vec<u8>>,
    pub scores: Vec<u64>,
    pub charsmap: Option<spm_precompiled::Precompiled>,
}

/// The charsmap a tokenizer normalizes with, if any.
pub open spec fn charsmap_view(c: Option<spm_precompiled::Precompiled>) -> Option<Seq<u8>> {
    match c {
        Some(p) => Some(charsmap_source(p)),
        None => None,
    }
}

/// What reading cache bytes gives: the FST entries, the score bits and the
/// charsmap (kept only when longer than 4 bytes); or the error message
/// (`None` when it is the FST's own message).
pub open spec fn spec_load(b: Seq<u8>) -> Result<(Map<Seq<u8>, u64>, Seq<u64>, Option<Seq<u8>>), Option<Seq<char>>> {
    match spec_fst_section(b) {
        Err(_) => Err(Some(corrupt_message())),
        Ok(f) => match fst_decode(f) {
            None => Err(None),
            Some(entries) => match spec_tail_sections(b, 16 + f.len() as int) {
                Err(CacheFault::Corrupt) => Err(Some(corrupt_message())),
                Err(CacheFault::Truncated) => Err(Some(truncated_message())),
                Ok((scores, cm)) => if cm.len() > 4 {
                    if charsmap_parses(cm) {
                        Ok((entries, scores, Some(cm)))
                    } else {
                        Err(Some(charsmap_error_message()))
                    }
                } else {
                    Ok((entries, scores, None))
                },
            },
        },
    }
}

/// `b` is the cache of the vocabulary `vocab` with the charsmap `cm`: the
/// FST of its entries, its score bits and the charsmap; and reading `b`
/// gives back the map of those entries, the scores and the charsmap (when
/// it is kept and parses).
pub open spec fn cache_of_vocab(vocab: Seq<(String, u64)>, cm: Seq<u8>, b: Seq<u8>) -> bool {
    exists|d: Seq<(Seq<u8>, u64)>|
        {
            &&& entries_of_vocab(token_bytes(vocab), d)
            &&& b == spec_encode(fst_bytes_of(d), score_bits(vocab), cm)
            &&& (cm.len() <= 4 || charsmap_parses(cm)) ==> spec_load(b) == Ok::<
                (Map<Seq<u8>, u64>, Seq<u64>, Option<Seq<u8>>),
                Option<Seq<char>>,
            >((entries_map(d), score_bits(vocab), if cm.len() > 4 {
                Some(cm)
            } else {
                None
            }))
        }
}

/// The score bits of a vocabulary, by id.
pub open spec fn score_bits(vocab: Seq<(String, u64)>) -> Seq<u64> {
    vocab.map_values(|e: (String, u64)| e.1)
}

fn format_message(m: String) -> (res: TokError)
    ensures
        res matches TokError::Format(x) && x@ == m@,
{
    TokError::Format(m)
}

fn is_unigram(kind: &String) -> (res: bool)
    ensures
        res == (kind@ == unigram()),
{
    let chars = collect_chars(kind.as_str());
    proof {
        assert(UNIGRAM@ == unigram());
    }
    if chars.len() != 7 {
        return false;
    }
    let mut i: usize = 0;
    while i < 7
        invariant
            chars@.len() == 7,
            chars@ == kind@,
            UNIGRAM@ == unigram(),
            i <= 7,
            forall|j: int| 0 <= j < i ==> chars@[j] == unigram()[j],
        decreases 7 - i,
    {
        if chars[i] != UNIGRAM[i] {
            proof {
                assert(chars@[i as int] != unigram()[i as int]);
            }
            return false;
        }
        i = i + 1;
    }
    proof {
        assert(chars@ =~= unigram());
    }
    true
}

impl Tok {
    /// Reads a tokenizer from the bytes of its cache file. Beyond the cache
    /// layout, the FST must be accepted by `fst::Map::new`, and a charsmap
    /// longer than 4 bytes must parse (a shorter one means identity).
    pub fn load_bytes(bytes: &[u8]) -> (res: Result<Tok, TokError>)
        ensures
            match spec_load(bytes@) {
                Ok((entries, scores, cm)) => res matches Ok(t) && fst_map_entries(t.map) == entries
                    && t.scores@ == scores && charsmap_view(t.charsmap) == cm,
                Err(Some(m)) => res matches Err(TokError::Format(x)) && x@ == m,
                Err(None) => res matches Err(TokError::Format(_)),
            },
    {
        let (fst_bytes, pos) = match decode_fst_section(bytes) {
            Ok(r) => r,
            Err(_) => {
                return Err(format_message("cache corrompu (supprime-le, il sera reconstruit)".to_owned()));
            },
        };
        let ghost f = fst_bytes@;
        let map = match fst_map_new(fst_bytes) {
            Ok(m) => m,
            Err(e) => {
                return Err(TokError::Format(e));
            },
        };
        let (scores, cm) = match decode_tail_sections(bytes, pos) {
            Ok(r) => r,
            Err(CacheFault::Corrupt) => {
                return Err(format_message("cache corrompu (supprime-le, il sera reconstruit)".to_owned()));
            },
            Err(CacheFault::Truncated) => {
                return Err(format_message("cache tronqué".to_owned()));
            },
        };
        let charsmap = if cm.len() > 4 {
            match precompiled_from(cm.as_slice()) {
                Ok(p) => Some(p),
                Err(e) => {
                    return Err(format_message(e));
                },
            }
        } else {
            None
        };
        Ok(Tok { map, scores, charsmap })
    }

    /// The bytes of the cache for a parsed `tokenizer.json`. The model must
    /// be a Unigram one and its normalizer must hold a base64
    /// `precompiled_charsmap`. The FST maps each distinct token to its
    /// smallest id; every score is kept, by id. Reading the bytes back gives
    /// that map, those scores and the charsmap (when it parses).
    pub fn build_cache_bytes(parsed: &TokenizerJson) -> (res: Result<Vec<u8>, TokError>)
        ensures
            if parsed.model.kind@ != unigram() {
                res matches Err(TokError::Format(m)) && m@ == unsupported_model_message(parsed.model.kind@)
            } else {
                match spec_find_charsmap(parsed.normalizer) {
                    None => res matches Err(TokError::Format(m)) && m@ == no_charsmap_message(),
                    Some(b64) => match base64_decoded(b64) {
                        None => res matches Err(TokError::Format(_)),
                        Some(cm) => res matches Ok(b) && cache_of_vocab(parsed.model.vocab@, cm, b@),
                    },
                }
            },
    {
        if !is_unigram(&parsed.model.kind) {
            let mut m = "modèle ".to_owned();
            m.append(parsed.model.kind.as_str());
            m.append(" non géré (Unigram attendu)");
            return Err(format_message(m));
        }
        let b64 = match find_charsmap(&parsed.normalizer) {
            Some(s) => s,
            None => {
                return Err(format_message("precompiled_charsmap introuvable".to_owned()));
            },
        };
        let charsmap = match base64_decode(b64.as_str()) {
            Ok(v) => v,
            Err(e) => {
                return Err(TokError::Format(e));
            },
        };
        let vocab = &parsed.model.vocab;
        let mut scores: Vec<u64> = Vec::new();
        let mut k: usize = 0;
        while k < vocab.len()
            invariant
                k <= vocab@.len(),
                scores@ == score_bits(vocab@).take(k as int),
            decreases vocab@.len() - k,
        {
            scores.push(vocab[k].1);
            proof {
                assert(score_bits(vocab@).take(k + 1) == score_bits(vocab@).take(k as int).push(vocab@[k as int].1));
            }
            k = k + 1;
        }
        proof {
            assert(score_bits(vocab@).take(vocab@.len() as int) == score_bits(vocab@));
        }
        let entries = vocab_entries(vocab);
        let fst = fst_of_entries(&entries);
        let ghost d = entry_views(entries@);
        let parts = CacheParts { fst, scores, charsmap };
        let out = encode_cache(&parts);
        let lengths = (parts.fst.len(), parts.scores.len(), parts.charsmap.len());
        proof {
            assert(lengths.0 == parts.fst@.len() && lengths.1 == parts.scores@.len() && lengths.2 == parts.charsmap@.len());
            lemma_cache_roundtrip(parts.fst@, parts.scores@, parts.charsmap@);
        }
        Ok(out)
    }
}

}
