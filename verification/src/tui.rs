//! The decisions of the full-screen search: what each key does to the
//! query and the selection, and the text that the screen shows.
//!
//! The terminal loop reads a key, hands it to [`TuiState::on_key`], and
//! carries out the action it returns: quit, open a hit, or search again and
//! hand the number of hits back with [`TuiState::set_hits`].

use vstd::prelude::*;
use vstd::slice::*;
use vstd::string::*;

use crate::ranges::{sort_by_start, sort_ranges};
use crate::cli::{ranges_usable, usable_from};
use crate::text::{collect_chars, decimal, is_whitespace, push_char, push_decimal, spec_is_whitespace};

verus! {

/// Hits asked of a search.
pub const TOP: usize = 20;

/// A key press, as the search screen tells keys apart.
#[derive(Debug, Clone, Copy, PartialEq, Eq)]
pub enum Key {
    Esc,
    Enter,
    Up,
    Down,
    Backspace,
    /// A character, with whether Control was held.
    Char { c: char, ctrl: bool },
    /// Any other key.
    Other,
}

/// What the loop does after a key.
#[derive(Debug, Clone, Copy, PartialEq, Eq)]
pub enum TuiAction {
    /// Leave without opening anything.
    Quit,
    /// Leave and open the hit at this position.
    Open(usize),
    /// The query changed: search again.
    Search,
    /// Only the screen changes.
    Redraw,
}

/// The query typed so far, the number of hits shown and the selected one.
pub struct TuiState {
    pub query: String,
    pub hit_count: usize,
    pub selected: usize,
}

/// The selection is on a hit, or at 0 when there is none.
pub open spec fn selection_ok(selected: int, hit_count: int) -> bool {
    if hit_count == 0 {
        selected == 0
    } else {
        selected < hit_count
    }
}

/// The state after a key: the query, the selection, and the action.
pub open spec fn spec_on_key(query: Seq<char>, hit_count: int, selected: int, key: Key) -> (Seq<char>, int, TuiAction) {
    match key {
        Key::Esc => (query, selected, TuiAction::Quit),
        Key::Char { c, ctrl } => if ctrl && c == 'c' {
            (query, selected, TuiAction::Quit)
        } else if ctrl && c == 'u' {
            (Seq::empty(), selected, TuiAction::Search)
        } else {
            (query.push(c), selected, TuiAction::Search)
        },
        Key::Enter => if selected < hit_count {
            (query, selected, TuiAction::Open(selected as usize))
        } else {
            (query, selected, TuiAction::Redraw)
        },
        Key::Up => (query, if selected > 0 { selected - 1 } else { 0 }, TuiAction::Redraw),
        Key::Down => {
            let last = if hit_count > 0 { hit_count - 1 } else { 0 };
            (query, if selected + 1 < last { selected + 1 } else { last }, TuiAction::Redraw)
        },
        Key::Backspace => (if query.len() > 0 { query.drop_last() } else { query }, selected, TuiAction::Search),
        Key::Other => (query, selected, TuiAction::Redraw),
    }
}

/// Whether a query is worth a search: it holds a character that is not
/// whitespace (a query that trims to nothing gives no hit).
pub open spec fn spec_should_search(query: Seq<char>) -> bool {
    exists|i: int| 0 <= i < query.len() && !spec_is_whitespace(#[trigger] query[i])
}

impl TuiState {
    pub open spec fn well_formed(&self) -> bool {
        selection_ok(self.selected as int, self.hit_count as int)
    }

    /// An empty query, no hit.
    pub fn new() -> (res: TuiState)
        ensures
            res.query@.len() == 0,
            res.hit_count == 0,
            res.selected == 0,
            res.well_formed(),
    {
        TuiState { query: String::new(), hit_count: 0, selected: 0 }
    }

    /// What a key does (see [`spec_on_key`]): Esc and Ctrl-C quit; Enter
    /// opens the selected hit, if any; the arrows move the selection within
    /// the hits; Ctrl-U clears the query, Backspace removes its last
    /// character, any other character is appended, and each of these asks
    /// for a new search.
    pub fn on_key(&mut self, key: Key) -> (res: TuiAction)
        requires
            old(self).well_formed(),
        ensures
            final(self).well_formed(),
            final(self).hit_count == old(self).hit_count,
            (final(self).query@, final(self).selected as int, res) == spec_on_key(
                old(self).query@,
                old(self).hit_count as int,
                old(self).selected as int,
                key,
            ),
    {
        match key {
            Key::Esc => TuiAction::Quit,
            Key::Char { c, ctrl } => {
                if ctrl && c == 'c' {
                    TuiAction::Quit
                } else if ctrl && c == 'u' {
                    self.query = String::new();
                    TuiAction::Search
                } else {
                    push_char(&mut self.query, c);
                    TuiAction::Search
                }
            },
            Key::Enter => {
                if self.selected < self.hit_count {
                    TuiAction::Open(self.selected)
                } else {
                    TuiAction::Redraw
                }
            },
            Key::Up => {
                if self.selected > 0 {
                    self.selected = self.selected - 1;
                }
                TuiAction::Redraw
            },
            Key::Down => {
                let last = if self.hit_count > 0 {
                    self.hit_count - 1
                } else {
                    0
                };
                self.selected = if self.selected + 1 < last {
                    self.selected + 1
                } else {
                    last
                };
                TuiAction::Redraw
            },
            Key::Backspace => {
                let chars = collect_chars(self.query.as_str());
                if chars.len() > 0 {
                    let n = chars.len() - 1;
                    let kept = self.query.as_str().substring_char(0, n).to_owned();
                    proof {
                        assert(kept@ == self.query@.drop_last());
                    }
                    self.query = kept;
                }
                TuiAction::Search
            },
            Key::Other => TuiAction::Redraw,
        }
    }

    /// A new list of `count` hits is shown; the selection goes back to the
    /// first.
    pub fn set_hits(&mut self, count: usize)
        ensures
            final(self).query@ == old(self).query@,
            final(self).hit_count == count,
            final(self).selected == 0,
            final(self).well_formed(),
    {
        self.hit_count = count;
        self.selected = 0;
    }

    /// The hit the list highlights: the selected one when there are hits.
    pub fn selection(&self) -> (res: Option<usize>)
        ensures
            res == (if self.hit_count > 0 {
                Some(self.selected)
            } else {
                None::<usize>
            }),
    {
        if self.hit_count > 0 {
            Some(self.selected)
        } else {
            None
        }
    }
}

/// Enter opens exactly the hit the list highlights: when a hit is
/// highlighted it is the one opened, and when none is, nothing opens.
pub proof fn law_enter_opens_the_highlighted_hit(query: Seq<char>, hit_count: int, selected: int)
    requires
        0 <= selected,
        0 <= hit_count,
        selection_ok(selected, hit_count),
    ensures
        hit_count > 0 ==> spec_on_key(query, hit_count, selected, Key::Enter).2 == TuiAction::Open(
            selected as usize,
        ),
        hit_count == 0 ==> spec_on_key(query, hit_count, selected, Key::Enter).2 == TuiAction::Redraw,
        spec_on_key(query, hit_count, selected, Key::Enter).0 == query,
{
}

/// The selection never leaves the hits, whatever key comes.
pub proof fn law_keys_keep_the_selection(query: Seq<char>, hit_count: int, selected: int, key: Key)
    requires
        0 <= selected,
        0 <= hit_count,
        selection_ok(selected, hit_count),
    ensures
        selection_ok(spec_on_key(query, hit_count, selected, key).1, hit_count),
{
}

/// Whether `query` is worth a search (see [`spec_should_search`]).
pub fn should_search(query: &str) -> (res: bool)
    ensures
        res == spec_should_search(query@),
{
    let chars = collect_chars(query);
    let mut i: usize = 0;
    while i < chars.len()
        invariant
            chars@ == query@,
            i <= chars@.len(),
            forall|j: int| 0 <= j < i ==> spec_is_whitespace(#[trigger] chars@[j]),
        decreases chars@.len() - i,
    {
        if !is_whitespace(chars[i]) {
            return true;
        }
        i = i + 1;
    }
    false
}

/// The text shown where a preview would be when no hit is selected.
pub open spec fn spec_placeholder(query: Seq<char>) -> Seq<char> {
    if spec_should_search(query) {
        "nothing found"@
    } else {
        "describe the file you're looking for…"@
    }
}

pub fn placeholder(query: &str) -> (res: &'static str)
    ensures
        res@ == spec_placeholder(query@),
{
    if should_search(query) {
        "nothing found"
    } else {
        "describe the file you're looking for…"
    }
}

/// The help line under the list.
pub open spec fn spec_help_line(count: nat) -> Seq<char> {
    decimal(count) + " result(s) — ↑↓ navigate · Enter open · Esc quit"@
}

pub fn help_line(count: usize) -> (res: String)
    ensures
        res@ == spec_help_line(count as nat),
{
    let mut out = String::new();
    push_decimal(&mut out, count as u128);
    out.append(" result(s) — ↑↓ navigate · Enter open · Esc quit");
    out
}

/// A line break or a tab shown as a space.
pub open spec fn clean_byte(b: u8) -> u8 {
    if b == 0x0a || b == 0x09 {
        0x20
    } else {
        b
    }
}

pub open spec fn clean(s: Seq<u8>) -> Seq<u8> {
    s.map_values(|b: u8| clean_byte(b))
}

/// The pieces of a preview, walking the sorted ranges from `cursor`: a
/// range that starts before the cursor or runs past the text is skipped;
/// otherwise the plain text before it (if any) and the range itself
/// (highlighted) are pieces; the rest of the text ends the line. Line
/// breaks and tabs become spaces.
pub open spec fn segments_from(text: Seq<u8>, rs: Seq<(usize, usize)>, cursor: int) -> Seq<(Seq<u8>, bool)>
    decreases rs.len(),
{
    if rs.len() == 0 {
        seq![(clean(text.subrange(cursor, text.len() as int)), false)]
    } else {
        let r = rs[0];
        if r.0 < cursor || r.1 > text.len() {
            segments_from(text, rs.drop_first(), cursor)
        } else {
            (if r.0 > cursor {
                seq![(clean(text.subrange(cursor, r.0 as int)), false)]
            } else {
                Seq::empty()
            }) + seq![(clean(text.subrange(r.0 as int, r.1 as int)), true)] + segments_from(
                text,
                rs.drop_first(),
                r.1 as int,
            )
        }
    }
}

/// The preview of a snippet: its pieces, each with whether it is a match.
pub open spec fn spec_snippet_segments(text: Seq<u8>, ranges: Seq<(usize, usize)>) -> Seq<(Seq<u8>, bool)> {
    segments_from(text, sort_by_start(ranges), 0)
}

pub open spec fn segment_views(s: Seq<(Vec<u8>, bool)>) -> Seq<(Seq<u8>, bool)> {
    s.map_values(|p: (Vec<u8>, bool)| (p.0@, p.1))
}

fn cleaned(bytes: &[u8]) -> (res: Vec<u8>)
    ensures
        res@ == clean(bytes@),
{
    let mut out: Vec<u8> = Vec::new();
    let mut i: usize = 0;
    while i < bytes.len()
        invariant
            i <= bytes@.len(),
            out@ == clean(bytes@.take(i as int)),
        decreases bytes@.len() - i,
    {
        let b = bytes[i];
        out.push(if b == 0x0a || b == 0x09 { 0x20 } else { b });
        proof {
            assert(clean(bytes@.take(i + 1)) =~= clean(bytes@.take(i as int)).push(clean_byte(b)));
        }
        i = i + 1;
    }
    proof {
        assert(bytes@.take(bytes@.len() as int) =~= bytes@);
    }
    out
}

/// The pieces of the preview of `text` with the matched byte ranges
/// `ranges` (see [`spec_snippet_segments`]).
pub fn snippet_segments(text: &str, ranges: &Vec<(usize, usize)>) -> (res: Vec<(Vec<u8>, bool)>)
    requires
        ranges_usable(text.spec_bytes().len() as int, ranges@),
    ensures
        segment_views(res@) == spec_snippet_segments(text.spec_bytes(), ranges@),
{
    let bytes = text.as_bytes();
    let sorted = sort_ranges(ranges);
    let n = bytes.len();
    let mut out: Vec<(Vec<u8>, bool)> = Vec::new();
    let mut cursor: usize = 0;
    let mut i: usize = 0;
    let ghost total = segments_from(bytes@, sorted@, 0);
    proof {
        assert(sorted@.skip(0) == sorted@);
    }
    while i < sorted.len()
        invariant
            n == bytes@.len(),
            cursor <= n,
            i <= sorted@.len(),
            usable_from(n as int, sorted@.skip(i as int), cursor as int),
            segment_views(out@) + segments_from(bytes@, sorted@.skip(i as int), cursor as int) == total,
        decreases sorted@.len() - i,
    {
        let (start, end) = sorted[i];
        proof {
            assert(sorted@.skip(i as int)[0] == sorted@[i as int]);
            assert(sorted@.skip(i as int).drop_first() == sorted@.skip(i + 1));
        }
        if start < cursor || end > n {
            i = i + 1;
            continue;
        }
        let ghost before = segment_views(out@);
        if start > cursor {
            let plain = cleaned(slice_subrange(bytes, cursor, start));
            out.push((plain, false));
        }
        let hit = cleaned(slice_subrange(bytes, start, end));
        out.push((hit, true));
        proof {
            let piece = if start > cursor {
                seq![(clean(bytes@.subrange(cursor as int, start as int)), false)]
            } else {
                Seq::empty()
            } + seq![(clean(bytes@.subrange(start as int, end as int)), true)];
            assert(segment_views(out@) =~= before + piece);
        }
        cursor = end;
        i = i + 1;
    }
    proof {
        assert(sorted@.skip(i as int).len() == 0);
    }
    let ghost before = segment_views(out@);
    let rest = cleaned(slice_subrange(bytes, cursor, n));
    out.push((rest, false));
    proof {
        assert(segment_views(out@) =~= before + seq![(clean(bytes@.subrange(cursor as int, n as int)), false)]);
    }
    out
}

}
