//! The decisions of `mikke watch`: which file-system events matter, and
//! when a burst of them has settled enough to reindex.
//!
//! The watcher, the channel and the clock belong to the caller, which hands
//! each event (or the end of a quiet wait) to [`watch_step`] and does what
//! it answers.

use vstd::prelude::*;

use crate::paths::{file_name, spec_file_name};

verus! {

/// Seconds without an event before a burst counts as over.
pub const DEBOUNCE_SECS: u64 = 2;

/// A path names a file that is not hidden (editor locks, `.part` files and
/// the like start with a dot).
pub open spec fn visible_path(p: Seq<char>) -> bool {
    spec_file_name(p) matches Some(n) && !(n.len() > 0 && n[0] == '.')
}

/// Whether an event calls for a look: a watcher error always does (better
/// look again); otherwise one of its paths must name a visible file.
pub open spec fn spec_interesting(paths: Option<Seq<Seq<char>>>) -> bool {
    match paths {
        None => true,
        Some(ps) => any_visible(ps),
    }
}

/// One of the paths names a visible file.
pub open spec fn any_visible(ps: Seq<Seq<char>>) -> bool {
    exists|i: int| 0 <= i < ps.len() && visible_path(#[trigger] ps[i])
}

pub open spec fn path_views(ps: Seq<String>) -> Seq<Seq<char>> {
    ps.map_values(|p: String| p@)
}

/// Whether the event with these paths (`None` for a watcher error) is
/// worth reindexing for (see [`spec_interesting`]).
pub fn interesting(paths: Option<&Vec<String>>) -> (res: bool)
    ensures
        res == spec_interesting(
            match paths {
                Some(ps) => Some(path_views(ps@)),
                None => None,
            },
        ),
{
    match paths {
        None => true,
        Some(ps) => names_visible_file(ps),
    }
}

fn names_visible_file(ps: &Vec<String>) -> (res: bool)
    ensures
        res == any_visible(path_views(ps@)),
{
    let ghost views = path_views(ps@);
    let mut i: usize = 0;
    while i < ps.len()
        invariant
            views == path_views(ps@),
            i <= ps@.len(),
            forall|j: int| 0 <= j < i ==> !visible_path(#[trigger] views[j]),
        decreases ps@.len() - i,
    {
        let name = file_name(ps[i].as_str());
        let visible = match &name {
            Some(n) => !(n.len() > 0 && n[0] == '.'),
            None => false,
        };
        proof {
            assert(views[i as int] == ps@[i as int]@);
            assert(visible == visible_path(views[i as int]));
        }
        if visible {
            return true;
        }
        i = i + 1;
    }
    false
}

/// Where the watch loop stands.
#[derive(Debug, Clone, Copy, PartialEq, Eq)]
pub enum WatchPhase {
    /// Waiting for an event, for as long as it takes.
    Idle,
    /// A relevant event came: waiting for the burst to end.
    Settling,
}

/// What the watcher told the loop.
#[derive(Debug, Clone, Copy, PartialEq, Eq)]
pub enum WatchInput {
    /// An event, relevant or not.
    Event { relevant: bool },
    /// [`DEBOUNCE_SECS`] passed without an event.
    Quiet,
    /// The watcher is gone.
    Closed,
}

/// What the loop does next.
#[derive(Debug, Clone, Copy, PartialEq, Eq)]
pub enum WatchAction {
    /// Wait for the next event without a time limit.
    Wait,
    /// Wait for the next event, at most [`DEBOUNCE_SECS`].
    WaitQuiet,
    /// Reindex, then wait for the next event.
    Reindex,
    /// Stop with an error: the watcher stopped.
    Stop,
}

/// One step of the loop: idle, an irrelevant event changes nothing and a
/// relevant one starts settling; settling, every event extends the wait and
/// a quiet period ends it with a reindex. A closed watcher stops the loop.
pub open spec fn spec_watch_step(phase: WatchPhase, input: WatchInput) -> (WatchPhase, WatchAction) {
    match input {
        WatchInput::Closed => (phase, WatchAction::Stop),
        WatchInput::Event { relevant } => match phase {
            WatchPhase::Idle => if relevant {
                (WatchPhase::Settling, WatchAction::WaitQuiet)
            } else {
                (WatchPhase::Idle, WatchAction::Wait)
            },
            WatchPhase::Settling => (WatchPhase::Settling, WatchAction::WaitQuiet),
        },
        WatchInput::Quiet => match phase {
            WatchPhase::Idle => (WatchPhase::Idle, WatchAction::Wait),
            WatchPhase::Settling => (WatchPhase::Idle, WatchAction::Reindex),
        },
    }
}

pub fn watch_step(phase: WatchPhase, input: WatchInput) -> (res: (WatchPhase, WatchAction))
    ensures
        res == spec_watch_step(phase, input),
{
    match input {
        WatchInput::Closed => (phase, WatchAction::Stop),
        WatchInput::Event { relevant } => match phase {
            WatchPhase::Idle => if relevant {
                (WatchPhase::Settling, WatchAction::WaitQuiet)
            } else {
                (WatchPhase::Idle, WatchAction::Wait)
            },
            WatchPhase::Settling => (WatchPhase::Settling, WatchAction::WaitQuiet),
        },
        WatchInput::Quiet => match phase {
            WatchPhase::Idle => (WatchPhase::Idle, WatchAction::Wait),
            WatchPhase::Settling => (WatchPhase::Idle, WatchAction::Reindex),
        },
    }
}

/// A reindex happens only after a relevant event, and only once the burst
/// is over: from any phase, a step that reindexes started from settling on
/// a quiet period, and leaves the loop idle.
pub proof fn law_reindex_only_when_settled(phase: WatchPhase, input: WatchInput)
    ensures
        spec_watch_step(phase, input).1 == WatchAction::Reindex ==> phase == WatchPhase::Settling
            && input == WatchInput::Quiet && spec_watch_step(phase, input).0 == WatchPhase::Idle,
        phase == WatchPhase::Idle && input == (WatchInput::Event { relevant: false })
            ==> spec_watch_step(phase, input) == (WatchPhase::Idle, WatchAction::Wait),
{
}

}
