use vstd::prelude::*;

pub mod cache;
pub mod chunk;
pub mod cli;
pub mod config;
pub mod embed;
pub mod extract;
pub mod index;
pub mod json;
pub mod markup;
pub mod paths;
pub mod ranges;
pub mod reindex;
pub mod search;
pub mod spike;
pub mod state;
pub mod text;
pub mod tok;
pub mod tui;
pub mod vocab;
pub mod watch;

verus! {
}
