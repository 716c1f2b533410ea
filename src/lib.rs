//! Live session state for a motorsport timing feed: partial updates are
//! normalised and merged into one canonical document, snapshots of it are
//! stamped and kept in time order, and per-driver series and recent history
//! are read back from the snapshots.
use vstd::prelude::*;

pub mod feed;
pub mod json;
pub mod keeper;
pub mod merge;
pub mod merge_lemmas;
pub mod project;
pub mod query;
pub mod render;
pub mod state;

verus! {

} // verus!
