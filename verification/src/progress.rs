//! Asset-loading progress bookkeeping.
//!
//! While assets load, one system turns the load state of the tracked text
//! asset into progress units, and another reports the progress counter's
//! `done` value whenever it has advanced past the last value it printed.

use vstd::prelude::*;

verus! {

/// The load state of a tracked asset, as the asset server reports it.
#[derive(Clone, Copy, PartialEq, Eq, Structural, Debug)]
pub enum TextLoadState {
    NotLoaded,
    Loading,
    Loaded,
    Failed,
}

/// Progress units handed to the progress counter: `done` steps out of `total`.
#[derive(Clone, Copy, PartialEq, Eq, Structural, Debug)]
pub struct ProgressUnits {
    pub done: u32,
    pub total: u32,
}

/// The progress contributed by the text collection: one unit, done exactly
/// when the collection exists and its tracked asset has finished loading.
/// `state` is `None` while the collection itself is not yet available.
pub fn text_collection_progress(state: Option<TextLoadState>) -> (p: ProgressUnits)
    ensures
        p.total == 1,
        p.done <= 1,
        p.done == 1 <==> state == Some(TextLoadState::Loaded),
{
    match state {
        Some(TextLoadState::Loaded) => ProgressUnits { done: 1, total: 1 },
        _ => ProgressUnits { done: 0, total: 1 },
    }
}

/// Whether a newly observed `done` count should be reported, and the value to
/// remember as the last one reported: a report happens exactly when `done`
/// moved past `last_reported`, and the remembered value never goes backwards.
pub fn progress_advance(done: u32, last_reported: u32) -> (r: (bool, u32))
    ensures
        r.0 == (done > last_reported),
        r.1 == (if done > last_reported { done } else { last_reported }),
{
    if done > last_reported {
        (true, done)
    } else {
        (false, last_reported)
    }
}

} // verus!
