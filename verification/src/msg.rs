//! What the sampler, the view and the background work say to each other.
use std::sync::Arc;
use vstd::prelude::*;

use crate::model::Snapshot;

verus! {

/// From the sampler to the view. Errors of a data source ride inside the snapshot, so
/// that they show persistently.
pub enum SamplerMsg {
    Snapshot(Arc<Snapshot>),
}

/// From the view to the sampler.
#[derive(Clone, Copy, Debug, PartialEq, Eq, Structural)]
pub enum SamplerCtl {
    /// Build a snapshot now instead of waiting out the pause.
    Refresh,
}

/// From background work to the view.
#[derive(Debug)]
pub enum UiEvent {
    /// A line for the status bar.
    Status(String),
    /// What the search for a project's log found.
    LogReady { project: String, path: Option<String> },
}

} // verus!
