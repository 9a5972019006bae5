//! The runtime instance plan a playback session is mixed from.

use vstd::prelude::*;

use crate::source_key::ShuffleSource;

verus! {

/// A half-open active window of an instance, in milliseconds of the
/// playback timeline (`end_ms` of `None` means open-ended).
#[derive(Debug, Clone, Copy)]
pub struct ActiveWindow {
    pub start_ms: u64,
    pub end_ms: Option<u64>,
}

/// One scheduled occurrence of a source on a logical track.
#[derive(Debug)]
pub struct RuntimeInstanceMeta {
    pub instance_id: usize,
    pub logical_track_index: usize,
    pub slot_index: usize,
    pub source_key: ShuffleSource,
    pub active_windows: Vec<ActiveWindow>,
    pub selection_index: usize,
    pub occurrence_index: usize,
}

/// All instances of a playback session, grouped into logical tracks.
#[derive(Debug)]
pub struct RuntimeInstancePlan {
    pub logical_track_count: usize,
    pub instances: Vec<RuntimeInstanceMeta>,
    pub event_boundaries_ms: Vec<u64>,
}

/// A scheduled change of the sources playing in each slot.
#[derive(Debug)]
pub struct ShuffleScheduleEntry {
    /// Playback position of the change, in milliseconds.
    pub at_ms: u64,
    /// The source of each slot from then on.
    pub sources: Vec<ShuffleSource>,
}

} // verus!
