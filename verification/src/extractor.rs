//! The snapshot side of spectrum extraction.
//!
//! Each analysis tick either takes an immutable window of the most recent
//! [`WINDOW_SIZE`] samples for the external transform, or skips the tick
//! when too few samples are buffered — insufficiency is not an error.
//! Windowing and the transform itself operate on the snapshot outside the
//! buffer's critical section.

use vstd::prelude::*;
use crate::ring::SampleRingBuffer;

verus! {

broadcast use vstd::seq_lib::group_seq_properties;

/// Number of samples in one analysis window.
pub const WINDOW_SIZE: usize = 2048;

/// The window an analysis tick hands to the external transform: the most
/// recent [`WINDOW_SIZE`] buffered samples, oldest first, or `None` when
/// fewer are buffered, in which case the tick produces no spectrum.
pub fn extract_window(ring: &SampleRingBuffer) -> (r: Option<Vec<i32>>)
    ensures
        (match r {
            Some(w) => ring@.len() >= WINDOW_SIZE && w@ == ring@.skip(
                ring@.len() - WINDOW_SIZE,
            ) && w@.len() == WINDOW_SIZE,
            None => ring@.len() < WINDOW_SIZE,
        }),
{
    ring.latest(WINDOW_SIZE)
}

} // verus!
