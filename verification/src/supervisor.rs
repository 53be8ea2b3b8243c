//! Lifecycle bookkeeping for the capture stream.
//!
//! The supervisor tracks whether a live stream is installed and under
//! which negotiated configuration.  While no stream is active the pipeline
//! runs degraded under a fallback configuration and produces no spectra.
//! Reacquisition is decided every tick; on success the stale buffered
//! samples are discarded so that no audio spanning the outage is analysed.

use vstd::prelude::*;
use crate::ring::SampleRingBuffer;

verus! {

/// Fallback sample rate while no stream could be negotiated, Hz.
pub const FALLBACK_SAMPLE_RATE: u32 = 44100;

/// Fallback channel count while no stream could be negotiated.
pub const FALLBACK_CHANNELS: u16 = 1;

/// A negotiated capture configuration.
#[derive(Clone, Copy, PartialEq, Eq, Structural, Debug)]
pub struct StreamConfig {
    /// Samples per second and channel.
    pub sample_rate: u32,
    /// Interleaved channels per frame.
    pub channels: u16,
}

/// Tracks the live capture stream's presence and configuration.
pub struct StreamSupervisor {
    active: bool,
    config: StreamConfig,
}

impl StreamSupervisor {
    /// Whether a live stream is currently installed.
    pub closed spec fn is_active(&self) -> bool {
        self.active
    }

    /// The configuration the pipeline currently runs under.
    pub closed spec fn config_spec(&self) -> StreamConfig {
        self.config
    }

    /// A supervisor in degraded mode, under the fallback configuration.
    pub fn new() -> (r: Self)
        ensures
            !r.is_active(),
            r.config_spec() == (StreamConfig {
                sample_rate: FALLBACK_SAMPLE_RATE,
                channels: FALLBACK_CHANNELS,
            }),
    {
        StreamSupervisor {
            active: false,
            config: StreamConfig { sample_rate: FALLBACK_SAMPLE_RATE, channels: FALLBACK_CHANNELS },
        }
    }

    /// Whether this tick must attempt (re)acquisition: there is no live
    /// stream, or the capture callback has signalled a failure.
    pub fn needs_rebuild(&self, failure_flagged: bool) -> (r: bool)
        ensures
            r == (!self.is_active() || failure_flagged),
    {
        !self.active || failure_flagged
    }

    /// The configuration the pipeline currently runs under.
    pub fn config(&self) -> (r: StreamConfig)
        ensures
            r == self.config_spec(),
    {
        self.config
    }

    /// Install a freshly acquired stream: adopt its negotiated
    /// configuration and discard every buffered sample, so that no audio
    /// spanning the outage is analysed.
    pub fn install(&mut self, config: StreamConfig, ring: &mut SampleRingBuffer)
        ensures
            final(self).is_active(),
            final(self).config_spec() == config,
            final(ring)@ == Seq::<i32>::empty(),
            final(ring).wf(),
    {
        ring.clear();
        self.active = true;
        self.config = config;
    }

    /// Record that acquisition failed or the stream was lost: the pipeline
    /// stays degraded under its current configuration and will retry.
    pub fn mark_failed(&mut self)
        ensures
            !final(self).is_active(),
            final(self).config_spec() == old(self).config_spec(),
    {
        self.active = false;
    }
}

} // verus!
