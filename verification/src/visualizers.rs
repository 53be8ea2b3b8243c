//! The verified side of the presentation styles: each style reduces the
//! spectrum to a handful of scaled band levels that drive its geometry.
//!
//! The drawing itself — trigonometry, colours, terminal canvases — is
//! floating-point presentation work done by the consumer; what is checked
//! here is which band of the spectrum feeds which visual element, and at
//! which gain.

use vstd::prelude::*;
use crate::spectrum::{Spectrum, band_energy};

verus! {

/// Mirrored-waveform style; its logarithmic point binning is pure
/// presentation geometry computed by the consumer.
pub struct WaveformVisualizer;

/// Five stacked ribbons, one per frequency band.
pub struct SpectralRibbons;

/// A Lissajous figure whose two frequencies follow the bass and the highs.
pub struct LissajousInterference;

/// The Lissajous figure with trails and an orbit modulation.
pub struct LissajousEnhanced;

/// Three twisted strands rippling with the bass and the highs.
pub struct ResonantHelix;

/// Scaled band levels driving the five ribbons, in millionths.
#[derive(Clone, Copy, PartialEq, Eq, Structural, Debug)]
pub struct RibbonLevels {
    /// Deep sub bass, 20–60 Hz, gain 600.
    pub sub_bass: u64,
    /// Bass, 60–250 Hz, gain 500.
    pub bass: u64,
    /// Mids, 250–2000 Hz, gain 1000.
    pub mids: u64,
    /// Upper mids, 2000–6000 Hz, gain 1500.
    pub upper_mids: u64,
    /// Highs, 6000–15000 Hz, gain 3000.
    pub highs: u64,
}

/// The bass and high band levels a Lissajous style bends its two
/// frequencies with, in millionths.
#[derive(Clone, Copy, PartialEq, Eq, Structural, Debug)]
pub struct LissajousDrive {
    /// Scaled 20–150 Hz band level.
    pub bass: u64,
    /// Scaled 2000–10000 Hz band level.
    pub highs: u64,
}

impl SpectralRibbons {
    /// A fresh ribbons style.
    pub fn new() -> Self {
        SpectralRibbons
    }

    /// The five scaled band levels of this tick's spectrum.
    pub fn levels(&self, spectrum: &Spectrum) -> (r: RibbonLevels)
        ensures
            r.sub_bass == 600 * band_energy(spectrum@, 20, 60),
            r.bass == 500 * band_energy(spectrum@, 60, 250),
            r.mids == 1000 * band_energy(spectrum@, 250, 2000),
            r.upper_mids == 1500 * band_energy(spectrum@, 2000, 6000),
            r.highs == 3000 * band_energy(spectrum@, 6000, 15000),
    {
        RibbonLevels {
            sub_bass: 600 * spectrum.band_energy(20, 60),
            bass: 500 * spectrum.band_energy(60, 250),
            mids: 1000 * spectrum.band_energy(250, 2000),
            upper_mids: 1500 * spectrum.band_energy(2000, 6000),
            highs: 3000 * spectrum.band_energy(6000, 15000),
        }
    }
}

impl LissajousInterference {
    /// A fresh Lissajous style.
    pub fn new() -> Self {
        LissajousInterference
    }

    /// The two scaled band levels bending this tick's figure.
    pub fn drive(&self, spectrum: &Spectrum) -> (r: LissajousDrive)
        ensures
            r.bass == 400 * band_energy(spectrum@, 20, 150),
            r.highs == 2000 * band_energy(spectrum@, 2000, 10000),
    {
        LissajousDrive {
            bass: 400 * spectrum.band_energy(20, 150),
            highs: 2000 * spectrum.band_energy(2000, 10000),
        }
    }
}

impl LissajousEnhanced {
    /// A fresh enhanced Lissajous style.
    pub fn new() -> Self {
        LissajousEnhanced
    }

    /// The two scaled band levels bending this tick's figure.
    pub fn drive(&self, spectrum: &Spectrum) -> (r: LissajousDrive)
        ensures
            r.bass == 450 * band_energy(spectrum@, 20, 150),
            r.highs == 2500 * band_energy(spectrum@, 2000, 10000),
    {
        LissajousDrive {
            bass: 450 * spectrum.band_energy(20, 150),
            highs: 2500 * spectrum.band_energy(2000, 10000),
        }
    }
}

impl ResonantHelix {
    /// A fresh helix style.
    pub fn new() -> Self {
        ResonantHelix
    }

    /// The two scaled band levels twisting this tick's strands.
    pub fn drive(&self, spectrum: &Spectrum) -> (r: LissajousDrive)
        ensures
            r.bass == 600 * band_energy(spectrum@, 20, 150),
            r.highs == 3000 * band_energy(spectrum@, 2000, 10000),
    {
        LissajousDrive {
            bass: 600 * spectrum.band_energy(20, 150),
            highs: 3000 * spectrum.band_energy(2000, 10000),
        }
    }
}

} // verus!
