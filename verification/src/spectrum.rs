//! The frequency-magnitude spectrum of one analysis window, and queries
//! over frequency bands.
//!
//! A spectrum is produced fresh per tick by an external transform; the
//! pipeline only reads it.  Frequencies are whole Hz, magnitudes are
//! non-negative fixed-point values in millionths of a unit.

use vstd::prelude::*;

verus! {

/// One frequency bin: frequency in whole Hz, magnitude in millionths.
#[derive(Clone, Copy, PartialEq, Eq, Structural, Debug)]
pub struct SpectrumBin {
    /// Frequency of the bin in Hz.
    pub freq_hz: u32,
    /// Magnitude of the bin, in millionths of a unit; never negative.
    pub magnitude: u32,
}

/// A frequency-magnitude spectrum for one analysis window, bins in
/// ascending frequency order as delivered by the transform.
pub struct Spectrum {
    bins: Vec<SpectrumBin>,
}

impl View for Spectrum {
    type V = Seq<SpectrumBin>;

    closed spec fn view(&self) -> Seq<SpectrumBin> {
        self.bins@
    }
}

/// Whether a bin frequency lies in the inclusive band `[lo, hi]`.
pub open spec fn in_band(freq: u32, lo: u32, hi: u32) -> bool {
    lo <= freq <= hi
}

/// Sum of the magnitudes of the bins whose frequency lies in `[lo, hi]`.
pub open spec fn band_sum(bins: Seq<SpectrumBin>, lo: u32, hi: u32) -> int
    decreases bins.len(),
{
    if bins.len() == 0 {
        0
    } else {
        band_sum(bins.drop_last(), lo, hi) + if in_band(bins.last().freq_hz, lo, hi) {
            bins.last().magnitude as int
        } else {
            0
        }
    }
}

/// Number of bins whose frequency lies in `[lo, hi]`.
pub open spec fn band_count(bins: Seq<SpectrumBin>, lo: u32, hi: u32) -> int
    decreases bins.len(),
{
    if bins.len() == 0 {
        0
    } else {
        band_count(bins.drop_last(), lo, hi) + if in_band(bins.last().freq_hz, lo, hi) {
            1int
        } else {
            0int
        }
    }
}

/// Average magnitude over the bins in `[lo, hi]`, zero when the band is
/// empty.
pub open spec fn band_energy(bins: Seq<SpectrumBin>, lo: u32, hi: u32) -> int {
    if band_count(bins, lo, hi) == 0 {
        0
    } else {
        band_sum(bins, lo, hi) / band_count(bins, lo, hi)
    }
}

/// A band sum is non-negative and at most one maximal magnitude per
/// counted bin; the count never exceeds the number of bins.
pub proof fn lemma_band_bounds(bins: Seq<SpectrumBin>, lo: u32, hi: u32)
    ensures
        0 <= band_count(bins, lo, hi) <= bins.len(),
        0 <= band_sum(bins, lo, hi) <= band_count(bins, lo, hi) * (u32::MAX as int),
    decreases bins.len(),
{
    if bins.len() > 0 {
        lemma_band_bounds(bins.drop_last(), lo, hi);
        let c = band_count(bins.drop_last(), lo, hi);
        assert((c + 1) * (u32::MAX as int) == c * (u32::MAX as int) + u32::MAX) by (nonlinear_arith);
    }
}

/// The average of a non-negative sum over `count` values, each at most
/// `m`, lies between zero and `m`.
pub proof fn lemma_avg_bounded(sum: int, count: int, m: int)
    requires
        0 < count,
        0 <= sum <= count * m,
        0 <= m,
    ensures
        0 <= sum / count <= m,
{
    vstd::arithmetic::div_mod::lemma_div_is_ordered(sum, count * m, count);
    vstd::arithmetic::div_mod::lemma_div_multiples_vanish(m, count);
    vstd::arithmetic::div_mod::lemma_div_pos_is_pos(sum, count);
}

/// The first bin of maximal magnitude, as `(frequency, magnitude)`;
/// `(0, 0)` when the spectrum is empty or silent.
pub open spec fn peak_pair(bins: Seq<SpectrumBin>) -> (u32, u32)
    decreases bins.len(),
{
    if bins.len() == 0 {
        (0u32, 0u32)
    } else {
        let p = peak_pair(bins.drop_last());
        if bins.last().magnitude > p.1 {
            (bins.last().freq_hz, bins.last().magnitude)
        } else {
            p
        }
    }
}

impl Spectrum {
    /// Wrap a list of frequency bins as a spectrum.
    pub fn new(bins: Vec<SpectrumBin>) -> (s: Spectrum)
        ensures
            s@ == bins@,
    {
        Spectrum { bins }
    }

    /// Number of bins in the spectrum.
    pub fn bin_count(&self) -> (r: usize)
        ensures
            r == self@.len(),
    {
        self.bins.len()
    }

    /// The bin at a given position.
    pub fn bin_at(&self, i: usize) -> (r: SpectrumBin)
        requires
            i < self@.len(),
        ensures
            r == self@[i as int],
    {
        self.bins[i]
    }

    /// Average magnitude over the bins whose frequency lies in the
    /// inclusive band `[lo, hi]`; zero when no bin falls in the band.
    pub fn band_energy(&self, lo: u32, hi: u32) -> (r: u64)
        ensures
            r == band_energy(self@, lo, hi),
            r <= u32::MAX,
    {
        let n = self.bins.len();
        let mut sum: u128 = 0;
        let mut count: usize = 0;
        let mut i: usize = 0;
        while i < n
            invariant
                i <= n,
                n == self@.len(),
                sum == band_sum(self@.take(i as int), lo, hi),
                count == band_count(self@.take(i as int), lo, hi),
            decreases n - i,
        {
            let ghost pre = self@.take(i as int);
            proof {
                assert(self@.take(i + 1).drop_last() =~= pre);
                assert(self@.take(i + 1).last() == self@[i as int]);
                lemma_band_bounds(pre, lo, hi);
            }
            let b = self.bins[i];
            if lo <= b.freq_hz && b.freq_hz <= hi {
                proof {
                    assert(count * (u32::MAX as int) <= n * (u32::MAX as int)) by (nonlinear_arith)
                        requires
                            0 <= count <= n,
                    ;
                }
                sum = sum + b.magnitude as u128;
                count = count + 1;
            }
            i = i + 1;
        }
        proof {
            assert(self@.take(n as int) =~= self@);
            lemma_band_bounds(self@, lo, hi);
            if count > 0 {
                lemma_avg_bounded(sum as int, count as int, u32::MAX as int);
            }
        }
        if count == 0 {
            0
        } else {
            (sum / (count as u128)) as u64
        }
    }
}

/// The frequency and magnitude of the loudest bin; when several bins tie,
/// the lowest-frequency one among the first encountered wins, and a fully
/// silent spectrum reports `(0, 0)`.
pub fn get_peak_frequency(spectrum: &Spectrum) -> (r: (u32, u32))
    ensures
        r == peak_pair(spectrum@),
{
    let n = spectrum.bin_count();
    let mut freq: u32 = 0;
    let mut mag: u32 = 0;
    let mut i: usize = 0;
    while i < n
        invariant
            i <= n,
            n == spectrum@.len(),
            (freq, mag) == peak_pair(spectrum@.take(i as int)),
        decreases n - i,
    {
        proof {
            assert(spectrum@.take(i + 1).drop_last() =~= spectrum@.take(i as int));
            assert(spectrum@.take(i + 1).last() == spectrum@[i as int]);
        }
        let b = spectrum.bin_at(i);
        if b.magnitude > mag {
            freq = b.freq_hz;
            mag = b.magnitude;
        }
        i = i + 1;
    }
    proof {
        assert(spectrum@.take(n as int) =~= spectrum@);
    }
    (freq, mag)
}

} // verus!
