//! Adaptive beat detection over successive spectra.
//!
//! Each tick the detector reduces the spectrum to one weighted low-band
//! energy reading, compares it against a dynamic threshold derived from the
//! rolling mean and variance of recent readings, and maintains the accepted
//! beat bookkeeping (debounced count, inter-beat intervals, tempo estimate).
//!
//! All quantities are fixed-point: energies in millionths of a unit,
//! sensitivity in thousandths, tempo in thousandths of a beat per minute.

use vstd::prelude::*;
use crate::spectrum::{Spectrum, SpectrumBin, band_count, in_band, lemma_avg_bounded};

verus! {

broadcast use vstd::seq_lib::group_seq_properties;

/// Low edge of the beat band, Hz.
pub const LOW_BAND_LO_HZ: u32 = 20;

/// High edge of the beat band, Hz.
pub const LOW_BAND_HI_HZ: u32 = 150;

/// Bins at or below this frequency carry kick-drum fundamentals and are
/// weighted by three halves.
pub const KICK_EMPHASIS_HZ: u32 = 60;

/// Absolute floor, in millionths, below which a reading is never a beat.
pub const ENERGY_FLOOR: u64 = 10_000;

/// Sensitivity is carried in thousandths: 1500 stands for one and a half.
pub const SENSITIVITY_SCALE: u64 = 1000;

/// Minimum gap in milliseconds between two counted beats.
pub const DEBOUNCE_MS: u64 = 300;

/// Capacity of the accepted inter-beat interval history.
pub const MAX_INTERVALS: usize = 10;

/// Upper bound on the configurable energy-history capacity, so that sums
/// of squared deviations stay within machine range.
pub const MAX_HISTORY: usize = 1_000_000;

/// Largest value one weighted low-band reading can take: three halves of
/// the largest bin magnitude.
pub const MAX_ENERGY: u64 = 3 * 4294967295 / 2;

/// The magnitude of one bin as the low-band rule weighs it: bins at or
/// below [`KICK_EMPHASIS_HZ`] count three halves, the rest count as is.
pub open spec fn weighted_magnitude(b: SpectrumBin) -> int {
    if b.freq_hz <= KICK_EMPHASIS_HZ {
        (3 * b.magnitude) / 2
    } else {
        b.magnitude as int
    }
}

/// Sum of weighted magnitudes over the bins in the beat band.
pub open spec fn low_band_weighted_sum(bins: Seq<SpectrumBin>) -> int
    decreases bins.len(),
{
    if bins.len() == 0 {
        0
    } else {
        low_band_weighted_sum(bins.drop_last()) + if in_band(
            bins.last().freq_hz,
            LOW_BAND_LO_HZ,
            LOW_BAND_HI_HZ,
        ) {
            weighted_magnitude(bins.last())
        } else {
            0
        }
    }
}

/// Number of bins in the beat band.
pub open spec fn low_band_bins(bins: Seq<SpectrumBin>) -> int {
    band_count(bins, LOW_BAND_LO_HZ, LOW_BAND_HI_HZ)
}

/// Weighted average magnitude over the beat band; meaningful only when the
/// band is non-empty.
pub open spec fn low_band_energy(bins: Seq<SpectrumBin>) -> int {
    low_band_weighted_sum(bins) / low_band_bins(bins)
}

/// Sum of a sequence of readings.
pub open spec fn seq_sum(s: Seq<u64>) -> int
    decreases s.len(),
{
    if s.len() == 0 {
        0
    } else {
        seq_sum(s.drop_last()) + s.last()
    }
}

/// Mean of a non-empty sequence of readings, rounded down.
pub open spec fn mean_of(s: Seq<u64>) -> int {
    seq_sum(s) / s.len() as int
}

/// Squared deviation of one reading from a mean.
pub open spec fn dev_sq(x: u64, mu: int) -> int {
    (x - mu) * (x - mu)
}

/// Sum of squared deviations from `mu`.
pub open spec fn dev_sq_sum(s: Seq<u64>, mu: int) -> int
    decreases s.len(),
{
    if s.len() == 0 {
        0
    } else {
        dev_sq_sum(s.drop_last(), mu) + dev_sq(s.last(), mu)
    }
}

/// Population variance of a non-empty sequence of readings, rounded down.
pub open spec fn variance_of(s: Seq<u64>) -> int {
    dev_sq_sum(s, mean_of(s)) / s.len() as int
}

/// Integer square root, rounded down.
pub open spec fn sqrt_floor(n: nat) -> nat
    decreases n,
{
    if n == 0 {
        0
    } else {
        let r = sqrt_floor((n - 1) as nat);
        if (r + 1) * (r + 1) <= n {
            (r + 1) as nat
        } else {
            r
        }
    }
}

/// `sqrt_floor` brackets its argument between consecutive squares.
pub proof fn lemma_sqrt_floor_bounds(n: nat)
    ensures
        sqrt_floor(n) * sqrt_floor(n) <= n,
        n < (sqrt_floor(n) + 1) * (sqrt_floor(n) + 1),
    decreases n,
{
    if n > 0 {
        lemma_sqrt_floor_bounds((n - 1) as nat);
        let r = sqrt_floor((n - 1) as nat);
        if (r + 1) * (r + 1) <= n {
            assert(sqrt_floor(n) == r + 1);
            assert(n - 1 < (r + 1) * (r + 1));
            assert(n < (r + 2) * (r + 2)) by (nonlinear_arith)
                requires
                    n - 1 < (r + 1) * (r + 1),
                    r >= 0,
            ;
            assert((sqrt_floor(n) + 1) * (sqrt_floor(n) + 1) == (r + 2) * (r + 2))
                by (nonlinear_arith)
                requires
                    sqrt_floor(n) == r + 1,
            ;
            assert(sqrt_floor(n) * sqrt_floor(n) == (r + 1) * (r + 1)) by (nonlinear_arith)
                requires
                    sqrt_floor(n) == r + 1,
            ;
        } else {
            assert(sqrt_floor(n) == r);
            assert(r * r <= n - 1 <= n);
            assert(n < (r + 1) * (r + 1));
            assert((sqrt_floor(n) + 1) * (sqrt_floor(n) + 1) == (r + 1) * (r + 1))
                by (nonlinear_arith)
                requires
                    sqrt_floor(n) == r,
            ;
            assert(sqrt_floor(n) * sqrt_floor(n) == r * r) by (nonlinear_arith)
                requires
                    sqrt_floor(n) == r,
            ;
        }
    } else {
        assert(sqrt_floor(n) == 0);
        assert(n < (sqrt_floor(n) + 1) * (sqrt_floor(n) + 1)) by (nonlinear_arith)
            requires
                n == 0,
                sqrt_floor(n) == 0,
        ;
    }
}

/// Any integer bracketed between the same consecutive squares is the
/// rounded-down square root.
pub proof fn lemma_sqrt_floor_unique(n: nat, r: nat)
    requires
        r * r <= n,
        n < (r + 1) * (r + 1),
    ensures
        r == sqrt_floor(n),
{
    lemma_sqrt_floor_bounds(n);
    let s = sqrt_floor(n);
    assert(r == s) by (nonlinear_arith)
        requires
            r * r <= n,
            n < (r + 1) * (r + 1),
            s * s <= n,
            n < (s + 1) * (s + 1),
            r >= 0,
            s >= 0,
    ;
}

/// The per-tick decision boundary: sensitivity times the rolling mean plus
/// half the rolling standard deviation.
pub open spec fn dynamic_threshold(sensitivity_milli: u32, mean: int, variance: int) -> int {
    (sensitivity_milli * mean) / SENSITIVITY_SCALE as int + sqrt_floor(variance as nat) / 2
}

/// Milliseconds since the last counted beat; zero if the clock reads
/// earlier than that beat.
pub open spec fn elapsed_since(last_ms: u64, now_ms: u64) -> int {
    if now_ms >= last_ms {
        now_ms - last_ms
    } else {
        0
    }
}

/// Append a reading to a bounded FIFO, evicting the oldest entry once the
/// capacity is exceeded.
pub open spec fn push_bounded(s: Seq<u64>, x: u64, cap: int) -> Seq<u64> {
    let t = s.push(x);
    if t.len() > cap {
        t.skip(1)
    } else {
        t
    }
}

/// The abstract state of the beat detector.
#[verifier::ext_equal]
pub struct DetectorModel {
    /// Recent low-band energy readings, oldest first.
    pub history: Seq<u64>,
    /// Capacity of `history`.
    pub history_size: usize,
    /// Threshold sensitivity in thousandths.
    pub sensitivity_milli: u32,
    /// Clock reading of the last counted beat, ms.
    pub last_beat_ms: u64,
    /// Accepted inter-beat intervals in ms, oldest first.
    pub intervals: Seq<u64>,
    /// Number of beats counted so far.
    pub total_beats: u64,
}

impl DetectorModel {
    /// Structural soundness of a detector state: histories within their
    /// capacities, readings within range, intervals beyond the debounce gap.
    pub open spec fn wf(self) -> bool {
        &&& 1 <= self.history_size <= MAX_HISTORY
        &&& self.history.len() <= self.history_size
        &&& (forall|i: int| 0 <= i < self.history.len() ==> self.history[i] <= MAX_ENERGY)
        &&& self.intervals.len() <= MAX_INTERVALS
        &&& (forall|i: int| 0 <= i < self.intervals.len() ==> self.intervals[i] > DEBOUNCE_MS)
    }
}

/// One detector step: the state after a tick and the raw beat flag the
/// tick reports.
#[verifier::ext_equal]
pub struct StepOutcome {
    /// Detector state after the tick.
    pub state: DetectorModel,
    /// The raw (undebounced) beat flag of the tick.
    pub is_beat: bool,
}

/// What one tick does, given the bins of the spectrum and the clock:
/// compute the weighted low-band energy, seed or consult the rolling
/// statistics, push the reading, and debounce the counted-beat bookkeeping.
pub open spec fn detect_step(s: DetectorModel, bins: Seq<SpectrumBin>, now_ms: u64) -> StepOutcome {
    if low_band_bins(bins) == 0 {
        StepOutcome { state: s, is_beat: false }
    } else {
        let e = low_band_energy(bins);
        if s.history.len() == 0 {
            StepOutcome {
                state: DetectorModel { history: s.history.push(e as u64), ..s },
                is_beat: false,
            }
        } else {
            let thr = dynamic_threshold(s.sensitivity_milli, mean_of(s.history), variance_of(s.history));
            let h2 = push_bounded(s.history, e as u64, s.history_size as int);
            let raw = e > thr && e > ENERGY_FLOOR;
            let gap = elapsed_since(s.last_beat_ms, now_ms);
            if raw && gap > DEBOUNCE_MS {
                StepOutcome {
                    state: DetectorModel {
                        history: h2,
                        intervals: push_bounded(s.intervals, gap as u64, MAX_INTERVALS as int),
                        last_beat_ms: now_ms,
                        total_beats: if s.total_beats < u64::MAX {
                            (s.total_beats + 1) as u64
                        } else {
                            s.total_beats
                        },
                        ..s
                    },
                    is_beat: true,
                }
            } else {
                StepOutcome { state: DetectorModel { history: h2, ..s }, is_beat: raw }
            }
        }
    }
}

/// Bounds on the weighted low-band reduction: at most one maximal
/// weighted magnitude per counted bin.
pub proof fn lemma_low_band_bounds(bins: Seq<SpectrumBin>)
    ensures
        0 <= low_band_bins(bins) <= bins.len(),
        0 <= low_band_weighted_sum(bins) <= low_band_bins(bins) * (MAX_ENERGY as int),
    decreases bins.len(),
{
    crate::spectrum::lemma_band_bounds(bins, LOW_BAND_LO_HZ, LOW_BAND_HI_HZ);
    if bins.len() > 0 {
        lemma_low_band_bounds(bins.drop_last());
        let b = bins.last();
        vstd::arithmetic::div_mod::lemma_div_is_ordered(
            3 * b.magnitude,
            3 * 4294967295int,
            2,
        );
        vstd::arithmetic::div_mod::lemma_div_pos_is_pos(3 * b.magnitude, 2);
        let c = low_band_bins(bins.drop_last());
        assert((c + 1) * (MAX_ENERGY as int) == c * (MAX_ENERGY as int) + MAX_ENERGY)
            by (nonlinear_arith);
    }
}

/// A sum of readings, each at most `m`, is at most `m` per reading.
pub proof fn lemma_seq_sum_bounds(s: Seq<u64>, m: int)
    requires
        forall|i: int| 0 <= i < s.len() ==> s[i] <= m,
        0 <= m,
    ensures
        0 <= seq_sum(s) <= s.len() * m,
    decreases s.len(),
{
    if s.len() > 0 {
        lemma_seq_sum_bounds(s.drop_last(), m);
        let k = s.len() - 1;
        assert(s.len() * m == k * m + m) by (nonlinear_arith)
            requires
                k == s.len() - 1,
        ;
    }
}

/// A sum of squared deviations of readings in `[0, m]` from a mean in
/// `[0, m]` is at most `m` squared per reading.
pub proof fn lemma_dev_sq_sum_bounds(s: Seq<u64>, mu: int, m: int)
    requires
        forall|i: int| 0 <= i < s.len() ==> s[i] <= m,
        0 <= mu <= m,
        0 <= m,
    ensures
        0 <= dev_sq_sum(s, mu) <= s.len() * (m * m),
    decreases s.len(),
{
    if s.len() > 0 {
        lemma_dev_sq_sum_bounds(s.drop_last(), mu, m);
        let x = s.last();
        assert(0 <= dev_sq(x, mu) <= m * m) by (nonlinear_arith)
            requires
                dev_sq(x, mu) == (x - mu) * (x - mu),
                0 <= x <= m,
                0 <= mu <= m,
        ;
        let k = s.len() - 1;
        assert(s.len() * (m * m) == k * (m * m) + m * m) by (nonlinear_arith)
            requires
                k == s.len() - 1,
        ;
    }
}

/// Integer square root by bisection.
fn isqrt(n: u128) -> (r: u64)
    requires
        n <= (MAX_ENERGY as int) * (MAX_ENERGY as int),
    ensures
        r == sqrt_floor(n as nat),
{
    let mut lo: u64 = 0;
    let mut hi: u64 = MAX_ENERGY + 1;
    proof {
        assert(n < (MAX_ENERGY + 1) * (MAX_ENERGY + 1)) by (nonlinear_arith)
            requires
                n <= (MAX_ENERGY as int) * (MAX_ENERGY as int),
        ;
    }
    while hi - lo > 1
        invariant
            lo < hi <= MAX_ENERGY + 1,
            (lo as int) * (lo as int) <= n,
            n < (hi as int) * (hi as int),
        decreases hi - lo,
    {
        let mid = lo + (hi - lo) / 2;
        proof {
            assert((mid as int) * (mid as int) <= u128::MAX) by (nonlinear_arith)
                requires
                    0 <= mid <= MAX_ENERGY + 1,
                    MAX_ENERGY == 3 * 4294967295int / 2,
            ;
        }
        let sq = (mid as u128) * (mid as u128);
        if sq <= n {
            lo = mid;
        } else {
            hi = mid;
        }
    }
    proof {
        lemma_sqrt_floor_unique(n as nat, lo as nat);
    }
    lo
}

/// A value inserted into an ascending sequence, placed before the first
/// larger entry.
pub open spec fn insert_sorted(s: Seq<u64>, x: u64) -> Seq<u64>
    decreases s.len(),
{
    if s.len() == 0 {
        seq![x]
    } else if s[0] <= x {
        seq![s[0]] + insert_sorted(s.skip(1), x)
    } else {
        seq![x] + s
    }
}

/// Ascending insertion sort.
pub open spec fn sort_ascending(s: Seq<u64>) -> Seq<u64>
    decreases s.len(),
{
    if s.len() == 0 {
        Seq::empty()
    } else {
        insert_sorted(sort_ascending(s.drop_last()), s.last())
    }
}

/// Whether a sequence is in ascending order.
pub open spec fn is_ascending(s: Seq<u64>) -> bool {
    forall|i: int, j: int| 0 <= i < j < s.len() ==> s[i] <= s[j]
}

/// Inserting keeps the length, order, any lower bound, and the contents.
pub proof fn lemma_insert_sorted_ensures(s: Seq<u64>, x: u64)
    requires
        is_ascending(s),
    ensures
        insert_sorted(s, x).len() == s.len() + 1,
        is_ascending(insert_sorted(s, x)),
        insert_sorted(s, x).to_multiset() == s.to_multiset().insert(x),
    decreases s.len(),
{
    let t = insert_sorted(s, x);
    if s.len() == 0 {
        assert(t =~= seq![x]);
        assert(t.to_multiset() =~= s.to_multiset().insert(x)) by {
            assert(s.to_multiset() == Seq::<u64>::empty().to_multiset());
            assert(seq![x] =~= Seq::<u64>::empty().push(x));
        }
    } else if s[0] <= x {
        let rest = s.skip(1);
        assert(is_ascending(rest));
        lemma_insert_sorted_ensures(rest, x);
        let tr = insert_sorted(rest, x);
        assert(t =~= seq![s[0]] + tr);
        assert forall|i: int, j: int| 0 <= i < j < t.len() implies t[i] <= t[j] by {
            if i == 0 {
                if j - 1 < tr.len() {
                    assert(t[j] == tr[j - 1]);
                }
                lemma_insert_sorted_first_ge(rest, x, s[0]);
            } else {
                assert(t[i] == tr[i - 1] && t[j] == tr[j - 1]);
            }
        }
        assert(t.to_multiset() =~= s.to_multiset().insert(x)) by {
            assert(s =~= seq![s[0]] + rest);
            vstd::seq_lib::lemma_multiset_commutative(seq![s[0]], rest);
            vstd::seq_lib::lemma_multiset_commutative(seq![s[0]], tr);
        }
    } else {
        assert(t =~= seq![x] + s);
        assert(t.to_multiset() =~= s.to_multiset().insert(x)) by {
            vstd::seq_lib::lemma_multiset_commutative(seq![x], s);
        }
    }
}

/// Every entry of an ascending sequence is at least its first entry, and
/// inserting a value at least the first keeps the first in place.
proof fn lemma_insert_sorted_first_ge(s: Seq<u64>, x: u64, lo: u64)
    requires
        forall|i: int| 0 <= i < s.len() ==> lo <= s[i],
        lo <= x,
    ensures
        forall|i: int| 0 <= i < insert_sorted(s, x).len() ==> lo <= #[trigger] insert_sorted(
            s,
            x,
        )[i],
    decreases s.len(),
{
    let t = insert_sorted(s, x);
    if s.len() == 0 {
        assert(t == seq![x]);
        assert(t[0] == x);
    } else if s[0] <= x {
        let rest = s.skip(1);
        lemma_insert_sorted_first_ge(rest, x, lo);
        let tr = insert_sorted(rest, x);
        assert(t == seq![s[0]] + tr);
        assert forall|i: int| 0 <= i < t.len() implies lo <= #[trigger] t[i] by {
            if i > 0 {
                assert(t[i] == tr[i - 1]);
            } else {
                assert(t[0] == s[0]);
            }
        }
    } else {
        assert(t == seq![x] + s);
        assert forall|i: int| 0 <= i < t.len() implies lo <= #[trigger] t[i] by {
            if i > 0 {
                assert(t[i] == s[i - 1]);
            } else {
                assert(t[0] == x);
            }
        }
    }
}

/// Sorting keeps the length, yields ascending order and keeps the contents.
pub proof fn lemma_sort_ascending_ensures(s: Seq<u64>)
    ensures
        sort_ascending(s).len() == s.len(),
        is_ascending(sort_ascending(s)),
        sort_ascending(s).to_multiset() == s.to_multiset(),
    decreases s.len(),
{
    if s.len() > 0 {
        let pre = s.drop_last();
        lemma_sort_ascending_ensures(pre);
        lemma_insert_sorted_ensures(sort_ascending(pre), s.last());
        assert(s =~= pre.push(s.last()));
    }
}

/// A strict lower bound on every interval also bounds every entry of the
/// sorted copy.
pub proof fn lemma_sort_entries_exceed(s: Seq<u64>, b: u64)
    requires
        forall|i: int| 0 <= i < s.len() ==> s[i] > b,
    ensures
        forall|i: int| 0 <= i < sort_ascending(s).len() ==> #[trigger] sort_ascending(s)[i] > b,
{
    lemma_sort_ascending_ensures(s);
    let t = sort_ascending(s);
    assert forall|i: int| 0 <= i < t.len() implies #[trigger] t[i] > b by {
        assert(t.contains(t[i]));
        assert(t.to_multiset().contains(t[i]));
        assert(s.to_multiset().contains(t[i]));
        assert(s.contains(t[i]));
        let j = choose|j: int| 0 <= j < s.len() && s[j] == t[i];
        assert(s[j] > b);
    }
}

/// Twice the median of a set of intervals: the sum of the two middle
/// entries of the sorted sequence for an even count, twice the middle
/// entry for an odd count.
pub open spec fn median_doubled(s: Seq<u64>) -> int {
    let t = sort_ascending(s);
    if s.len() == 0 {
        0
    } else if s.len() % 2 == 0 {
        t[s.len() as int / 2 - 1] + t[s.len() as int / 2]
    } else {
        2 * t[s.len() as int / 2]
    }
}

/// Tempo in thousandths of a beat per minute: sixty thousand milliseconds
/// per minute over the median interval, zero until three intervals have
/// been accepted.
pub open spec fn bpm_milli_of(intervals: Seq<u64>) -> int {
    if intervals.len() < 3 {
        0
    } else if median_doubled(intervals) <= 0 {
        0
    } else {
        120_000_000int / median_doubled(intervals)
    }
}

/// One detector step keeps the detector state structurally sound.
pub proof fn lemma_step_preserves_wf(s: DetectorModel, bins: Seq<SpectrumBin>, now_ms: u64)
    requires
        s.wf(),
    ensures
        detect_step(s, bins, now_ms).state.wf(),
{
    if low_band_bins(bins) != 0 {
        lemma_low_band_bounds(bins);
        lemma_avg_bounded(
            low_band_weighted_sum(bins),
            low_band_bins(bins),
            MAX_ENERGY as int,
        );
        let e = low_band_energy(bins);
        if s.history.len() > 0 {
            let h2 = push_bounded(s.history, e as u64, s.history_size as int);
            assert(forall|i: int| 0 <= i < h2.len() ==> h2[i] <= MAX_ENERGY);
            let gap = elapsed_since(s.last_beat_ms, now_ms);
            if gap > DEBOUNCE_MS {
                let iv2 = push_bounded(s.intervals, gap as u64, MAX_INTERVALS as int);
                assert(forall|i: int| 0 <= i < iv2.len() ==> iv2[i] > DEBOUNCE_MS);
            }
        }
    }
}

/// `insert_sorted` places the value exactly at the first position whose
/// entry exceeds it.
proof fn lemma_insert_sorted_at(s: Seq<u64>, x: u64, j: int)
    requires
        0 <= j <= s.len(),
        forall|k: int| 0 <= k < j ==> s[k] <= x,
        j < s.len() ==> s[j] > x,
    ensures
        insert_sorted(s, x) == s.insert(j, x),
    decreases j,
{
    if j == 0 {
        if s.len() == 0 {
            assert(insert_sorted(s, x) =~= s.insert(0, x));
        } else {
            assert(s[0] > x);
            assert(insert_sorted(s, x) =~= s.insert(0, x));
        }
    } else {
        assert(s[0] <= x);
        let rest = s.skip(1);
        lemma_insert_sorted_at(rest, x, j - 1);
        assert(insert_sorted(s, x) == seq![s[0]] + rest.insert(j - 1, x));
        assert(insert_sorted(s, x) =~= s.insert(j, x));
    }
}

/// Insert a value into an ascending vector, before the first larger entry.
fn insert_in_order(v: &mut Vec<u64>, x: u64)
    ensures
        final(v)@ == insert_sorted(old(v)@, x),
{
    let mut j: usize = 0;
    while j < v.len() && v[j] <= x
        invariant
            j <= v@.len(),
            v@ == old(v)@,
            forall|k: int| 0 <= k < j ==> v@[k] <= x,
        decreases v@.len() - j,
    {
        j += 1;
    }
    proof {
        lemma_insert_sorted_at(v@, x, j as int);
    }
    v.insert(j, x);
}

/// An ascending copy of a vector of intervals.
fn sorted_copy(v: &Vec<u64>) -> (r: Vec<u64>)
    ensures
        r@ == sort_ascending(v@),
{
    let mut out: Vec<u64> = Vec::new();
    let mut i: usize = 0;
    while i < v.len()
        invariant
            i <= v@.len(),
            out@ == sort_ascending(v@.take(i as int)),
        decreases v@.len() - i,
    {
        proof {
            assert(v@.take(i as int + 1).drop_last() =~= v@.take(i as int));
            assert(v@.take(i as int + 1).last() == v@[i as int]);
        }
        insert_in_order(&mut out, v[i]);
        i += 1;
    }
    proof {
        assert(v@.take(v@.len() as int) =~= v@);
    }
    out
}

/// The per-tick beat snapshot handed to consumers.
#[derive(Clone, Copy, PartialEq, Eq, Structural, Debug)]
pub struct BeatState {
    /// Raw beat flag of this tick, not gated by debounce.
    pub is_beat: bool,
    /// Tempo estimate in thousandths of a beat per minute; zero until
    /// three intervals have been accepted.
    pub bpm_milli: u64,
    /// Number of beats counted so far.
    pub total_beats: u64,
}

/// Stateful adaptive filter over successive spectra.
pub struct BeatDetector {
    energy_history: Vec<u64>,
    history_size: usize,
    sensitivity_milli: u32,
    last_beat_ms: u64,
    intervals: Vec<u64>,
    total_beats: u64,
}

impl View for BeatDetector {
    type V = DetectorModel;

    closed spec fn view(&self) -> DetectorModel {
        DetectorModel {
            history: self.energy_history@,
            history_size: self.history_size,
            sensitivity_milli: self.sensitivity_milli,
            last_beat_ms: self.last_beat_ms,
            intervals: self.intervals@,
            total_beats: self.total_beats,
        }
    }
}

impl BeatDetector {
    /// Structural soundness of the detector state.
    pub open spec fn wf(&self) -> bool {
        self@.wf()
    }

    /// A fresh detector with an empty history.
    ///
    /// The history capacity is bounded so that sums of squared readings
    /// stay within machine range.
    pub fn new(history_size: usize, sensitivity_milli: u32) -> (r: Self)
        requires
            1 <= history_size <= MAX_HISTORY,
        ensures
            r@ == (DetectorModel {
                history: Seq::empty(),
                history_size: history_size,
                sensitivity_milli: sensitivity_milli,
                last_beat_ms: 0,
                intervals: Seq::empty(),
                total_beats: 0,
            }),
            r.wf(),
    {
        BeatDetector {
            energy_history: Vec::new(),
            history_size,
            sensitivity_milli,
            last_beat_ms: 0,
            intervals: Vec::new(),
            total_beats: 0,
        }
    }

    /// Number of beats counted so far.
    pub fn total_beats(&self) -> (r: u64)
        ensures
            r == self@.total_beats,
    {
        self.total_beats
    }

    /// One tick of the adaptive filter: reduce the spectrum to the weighted
    /// low-band energy, compare it against the dynamic threshold from the
    /// rolling statistics of the existing history, record the reading, and
    /// debounce the counted-beat bookkeeping.  Returns the raw beat flag,
    /// which is not gated by the debounce.
    pub fn detect(&mut self, spectrum: &Spectrum, now_ms: u64) -> (is_beat: bool)
        requires
            old(self).wf(),
        ensures
            final(self)@ == detect_step(old(self)@, spectrum@, now_ms).state,
            is_beat == detect_step(old(self)@, spectrum@, now_ms).is_beat,
            final(self).wf(),
    {
        proof {
            lemma_step_preserves_wf(old(self)@, spectrum@, now_ms);
        }
        let ghost bins = spectrum@;
        let n = spectrum.bin_count();
        let mut wsum: u128 = 0;
        let mut count: usize = 0;
        let mut i: usize = 0;
        while i < n
            invariant
                i <= n,
                n == bins.len(),
                bins == spectrum@,
                wsum == low_band_weighted_sum(bins.take(i as int)),
                count == low_band_bins(bins.take(i as int)),
                count <= i,
            decreases n - i,
        {
            proof {
                assert(bins.take(i as int + 1).drop_last() =~= bins.take(i as int));
                assert(bins.take(i as int + 1).last() == bins[i as int]);
                lemma_low_band_bounds(bins.take(i as int));
            }
            let b = spectrum.bin_at(i);
            if LOW_BAND_LO_HZ <= b.freq_hz && b.freq_hz <= LOW_BAND_HI_HZ {
                let m = b.magnitude as u64;
                let w: u64 = if b.freq_hz <= KICK_EMPHASIS_HZ {
                    3 * m / 2
                } else {
                    m
                };
                proof {
                    vstd::arithmetic::div_mod::lemma_div_is_ordered(
                        3 * m,
                        3 * 4294967295int,
                        2,
                    );
                    assert(w <= MAX_ENERGY);
                    assert(w as int == weighted_magnitude(bins[i as int]));
                    assert(wsum + w <= u128::MAX) by (nonlinear_arith)
                        requires
                            wsum <= count * (MAX_ENERGY as int),
                            0 <= count <= 0xFFFF_FFFF_FFFF_FFFFu64,
                            MAX_ENERGY == 3 * 4294967295int / 2,
                            w <= MAX_ENERGY,
                    ;
                }
                wsum = wsum + w as u128;
                count = count + 1;
            }
            i = i + 1;
        }
        proof {
            assert(bins.take(n as int) =~= bins);
            lemma_low_band_bounds(bins);
        }
        if count == 0 {
            return false;
        }
        proof {
            lemma_avg_bounded(wsum as int, count as int, MAX_ENERGY as int);
        }
        let energy: u64 = (wsum / count as u128) as u64;
        assert(energy as int == low_band_energy(bins));
        if self.energy_history.len() == 0 {
            self.energy_history.push(energy);
            proof {
                assert(self@ =~= detect_step(old(self)@, bins, now_ms).state);
            }
            return false;
        }
        // Rolling mean of the existing history, the current reading excluded.
        let ghost hist = self.energy_history@;
        let hlen = self.energy_history.len();
        let mut hsum: u128 = 0;
        let mut j: usize = 0;
        while j < hlen
            invariant
                j <= hlen,
                hlen == hist.len(),
                hist == self.energy_history@,
                hsum == seq_sum(hist.take(j as int)),
                hlen <= MAX_HISTORY,
                forall|k: int| 0 <= k < hist.len() ==> hist[k] <= MAX_ENERGY,
            decreases hlen - j,
        {
            proof {
                assert(hist.take(j as int + 1).drop_last() =~= hist.take(j as int));
                assert(hist.take(j as int + 1).last() == hist[j as int]);
                lemma_seq_sum_bounds(hist.take(j as int), MAX_ENERGY as int);
                assert(hsum + hist[j as int] <= u128::MAX) by (nonlinear_arith)
                    requires
                        hsum <= j * (MAX_ENERGY as int),
                        0 <= j <= 1_000_000,
                        MAX_ENERGY == 3 * 4294967295int / 2,
                        hist[j as int] <= MAX_ENERGY,
                ;
            }
            hsum = hsum + self.energy_history[j] as u128;
            j += 1;
        }
        proof {
            assert(hist.take(hlen as int) =~= hist);
            lemma_seq_sum_bounds(hist, MAX_ENERGY as int);
            lemma_avg_bounded(hsum as int, hlen as int, MAX_ENERGY as int);
        }
        let mean: u64 = (hsum / hlen as u128) as u64;
        assert(mean as int == mean_of(hist));
        // Rolling variance of the existing history.
        let mut vsum: u128 = 0;
        let mut k: usize = 0;
        while k < hlen
            invariant
                k <= hlen,
                hlen == hist.len(),
                hist == self.energy_history@,
                mean as int == mean_of(hist),
                mean <= MAX_ENERGY,
                vsum == dev_sq_sum(hist.take(k as int), mean as int),
                hlen <= MAX_HISTORY,
                forall|t: int| 0 <= t < hist.len() ==> hist[t] <= MAX_ENERGY,
            decreases hlen - k,
        {
            proof {
                assert(hist.take(k as int + 1).drop_last() =~= hist.take(k as int));
                assert(hist.take(k as int + 1).last() == hist[k as int]);
                lemma_dev_sq_sum_bounds(hist.take(k as int), mean as int, MAX_ENERGY as int);
            }
            let x = self.energy_history[k];
            let diff: u64 = if x >= mean {
                x - mean
            } else {
                mean - x
            };
            proof {
                assert((diff as int) * (diff as int) == dev_sq(hist[k as int], mean as int))
                    by (nonlinear_arith)
                    requires
                        dev_sq(hist[k as int], mean as int) == (hist[k as int] - mean)
                            * (hist[k as int] - mean),
                        diff == if hist[k as int] >= mean {
                            hist[k as int] - mean
                        } else {
                            mean - hist[k as int]
                        },
                ;
                assert(vsum + (diff as int) * (diff as int) <= u128::MAX) by (nonlinear_arith)
                    requires
                        vsum <= k * ((MAX_ENERGY as int) * (MAX_ENERGY as int)),
                        0 <= k <= 1_000_000,
                        MAX_ENERGY == 3 * 4294967295int / 2,
                        0 <= diff <= MAX_ENERGY,
                ;
            }
            vsum = vsum + (diff as u128) * (diff as u128);
            k += 1;
        }
        proof {
            assert(hist.take(hlen as int) =~= hist);
            lemma_dev_sq_sum_bounds(hist, mean as int, MAX_ENERGY as int);
            assert(hlen * ((MAX_ENERGY as int) * (MAX_ENERGY as int)) <= 1_000_000
                * ((MAX_ENERGY as int) * (MAX_ENERGY as int))) by (nonlinear_arith)
                requires
                    0 < hlen <= 1_000_000,
            ;
            lemma_avg_bounded(
                vsum as int,
                hlen as int,
                (MAX_ENERGY as int) * (MAX_ENERGY as int),
            );
        }
        let var: u128 = vsum / hlen as u128;
        assert(var as int == variance_of(hist));
        let sdev = isqrt(var);
        proof {
            lemma_sqrt_floor_bounds(var as nat);
            assert(sdev <= MAX_ENERGY) by (nonlinear_arith)
                requires
                    (sdev as int) * (sdev as int) <= var,
                    var <= (MAX_ENERGY as int) * (MAX_ENERGY as int),
                    sdev >= 0,
                    MAX_ENERGY >= 0,
            ;
            assert((self.sensitivity_milli as int) * (mean as int) <= u128::MAX)
                by (nonlinear_arith)
                requires
                    self.sensitivity_milli <= 4294967295u64,
                    mean <= MAX_ENERGY,
                    MAX_ENERGY == 3 * 4294967295int / 2,
            ;
        }
        let prod: u128 = (self.sensitivity_milli as u128) * (mean as u128);
        proof {
            assert(prod <= 27670116103372455810int) by (nonlinear_arith)
                requires
                    prod == (self.sensitivity_milli as int) * (mean as int),
                    self.sensitivity_milli <= 4294967295u64,
                    0 <= mean <= 6442450942int,
            ;
            vstd::arithmetic::div_mod::lemma_div_is_ordered(
                prod as int,
                27670116103372455810int,
                1000,
            );
        }
        let thr128: u128 = prod / (SENSITIVITY_SCALE as u128) + (sdev as u128) / 2;
        let thr: u64 = thr128 as u64;
        assert(thr as int == dynamic_threshold(self.sensitivity_milli, mean_of(hist), variance_of(hist)));
        // Record the current reading, evicting the oldest past capacity.
        self.energy_history.push(energy);
        if self.energy_history.len() > self.history_size {
            self.energy_history.remove(0);
            proof {
                assert(self.energy_history@ =~= hist.push(energy).skip(1));
            }
        }
        proof {
            assert(self.energy_history@ == push_bounded(hist, energy, self.history_size as int));
        }
        let raw = energy > thr && energy > ENERGY_FLOOR;
        if raw {
            let gap: u64 = if now_ms >= self.last_beat_ms {
                now_ms - self.last_beat_ms
            } else {
                0
            };
            if gap > DEBOUNCE_MS {
                self.intervals.push(gap);
                let ghost iv = old(self)@.intervals;
                if self.intervals.len() > MAX_INTERVALS {
                    self.intervals.remove(0);
                    proof {
                        assert(self.intervals@ =~= iv.push(gap).skip(1));
                    }
                }
                proof {
                    assert(self.intervals@ == push_bounded(iv, gap, MAX_INTERVALS as int));
                }
                self.last_beat_ms = now_ms;
                if self.total_beats < u64::MAX {
                    self.total_beats = self.total_beats + 1;
                }
            }
        }
        proof {
            assert(self@ =~= detect_step(old(self)@, bins, now_ms).state);
        }
        raw
    }

    /// The running tempo estimate in thousandths of a beat per minute:
    /// sixty thousand milliseconds per minute over the median accepted
    /// interval, and zero until three intervals have been accepted.
    pub fn get_bpm(&self) -> (r: u64)
        requires
            self.wf(),
        ensures
            r == bpm_milli_of(self@.intervals),
    {
        let len = self.intervals.len();
        if len < 3 {
            return 0;
        }
        let sorted = sorted_copy(&self.intervals);
        proof {
            lemma_sort_ascending_ensures(self@.intervals);
            lemma_sort_entries_exceed(self@.intervals, DEBOUNCE_MS);
        }
        let n = sorted.len();
        let md: u128 = if n % 2 == 0 {
            (sorted[n / 2 - 1] as u128) + (sorted[n / 2] as u128)
        } else {
            2 * (sorted[n / 2] as u128)
        };
        assert(md == median_doubled(self@.intervals));
        assert(md > 0);
        let bpm: u128 = 120_000_000 / md;
        proof {
            vstd::arithmetic::div_mod::lemma_div_nonincreasing(120_000_000int, md as int);
        }
        bpm as u64
    }

    /// One analysis tick as the consumer sees it: run the detector when a
    /// spectrum is available, leave the state untouched otherwise, and hand
    /// back the beat snapshot of the new state.
    pub fn tick(&mut self, spectrum: Option<&Spectrum>, now_ms: u64) -> (r: BeatState)
        requires
            old(self).wf(),
        ensures
            final(self).wf(),
            (match spectrum {
                Some(sp) => final(self)@ == detect_step(old(self)@, sp@, now_ms).state && r.is_beat
                    == detect_step(old(self)@, sp@, now_ms).is_beat,
                None => final(self)@ == old(self)@ && !r.is_beat,
            }),
            r.total_beats == final(self)@.total_beats,
            r.bpm_milli == bpm_milli_of(final(self)@.intervals),
    {
        let is_beat = match spectrum {
            Some(sp) => self.detect(sp, now_ms),
            None => false,
        };
        let bpm_milli = self.get_bpm();
        BeatState { is_beat, bpm_milli, total_beats: self.total_beats }
    }
}

/// Whether one step counts a beat: the raw flag holds and the debounce
/// window since the last counted beat has passed.
pub open spec fn step_accepts(s: DetectorModel, bins: Seq<SpectrumBin>, now_ms: u64) -> bool {
    &&& low_band_bins(bins) != 0
    &&& s.history.len() > 0
    &&& low_band_energy(bins) > dynamic_threshold(
        s.sensitivity_milli,
        mean_of(s.history),
        variance_of(s.history),
    )
    &&& low_band_energy(bins) > ENERGY_FLOOR
    &&& elapsed_since(s.last_beat_ms, now_ms) > DEBOUNCE_MS
}

/// Debounce: a step counts a beat only when more than [`DEBOUNCE_MS`] have
/// passed since the clock value at which the previous beat was counted,
/// and it then records the current clock, so no two counted beats lie
/// within the debounce window.  A step that does not count a beat leaves
/// the count, the intervals and the last-beat clock untouched, even when
/// its raw flag is set.
pub proof fn lemma_debounce(s: DetectorModel, bins: Seq<SpectrumBin>, now_ms: u64)
    requires
        s.wf(),
    ensures
        detect_step(s, bins, now_ms).state.total_beats > s.total_beats ==> step_accepts(
            s,
            bins,
            now_ms,
        ),
        step_accepts(s, bins, now_ms) ==> now_ms > s.last_beat_ms + DEBOUNCE_MS && detect_step(
            s,
            bins,
            now_ms,
        ).state.last_beat_ms == now_ms,
        !step_accepts(s, bins, now_ms) ==> detect_step(s, bins, now_ms).state.last_beat_ms
            == s.last_beat_ms && detect_step(s, bins, now_ms).state.total_beats == s.total_beats
            && detect_step(s, bins, now_ms).state.intervals == s.intervals,
        forall|i: int|
            0 <= i < detect_step(s, bins, now_ms).state.intervals.len()
                ==> #[trigger] detect_step(s, bins, now_ms).state.intervals[i] > DEBOUNCE_MS,
{
    lemma_step_preserves_wf(s, bins, now_ms);
}

/// Two beats counted one after the other are spaced by more than the
/// debounce window, whatever the raw flags in between did.
pub proof fn lemma_counted_beats_spaced(
    s: DetectorModel,
    bins1: Seq<SpectrumBin>,
    t1: u64,
    bins2: Seq<SpectrumBin>,
    t2: u64,
)
    requires
        s.wf(),
        step_accepts(s, bins1, t1),
        step_accepts(detect_step(s, bins1, t1).state, bins2, t2),
    ensures
        t2 > t1 + DEBOUNCE_MS,
{
    lemma_debounce(s, bins1, t1);
    lemma_step_preserves_wf(s, bins1, t1);
    lemma_debounce(detect_step(s, bins1, t1).state, bins2, t2);
}

/// A step never lowers the beat count.
pub proof fn lemma_step_total_beats_monotone(s: DetectorModel, bins: Seq<SpectrumBin>, now_ms: u64)
    ensures
        detect_step(s, bins, now_ms).state.total_beats >= s.total_beats,
{
}

/// When the beat band is silent or the low-band reading does not exceed
/// the absolute floor, the tick reports no beat and counts nothing.
pub proof fn lemma_below_floor_is_quiet(s: DetectorModel, bins: Seq<SpectrumBin>, now_ms: u64)
    requires
        low_band_bins(bins) == 0 || low_band_energy(bins) <= ENERGY_FLOOR,
    ensures
        !detect_step(s, bins, now_ms).is_beat,
        detect_step(s, bins, now_ms).state.total_beats == s.total_beats,
{
}

/// The detector state after a whole sequence of ticks, each a pair of
/// spectrum bins and a clock reading.
pub open spec fn detect_run(s: DetectorModel, ticks: Seq<(Seq<SpectrumBin>, u64)>) -> DetectorModel
    decreases ticks.len(),
{
    if ticks.len() == 0 {
        s
    } else {
        detect_step(detect_run(s, ticks.drop_last()), ticks.last().0, ticks.last().1).state
    }
}

/// The raw beat flags a whole sequence of ticks reports, in order.
pub open spec fn detect_run_flags(s: DetectorModel, ticks: Seq<(Seq<SpectrumBin>, u64)>) -> Seq<
    bool,
>
    decreases ticks.len(),
{
    if ticks.len() == 0 {
        Seq::empty()
    } else {
        detect_run_flags(s, ticks.drop_last()).push(
            detect_step(detect_run(s, ticks.drop_last()), ticks.last().0, ticks.last().1).is_beat,
        )
    }
}

/// The detector is deterministic: replaying an identical spectrum sequence
/// against an identical starting state yields the identical beat-flag
/// sequence and the identical final state, beat count included.
pub proof fn lemma_detector_deterministic(
    s1: DetectorModel,
    s2: DetectorModel,
    ticks1: Seq<(Seq<SpectrumBin>, u64)>,
    ticks2: Seq<(Seq<SpectrumBin>, u64)>,
)
    requires
        s1 == s2,
        ticks1 == ticks2,
    ensures
        detect_run(s1, ticks1) == detect_run(s2, ticks2),
        detect_run_flags(s1, ticks1) == detect_run_flags(s2, ticks2),
{
}

/// The beat count never decreases across any tick sequence.
pub proof fn lemma_total_beats_monotone(s: DetectorModel, ticks: Seq<(Seq<SpectrumBin>, u64)>)
    ensures
        detect_run(s, ticks).total_beats >= s.total_beats,
    decreases ticks.len(),
{
    if ticks.len() > 0 {
        lemma_total_beats_monotone(s, ticks.drop_last());
        lemma_step_total_beats_monotone(
            detect_run(s, ticks.drop_last()),
            ticks.last().0,
            ticks.last().1,
        );
    }
}

/// A whole tick sequence keeps the detector state structurally sound.
pub proof fn lemma_run_preserves_wf(s: DetectorModel, ticks: Seq<(Seq<SpectrumBin>, u64)>)
    requires
        s.wf(),
    ensures
        detect_run(s, ticks).wf(),
    decreases ticks.len(),
{
    if ticks.len() > 0 {
        lemma_run_preserves_wf(s, ticks.drop_last());
        lemma_step_preserves_wf(detect_run(s, ticks.drop_last()), ticks.last().0, ticks.last().1);
    }
}

} // verus!
