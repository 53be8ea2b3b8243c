use beat_pipeline::detector::BeatDetector;
use beat_pipeline::spectrum::{Spectrum, SpectrumBin};

fn one_bin(freq_hz: u32, magnitude: u32) -> Spectrum {
    Spectrum::new(vec![SpectrumBin { freq_hz, magnitude }])
}

#[test]
fn scenario_quiet_floor_never_beats() {
    // 45 consecutive ticks with low-band energy 0.005 (5000 millionths):
    // below the absolute floor of 0.01, so never a beat.
    let mut detector = BeatDetector::new(43, 1500);
    for i in 0..45u64 {
        let state = detector.tick(Some(&one_bin(100, 5000)), i * 100);
        assert!(!state.is_beat);
        assert_eq!(state.total_beats, 0);
    }
}

#[test]
fn scenario_primed_history_fires_once() {
    // History primed with 43 ticks of energy 0.02 under sensitivity 1.5:
    // near-zero variance puts the threshold at 0.03; a tick at 0.2 then
    // reports a beat and raises the count by exactly one.
    let mut detector = BeatDetector::new(43, 1500);
    for i in 0..43u64 {
        let state = detector.tick(Some(&one_bin(100, 20_000)), i * 100);
        assert!(!state.is_beat);
        assert_eq!(state.total_beats, 0);
    }
    let state = detector.tick(Some(&one_bin(100, 200_000)), 4_300);
    assert!(state.is_beat);
    assert_eq!(state.total_beats, 1);
    assert_eq!(state.bpm_milli, 0);
}

#[test]
fn scenario_debounce_suppresses_second_beat() {
    // Two qualifying ticks 100 ms apart: both report the raw flag, but the
    // second lies inside the debounce window and is not counted.
    let mut detector = BeatDetector::new(43, 1500);
    let seed = detector.tick(Some(&one_bin(100, 20_000)), 0);
    assert!(!seed.is_beat);
    let first = detector.tick(Some(&one_bin(100, 200_000)), 1_000);
    assert!(first.is_beat);
    assert_eq!(first.total_beats, 1);
    // History is now [20000, 200000]: mean 110000, deviation 90000, so the
    // threshold is 1.5 * 110000 + 0.5 * 90000 = 210000.
    let second = detector.tick(Some(&one_bin(100, 400_000)), 1_100);
    assert!(second.is_beat);
    assert_eq!(second.total_beats, 1);
}

#[test]
fn bpm_is_median_of_accepted_intervals() {
    let mut detector = BeatDetector::new(43, 1500);
    detector.tick(Some(&one_bin(100, 20_000)), 0);
    let b1 = detector.tick(Some(&one_bin(100, 1_000_000)), 1_000);
    assert!(b1.is_beat);
    assert_eq!(b1.bpm_milli, 0);
    let b2 = detector.tick(Some(&one_bin(100, 10_000_000)), 1_400);
    assert!(b2.is_beat);
    assert_eq!(b2.bpm_milli, 0);
    let b3 = detector.tick(Some(&one_bin(100, 100_000_000)), 1_900);
    assert!(b3.is_beat);
    assert_eq!(b3.total_beats, 3);
    // Accepted intervals are [1000, 400, 500]; the median is 500 ms, so
    // the tempo is 60000 / 500 = 120 beats per minute.
    assert_eq!(b3.bpm_milli, 120_000);
}

#[test]
fn replaying_identical_input_gives_identical_output() {
    let ticks: Vec<(u32, u32, u64)> = vec![
        (100, 20_000, 0),
        (100, 5_000, 100),
        (50, 300_000, 1_000),
        (100, 1_000, 1_050),
        (120, 900_000, 1_500),
        (3_000, 50_000, 1_600),
        (100, 2_000_000, 2_200),
    ];
    let mut first = BeatDetector::new(43, 1500);
    let mut second = BeatDetector::new(43, 1500);
    for (freq, mag, at) in ticks {
        let a = first.tick(Some(&one_bin(freq, mag)), at);
        let b = second.tick(Some(&one_bin(freq, mag)), at);
        assert_eq!(a, b);
    }
}

#[test]
fn total_beats_never_decreases() {
    let mut detector = BeatDetector::new(43, 1500);
    let mut previous: u64 = 0;
    for i in 0..60u64 {
        let magnitude = if i % 7 == 0 { 500_000 * (i as u32 + 1) } else { 15_000 };
        let state = detector.tick(Some(&one_bin(100, magnitude)), i * 120);
        assert!(state.total_beats >= previous);
        previous = state.total_beats;
    }
}

#[test]
fn sub_sixty_hz_bins_carry_extra_weight() {
    // A 50 Hz bin of magnitude 8000 weighs in at 12000, above the floor;
    // unweighted it would stay below the floor and never fire.
    let mut weighted = BeatDetector::new(43, 1500);
    weighted.tick(Some(&one_bin(100, 100)), 0);
    let state = weighted.tick(Some(&one_bin(50, 8_000)), 1_000);
    assert!(state.is_beat);

    // The same magnitude above 60 Hz stays below the floor.
    let mut flat = BeatDetector::new(43, 1500);
    flat.tick(Some(&one_bin(100, 100)), 0);
    let state = flat.tick(Some(&one_bin(70, 8_000)), 1_000);
    assert!(!state.is_beat);
}

#[test]
fn out_of_band_spectrum_leaves_state_untouched() {
    let mut detector = BeatDetector::new(43, 1500);
    // No bin in [20, 150] Hz: no reading is recorded.
    let state = detector.tick(Some(&one_bin(1_000, 50_000)), 0);
    assert!(!state.is_beat);
    // The next low-band tick therefore only seeds the history.
    let state = detector.tick(Some(&one_bin(100, 200_000)), 1_000);
    assert!(!state.is_beat);
    assert_eq!(state.total_beats, 0);
}

#[test]
fn empty_spectrum_reports_no_beat() {
    let mut detector = BeatDetector::new(43, 1500);
    let state = detector.tick(Some(&Spectrum::new(vec![])), 0);
    assert!(!state.is_beat);
    assert_eq!(state.total_beats, 0);
}

#[test]
fn missing_spectrum_skips_the_tick() {
    let mut detector = BeatDetector::new(43, 1500);
    detector.tick(Some(&one_bin(100, 20_000)), 0);
    let state = detector.tick(None, 500);
    assert!(!state.is_beat);
    assert_eq!(state.total_beats, 0);
    // The skipped tick recorded nothing: the next reading still compares
    // against the seeded history alone.
    let state = detector.tick(Some(&one_bin(100, 200_000)), 1_000);
    assert!(state.is_beat);
    assert_eq!(state.total_beats, 1);
}

#[test]
fn even_interval_count_uses_middle_average() {
    let mut detector = BeatDetector::new(43, 1500);
    detector.tick(Some(&one_bin(100, 20_000)), 0);
    let beats: Vec<(u32, u64)> = vec![
        (1_000_000, 1_000),
        (10_000_000, 1_400),
        (100_000_000, 1_900),
        (4_000_000_000, 2_500),
    ];
    let mut last = beat_pipeline::detector::BeatState {
        is_beat: false,
        bpm_milli: 0,
        total_beats: 0,
    };
    for (mag, at) in beats {
        last = detector.tick(Some(&one_bin(100, mag)), at);
        assert!(last.is_beat);
    }
    assert_eq!(last.total_beats, 4);
    // Intervals [1000, 400, 500, 600] sort to [400, 500, 600, 1000]; the
    // median is (500 + 600) / 2 = 550 ms and 60000000 / 550 truncates.
    assert_eq!(last.bpm_milli, 120_000_000 / 1_100);
}
