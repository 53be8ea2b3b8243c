use beat_pipeline::spectrum::{get_peak_frequency, Spectrum, SpectrumBin};
use beat_pipeline::visualizers::{
    LissajousEnhanced, LissajousInterference, ResonantHelix, SpectralRibbons,
};

fn bins(data: &[(u32, u32)]) -> Spectrum {
    Spectrum::new(
        data.iter()
            .map(|(freq_hz, magnitude)| SpectrumBin { freq_hz: *freq_hz, magnitude: *magnitude })
            .collect(),
    )
}

#[test]
fn band_energy_averages_the_band() {
    let s = bins(&[(50, 9_000), (100, 3_000), (5_000, 7_000)]);
    assert_eq!(s.band_energy(20, 150), 6_000);
    assert_eq!(s.band_energy(2_000, 10_000), 7_000);
    assert_eq!(s.band_energy(16_000, 20_000), 0);
}

#[test]
fn band_bounds_are_inclusive() {
    let s = bins(&[(20, 100), (150, 300), (151, 1_000_000), (19, 1_000_000)]);
    assert_eq!(s.band_energy(20, 150), 200);
}

#[test]
fn band_energy_rounds_down() {
    let s = bins(&[(30, 10), (40, 11)]);
    assert_eq!(s.band_energy(20, 150), 10);
}

#[test]
fn peak_is_first_loudest_bin() {
    let s = bins(&[(100, 5), (440, 90), (880, 90), (10_000, 17)]);
    assert_eq!(get_peak_frequency(&s), (440, 90));
}

#[test]
fn silent_spectrum_has_zero_peak() {
    let s = bins(&[(100, 0), (200, 0)]);
    assert_eq!(get_peak_frequency(&s), (0, 0));
    assert_eq!(get_peak_frequency(&Spectrum::new(vec![])), (0, 0));
}

#[test]
fn ribbon_levels_scale_their_bands() {
    let s = bins(&[(30, 10), (100, 20), (1_000, 30), (3_000, 40), (10_000, 50)]);
    let levels = SpectralRibbons::new().levels(&s);
    assert_eq!(levels.sub_bass, 600 * 10);
    assert_eq!(levels.bass, 500 * 20);
    assert_eq!(levels.mids, 1000 * 30);
    assert_eq!(levels.upper_mids, 1500 * 40);
    assert_eq!(levels.highs, 3000 * 50);
}

#[test]
fn lissajous_drives_scale_bass_and_highs() {
    let s = bins(&[(100, 7), (5_000, 9)]);
    let original = LissajousInterference::new().drive(&s);
    assert_eq!(original.bass, 400 * 7);
    assert_eq!(original.highs, 2000 * 9);
    let enhanced = LissajousEnhanced::new().drive(&s);
    assert_eq!(enhanced.bass, 450 * 7);
    assert_eq!(enhanced.highs, 2500 * 9);
    let helix = ResonantHelix::new().drive(&s);
    assert_eq!(helix.bass, 600 * 7);
    assert_eq!(helix.highs, 3000 * 9);
}
