//! A real-time beat-detection pipeline for live audio.
//!
//! Audio arrives as blocks of interleaved hardware samples, is downmixed to
//! mono and kept in a bounded ring buffer ([`ring::SampleRingBuffer`]).  Each
//! analysis tick takes a snapshot window of the most recent samples
//! ([`extractor`]), which an external FFT turns into a frequency spectrum
//! ([`spectrum::Spectrum`]).  An adaptive filter over successive spectra
//! ([`detector::BeatDetector`]) emits a per-tick beat flag, a running tempo
//! estimate and a total beat count, and [`supervisor::StreamSupervisor`]
//! tracks the lifecycle of the capture stream.
//!
//! Sample amplitudes and spectral magnitudes are carried as fixed-point
//! integers in millionths of a unit, so that every rule of the pipeline is
//! stated and checked exactly.

pub mod ring;
pub mod capture;
pub mod extractor;
pub mod spectrum;
pub mod detector;
pub mod supervisor;
pub mod visualizers;
