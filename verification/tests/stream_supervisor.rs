use beat_pipeline::ring::SampleRingBuffer;
use beat_pipeline::supervisor::{StreamConfig, StreamSupervisor};

#[test]
fn starts_degraded_with_fallback_config() {
    let supervisor = StreamSupervisor::new();
    let config = supervisor.config();
    assert_eq!(config, StreamConfig { sample_rate: 44_100, channels: 1 });
    assert!(supervisor.needs_rebuild(false));
}

#[test]
fn rebuild_is_needed_on_failure_flag() {
    let mut supervisor = StreamSupervisor::new();
    let mut ring = SampleRingBuffer::new();
    supervisor.install(StreamConfig { sample_rate: 48_000, channels: 2 }, &mut ring);
    assert!(!supervisor.needs_rebuild(false));
    assert!(supervisor.needs_rebuild(true));
}

#[test]
fn install_adopts_config_and_discards_samples() {
    let mut supervisor = StreamSupervisor::new();
    let mut ring = SampleRingBuffer::new();
    ring.append_chunk(&[1, 2, 3, 4]);
    let negotiated = StreamConfig { sample_rate: 48_000, channels: 2 };
    supervisor.install(negotiated, &mut ring);
    assert_eq!(ring.len(), 0);
    assert_eq!(supervisor.config(), negotiated);
    assert!(!supervisor.needs_rebuild(false));
}

#[test]
fn failure_degrades_but_keeps_config() {
    let mut supervisor = StreamSupervisor::new();
    let mut ring = SampleRingBuffer::new();
    let negotiated = StreamConfig { sample_rate: 96_000, channels: 4 };
    supervisor.install(negotiated, &mut ring);
    supervisor.mark_failed();
    assert!(supervisor.needs_rebuild(false));
    assert_eq!(supervisor.config(), negotiated);
}
