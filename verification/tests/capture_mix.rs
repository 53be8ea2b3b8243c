use beat_pipeline::capture::{capture_block, downmix};
use beat_pipeline::ring::SampleRingBuffer;

#[test]
fn mono_block_passes_through() {
    let block = vec![5, -7, 0, 12];
    assert_eq!(downmix(&block, 1), block);
}

#[test]
fn stereo_frames_average() {
    let block = vec![10, 20, -4, -6, 100, 0];
    assert_eq!(downmix(&block, 2), vec![15, -5, 50]);
}

#[test]
fn averages_truncate_toward_zero() {
    // Machine division of a mixed-sign frame truncates toward zero.
    assert_eq!(downmix(&vec![-3, 4], 2), vec![0]);
    assert_eq!(downmix(&vec![3, -4], 2), vec![0]);
    assert_eq!(downmix(&vec![-3, -4], 2), vec![-3]);
    assert_eq!(downmix(&vec![3, 4], 2), vec![3]);
}

#[test]
fn trailing_partial_frame_is_dropped() {
    let block = vec![1, 3, 5];
    assert_eq!(downmix(&block, 2), vec![2]);
}

#[test]
fn capture_appends_mono_and_trims() {
    let mut ring = SampleRingBuffer::new();
    let quiet: Vec<i32> = vec![0; 2 * 4000];
    capture_block(&mut ring, &quiet, 2);
    assert_eq!(ring.len(), 4000);
    let loud: Vec<i32> = (0..400).flat_map(|i| [2 * i, 0]).collect();
    capture_block(&mut ring, &loud, 2);
    assert_eq!(ring.len(), 4096);
    let kept = ring.latest(400).unwrap();
    for (i, s) in kept.iter().enumerate() {
        assert_eq!(*s, i as i32);
    }
}
