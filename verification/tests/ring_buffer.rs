use beat_pipeline::extractor::extract_window;
use beat_pipeline::ring::SampleRingBuffer;

fn chunk(range: std::ops::Range<i32>) -> Vec<i32> {
    range.collect()
}

#[test]
fn empty_buffer_has_no_samples() {
    let ring = SampleRingBuffer::new();
    assert_eq!(ring.len(), 0);
}

#[test]
fn small_appends_accumulate_in_order() {
    let mut ring = SampleRingBuffer::new();
    ring.append_chunk(&[1, 2, 3]);
    ring.append_chunk(&[4, 5]);
    assert_eq!(ring.len(), 5);
    let window = ring.latest(5).unwrap();
    assert_eq!(window, vec![1, 2, 3, 4, 5]);
}

#[test]
fn buffer_length_never_exceeds_capacity() {
    let mut ring = SampleRingBuffer::new();
    let mut total: usize = 0;
    for n in [100usize, 2048, 4096, 1, 5000, 333] {
        let block = chunk(0..n as i32);
        ring.append_chunk(&block);
        total += n;
        assert_eq!(ring.len(), total.min(4096));
    }
}

#[test]
fn burst_keeps_samples_904_to_5000() {
    // A single burst of 5000 samples into an empty buffer leaves exactly
    // samples [904, 5000) of the input.
    let mut ring = SampleRingBuffer::new();
    ring.append_chunk(&chunk(0..5000));
    assert_eq!(ring.len(), 4096);
    let kept = ring.latest(4096).unwrap();
    for (i, s) in kept.iter().enumerate() {
        assert_eq!(*s, 904 + i as i32);
    }
}

#[test]
fn overflow_drops_oldest_across_chunks() {
    let mut ring = SampleRingBuffer::new();
    ring.append_chunk(&chunk(0..4000));
    ring.append_chunk(&chunk(4000..4200));
    assert_eq!(ring.len(), 4096);
    let kept = ring.latest(4096).unwrap();
    // 4200 total appended; the oldest 104 dropped.
    for (i, s) in kept.iter().enumerate() {
        assert_eq!(*s, 104 + i as i32);
    }
}

#[test]
fn clear_empties_buffer() {
    let mut ring = SampleRingBuffer::new();
    ring.append_chunk(&chunk(0..100));
    ring.clear();
    assert_eq!(ring.len(), 0);
    assert!(ring.latest(1).is_none());
}

#[test]
fn latest_needs_enough_samples() {
    let mut ring = SampleRingBuffer::new();
    ring.append_chunk(&[7, 8, 9]);
    assert!(ring.latest(4).is_none());
    assert_eq!(ring.latest(2).unwrap(), vec![8, 9]);
}

#[test]
fn window_extraction_gates_on_window_size() {
    let mut ring = SampleRingBuffer::new();
    ring.append_chunk(&chunk(0..2047));
    assert!(extract_window(&ring).is_none());
    ring.append_chunk(&[2047]);
    let w = extract_window(&ring).unwrap();
    assert_eq!(w.len(), 2048);
    assert_eq!(w[0], 0);
    assert_eq!(w[2047], 2047);
    ring.append_chunk(&chunk(2048..3000));
    let w = extract_window(&ring).unwrap();
    assert_eq!(w.len(), 2048);
    assert_eq!(w[0], 952);
    assert_eq!(w[2047], 2999);
}
