//! Bounded FIFO of mono audio samples, shared between the capture callback
//! (writer) and the analysis tick (reader).
//!
//! The buffer keeps at most [`BUFFER_CAPACITY`] samples; once full, the
//! oldest samples are dropped, so the buffer always holds the most recent
//! suffix of everything that was ever appended.

use vstd::prelude::*;

verus! {

broadcast use vstd::seq_lib::group_seq_properties;

/// Number of samples the buffer retains; beyond this, the oldest drop out.
pub const BUFFER_CAPACITY: usize = 4096;

/// What appending one chunk does to the buffer contents: join, then keep
/// only the most recent [`BUFFER_CAPACITY`] samples.
pub open spec fn ring_append(s: Seq<i32>, chunk: Seq<i32>) -> Seq<i32> {
    let joined = s + chunk;
    if joined.len() <= BUFFER_CAPACITY {
        joined
    } else {
        joined.skip(joined.len() - BUFFER_CAPACITY)
    }
}

/// The whole stream of samples delivered by a sequence of chunks, in order.
pub open spec fn chunk_stream(chunks: Seq<Seq<i32>>) -> Seq<i32>
    decreases chunks.len(),
{
    if chunks.len() == 0 {
        Seq::empty()
    } else {
        chunk_stream(chunks.drop_last()) + chunks.last()
    }
}

/// The buffer contents after appending a sequence of chunks to an empty
/// buffer, one at a time.
pub open spec fn ring_run(chunks: Seq<Seq<i32>>) -> Seq<i32>
    decreases chunks.len(),
{
    if chunks.len() == 0 {
        Seq::empty()
    } else {
        ring_append(ring_run(chunks.drop_last()), chunks.last())
    }
}

/// After any sequence of appended chunks the buffer length never exceeds
/// [`BUFFER_CAPACITY`], and the contents equal the suffix of the logical
/// input stream of length `min(total appended, BUFFER_CAPACITY)`.
pub proof fn lemma_ring_run_is_stream_suffix(chunks: Seq<Seq<i32>>)
    ensures
        ring_run(chunks).len() <= BUFFER_CAPACITY,
        ring_run(chunks).len() == if chunk_stream(chunks).len() <= BUFFER_CAPACITY {
            chunk_stream(chunks).len() as int
        } else {
            BUFFER_CAPACITY as int
        },
        ring_run(chunks) == chunk_stream(chunks).skip(
            chunk_stream(chunks).len() - ring_run(chunks).len(),
        ),
    decreases chunks.len(),
{
    if chunks.len() == 0 {
        assert(ring_run(chunks) =~= chunk_stream(chunks).skip(0));
    } else {
        let pre = chunks.drop_last();
        let c = chunks.last();
        lemma_ring_run_is_stream_suffix(pre);
        let run_pre = ring_run(pre);
        let stream_pre = chunk_stream(pre);
        let d = stream_pre.len() - run_pre.len();
        let joined = run_pre + c;
        let stream = chunk_stream(chunks);
        assert(stream == stream_pre + c);
        if joined.len() <= BUFFER_CAPACITY {
            assert(ring_run(chunks) =~= stream.skip(d));
        } else {
            let d2 = joined.len() - BUFFER_CAPACITY;
            assert(ring_run(chunks) == joined.skip(d2));
            assert(joined.skip(d2) =~= stream.skip(d + d2));
        }
    }
}

/// Bounded, drop-oldest buffer of mono samples in fixed-point millionths.
pub struct SampleRingBuffer {
    samples: Vec<i32>,
}

impl View for SampleRingBuffer {
    type V = Seq<i32>;

    closed spec fn view(&self) -> Seq<i32> {
        self.samples@
    }
}

impl SampleRingBuffer {
    /// The buffer never holds more than [`BUFFER_CAPACITY`] samples.
    pub open spec fn wf(&self) -> bool {
        self@.len() <= BUFFER_CAPACITY
    }

    /// An empty buffer.
    pub fn new() -> (r: Self)
        ensures
            r@ == Seq::<i32>::empty(),
            r.wf(),
    {
        SampleRingBuffer { samples: Vec::new() }
    }

    /// Number of samples currently buffered.
    pub fn len(&self) -> (r: usize)
        ensures
            r == self@.len(),
    {
        self.samples.len()
    }

    /// Drop every buffered sample.
    pub fn clear(&mut self)
        ensures
            final(self)@ == Seq::<i32>::empty(),
            final(self).wf(),
    {
        self.samples.clear();
        assert(self@ =~= Seq::<i32>::empty());
    }

    /// Append a chunk of mono samples, then trim the front so that at most
    /// [`BUFFER_CAPACITY`] samples remain.
    pub fn append_chunk(&mut self, chunk: &[i32])
        ensures
            final(self)@ == ring_append(old(self)@, chunk@),
            final(self).wf(),
    {
        let ghost joined = old(self)@ + chunk@;
        self.samples.extend_from_slice(chunk);
        assert(self.samples@ == joined);
        while self.samples.len() > BUFFER_CAPACITY
            invariant
                self.samples@.len() <= joined.len(),
                self.samples@.len() >= if joined.len() <= BUFFER_CAPACITY {
                    joined.len() as int
                } else {
                    BUFFER_CAPACITY as int
                },
                self.samples@ == joined.skip(joined.len() - self.samples@.len()),
            decreases self.samples@.len(),
        {
            let ghost before = self.samples@;
            let ghost d = joined.len() - before.len();
            self.samples.remove(0);
            proof {
                assert(self.samples@ =~= before.skip(1));
                assert forall|i: int| 0 <= i < self.samples@.len() implies self.samples@[i]
                    == joined.skip(d + 1)[i] by {
                    assert(self.samples@[i] == before[i + 1]);
                    assert(before[i + 1] == joined.skip(d)[i + 1]);
                    assert(joined.skip(d)[i + 1] == joined[d + i + 1]);
                    assert(joined.skip(d + 1)[i] == joined[d + 1 + i]);
                }
                assert(self.samples@ =~= joined.skip(d + 1));
            }
        }
        assert(self@ =~= ring_append(old(self)@, chunk@));
    }

    /// The most recent `n` buffered samples, oldest first, or `None` when
    /// fewer than `n` samples are buffered.
    pub fn latest(&self, n: usize) -> (r: Option<Vec<i32>>)
        ensures
            match r {
                Some(v) => self@.len() >= n && v@ == self@.skip(self@.len() - n),
                None => self@.len() < n,
            },
    {
        let total = self.samples.len();
        if total < n {
            return None;
        }
        let start = total - n;
        let mut out: Vec<i32> = Vec::new();
        let mut i = start;
        while i < total
            invariant
                start <= i <= total,
                total == self.samples@.len(),
                start == total - n,
                out@ == self.samples@.subrange(start as int, i as int),
            decreases total - i,
        {
            out.push(self.samples[i]);
            i += 1;
        }
        assert(out@ =~= self@.skip(self@.len() - n));
        Some(out)
    }
}

} // verus!
