//! The compute side of audio capture: downmixing interleaved hardware
//! frames to mono and feeding them into the shared ring buffer.
//!
//! The hardware callback itself (device handles, the failure flag, the
//! lock around the buffer) lives with the caller; what is verified here is
//! what one delivered block does to the buffer contents.

use vstd::prelude::*;
use crate::ring::{SampleRingBuffer, ring_append};

verus! {

/// Sum of a sequence of samples.
pub open spec fn sum_i32(s: Seq<i32>) -> int
    decreases s.len(),
{
    if s.len() == 0 {
        0
    } else {
        sum_i32(s.drop_last()) + s.last()
    }
}

/// Division rounded toward zero, as machine division of samples behaves.
pub open spec fn div_toward_zero(sum: int, n: int) -> int {
    if sum >= 0 {
        sum / n
    } else {
        -((-sum) / n)
    }
}

/// The mono downmix of an interleaved block: each complete frame of
/// `channels` samples becomes their average; a trailing partial frame is
/// dropped.
pub open spec fn mono_mix(samples: Seq<i32>, channels: int) -> Seq<i32> {
    Seq::new(
        (samples.len() as int / channels) as nat,
        |i: int|
            div_toward_zero(
                sum_i32(samples.subrange(i * channels, (i + 1) * channels)),
                channels,
            ) as i32,
    )
}

/// A sum of samples is bounded by one extreme sample value per entry.
pub proof fn lemma_sum_i32_bounds(s: Seq<i32>)
    ensures
        -(s.len() * 2147483648int) <= sum_i32(s) <= s.len() * 2147483647int,
    decreases s.len(),
{
    if s.len() > 0 {
        lemma_sum_i32_bounds(s.drop_last());
        let k = s.len() - 1;
        assert(s.len() * 2147483647int == k * 2147483647int + 2147483647int) by (nonlinear_arith)
            requires
                k == s.len() - 1,
        ;
        assert(s.len() * 2147483648int == k * 2147483648int + 2147483648int) by (nonlinear_arith)
            requires
                k == s.len() - 1,
        ;
    }
}

/// The truncated average of a non-empty frame of samples is itself in
/// sample range.
pub proof fn lemma_frame_avg_in_range(s: Seq<i32>)
    requires
        s.len() >= 1,
    ensures
        -2147483648 <= div_toward_zero(sum_i32(s), s.len() as int) <= 2147483647,
{
    lemma_sum_i32_bounds(s);
    let n = s.len() as int;
    let total = sum_i32(s);
    if total >= 0 {
        vstd::arithmetic::div_mod::lemma_div_is_ordered(total, n * 2147483647int, n);
        vstd::arithmetic::div_mod::lemma_div_multiples_vanish(2147483647int, n);
        vstd::arithmetic::div_mod::lemma_div_pos_is_pos(total, n);
    } else {
        vstd::arithmetic::div_mod::lemma_div_is_ordered(-total, n * 2147483648int, n);
        vstd::arithmetic::div_mod::lemma_div_multiples_vanish(2147483648int, n);
        vstd::arithmetic::div_mod::lemma_div_pos_is_pos(-total, n);
    }
}

/// Average the channels of each complete interleaved frame down to one
/// mono sample.
pub fn downmix(samples: &Vec<i32>, channels: usize) -> (r: Vec<i32>)
    requires
        channels >= 1,
    ensures
        r@ == mono_mix(samples@, channels as int),
{
    let total = samples.len();
    let frames = total / channels;
    proof {
        vstd::arithmetic::div_mod::lemma_fundamental_div_mod(total as int, channels as int);
        assert(frames * channels <= total) by (nonlinear_arith)
            requires
                total as int == channels as int * (total as int / channels as int) + (
                total as int % channels as int),
                frames == total as int / channels as int,
                0 <= total as int % channels as int,
        ;
    }
    let mut out: Vec<i32> = Vec::new();
    let mut f: usize = 0;
    while f < frames
        invariant
            f <= frames,
            channels >= 1,
            samples@.len() <= usize::MAX,
            frames == samples@.len() as int / channels as int,
            frames * channels <= samples@.len(),
            out@.len() == f,
            forall|i: int|
                0 <= i < f ==> out@[i] == mono_mix(samples@, channels as int)[i],
        decreases frames - f,
    {
        proof {
            assert((f + 1) * channels <= frames * channels) by (nonlinear_arith)
                requires
                    f + 1 <= frames,
                    channels >= 1,
            ;
            assert(f * channels + channels == (f + 1) * channels) by (nonlinear_arith);
            assert(f * channels <= (f + 1) * channels) by (nonlinear_arith)
                requires
                    channels >= 1,
                    f >= 0,
            ;
        }
        let base = f * channels;
        let ghost frame = samples@.subrange(base as int, base as int + channels as int);
        let mut sum: i128 = 0;
        let mut c: usize = 0;
        while c < channels
            invariant
                c <= channels,
                base == f * channels,
                samples@.len() <= usize::MAX,
                base + channels <= samples@.len(),
                frame == samples@.subrange(base as int, base as int + channels as int),
                sum == sum_i32(frame.take(c as int)),
                -((c as int) * 2147483648int) <= sum <= (c as int) * 2147483647int,
            decreases channels - c,
        {
            proof {
                assert(frame.take(c as int + 1).drop_last() =~= frame.take(c as int));
                assert(frame.take(c as int + 1).last() == samples@[base + c]);
                lemma_sum_i32_bounds(frame.take(c as int));
                assert(-(((c as int) + 1) * 2147483648int) <= sum + samples@[base + c] <= ((
                c as int) + 1) * 2147483647int) by (nonlinear_arith)
                    requires
                        -((c as int) * 2147483648int) <= sum <= (c as int) * 2147483647int,
                        -2147483648 <= samples@[base + c] <= 2147483647,
                ;
                assert((c as int) * 2147483648int <= 0xFFFF_FFFF_FFFF_FFFFu64
                    * 2147483648int) by (nonlinear_arith)
                    requires
                        0 <= c <= 0xFFFF_FFFF_FFFF_FFFFu64,
                ;
                assert((c as int) * 2147483647int <= 0xFFFF_FFFF_FFFF_FFFFu64
                    * 2147483647int) by (nonlinear_arith)
                    requires
                        0 <= c <= 0xFFFF_FFFF_FFFF_FFFFu64,
                ;
            }
            sum = sum + samples[base + c] as i128;
            c += 1;
        }
        proof {
            assert(frame.take(channels as int) =~= frame);
            lemma_frame_avg_in_range(frame);
            lemma_sum_i32_bounds(frame);
            assert((channels as int) * 2147483648int <= 0xFFFF_FFFF_FFFF_FFFFu64
                * 2147483648int) by (nonlinear_arith)
                requires
                    0 <= channels <= 0xFFFF_FFFF_FFFF_FFFFu64,
            ;
            assert((channels as int) * 2147483647int <= 0xFFFF_FFFF_FFFF_FFFFu64
                * 2147483647int) by (nonlinear_arith)
                requires
                    0 <= channels <= 0xFFFF_FFFF_FFFF_FFFFu64,
            ;
        }
        let neg = sum < 0;
        let mag: u128 = if neg {
            (-sum) as u128
        } else {
            sum as u128
        };
        let q: u128 = mag / channels as u128;
        proof {
            if neg {
                vstd::arithmetic::div_mod::lemma_div_pos_is_pos(-(sum as int), channels as int);
            } else {
                vstd::arithmetic::div_mod::lemma_div_pos_is_pos(sum as int, channels as int);
            }
        }
        let avg: i128 = if neg {
            -(q as i128)
        } else {
            q as i128
        };
        assert(avg == div_toward_zero(sum_i32(frame), channels as int));
        out.push(avg as i32);
        proof {
            assert(out@[f as int] == mono_mix(samples@, channels as int)[f as int]);
        }
        f += 1;
    }
    proof {
        assert(out@ =~= mono_mix(samples@, channels as int));
    }
    out
}

/// What one delivered hardware block does: downmix the interleaved frames
/// to mono and append them, with the buffer keeping only the most recent
/// samples.
pub fn capture_block(ring: &mut SampleRingBuffer, samples: &Vec<i32>, channels: usize)
    requires
        channels >= 1,
    ensures
        final(ring)@ == ring_append(old(ring)@, mono_mix(samples@, channels as int)),
        final(ring).wf(),
{
    let mono = downmix(samples, channels);
    ring.append_chunk(mono.as_slice());
}

} // verus!
