//! Spectral estimation: periodogram, Welch's method. This part holds how
//! Welch's method cuts a signal into overlapping segments.

use vstd::prelude::*;
use crate::bits::{is_power_of_two, is_next_power_of_two, lemma_power_of_two_is_next};
use crate::dft::Dft;
use crate::fourier_transform::FourierTransform;

verus! {

/// Spectral estimation methods.
#[derive(Debug, Clone)]
pub struct SpectralEstimation;

/// How Welch's method cuts a signal into overlapping segments.
#[derive(Debug, Clone)]
pub struct WelchSegments {
    /// FFT length: the least power of two at or above the segment length.
    pub nfft: usize,
    /// Hop between the starts of consecutive segments.
    pub step: usize,
    /// Segment count by which the summed spectra are normalised.
    pub n_segments: usize,
    /// Start offsets of the segments that are windowed, transformed and summed.
    pub starts: Vec<usize>,
}

/// The segment count of Welch's method: every hop of `step` that leaves room
/// for a whole segment, or 1 when the signal is shorter than one segment.
pub open spec fn welch_segment_count(signal_len: nat, segment_length: nat, step: nat) -> nat {
    if signal_len >= segment_length {
        ((signal_len - segment_length) as nat) / step + 1
    } else {
        1
    }
}

/// What the Welch segment count is, without reference to how it is computed:
/// at least one segment is always counted; a signal shorter than one segment
/// counts exactly one; otherwise the count is the number of hops of `step`
/// that leave room for a whole segment — the last counted segment ends inside
/// the signal and one more would run past its end.
pub proof fn lemma_welch_segment_count(signal_len: nat, segment_length: nat, step: nat)
    requires
        signal_len >= segment_length ==> step > 0,
    ensures
        welch_segment_count(signal_len, segment_length, step) >= 1,
        signal_len < segment_length ==> welch_segment_count(signal_len, segment_length, step) == 1,
        signal_len >= segment_length ==> {
            let c = welch_segment_count(signal_len, segment_length, step);
            &&& (c - 1) * step + segment_length <= signal_len
            &&& signal_len < c * step + segment_length
        },
{
    if signal_len >= segment_length {
        let l = (signal_len - segment_length) as int;
        let q = l / (step as int);
        let c = welch_segment_count(signal_len, segment_length, step);
        vstd::arithmetic::div_mod::lemma_fundamental_div_mod(l, step as int);
        vstd::arithmetic::div_mod::lemma_div_pos_is_pos(l, step as int);
        assert(c == q + 1);
        assert((c - 1) * step == q * (step as int));
        assert(c * step == q * (step as int) + step as int) by (nonlinear_arith)
            requires
                c == q + 1;
        assert(q * (step as int) == (step as int) * q) by (nonlinear_arith);
    }
}

impl SpectralEstimation {
    /// Plan the segments of Welch's method for a signal of `signal_len`
    /// samples, segments of `segment_length` samples and `overlap` samples
    /// shared by consecutive segments.
    ///
    /// The hop `segment_length - overlap` must not underflow, must be positive
    /// when at least one segment fits, and the FFT length must fit in a word.
    pub fn welch_segments(signal_len: usize, segment_length: usize, overlap: usize) -> (plan:
        WelchSegments)
        requires
            overlap <= segment_length,
            signal_len >= segment_length ==> overlap < segment_length,
            is_power_of_two(segment_length as nat) || segment_length <= usize::MAX / 2 + 1,
        ensures
            is_next_power_of_two(plan.nfft as nat, segment_length as nat),
            is_power_of_two(plan.nfft as nat),
            segment_length <= plan.nfft,
            forall|q: nat|
                #[trigger] is_power_of_two(q) && segment_length <= q ==> plan.nfft <= q,
            plan.step == segment_length - overlap,
            plan.n_segments == welch_segment_count(
                signal_len as nat,
                segment_length as nat,
                plan.step as nat,
            ),
            signal_len >= segment_length ==> plan.starts@.len() == plan.n_segments,
            signal_len >= segment_length ==> forall|s: int|
                0 <= s < plan.n_segments ==> #[trigger] plan.starts@[s] as int == s
                    * plan.step as int,
            signal_len < segment_length ==> plan.starts@.len() == 0,
            plan.n_segments >= 1,
            signal_len < segment_length ==> plan.n_segments == 1,
            signal_len >= segment_length ==> (plan.n_segments - 1) * plan.step + segment_length
                <= signal_len,
            forall|s: int|
                0 <= s < plan.starts@.len() ==> #[trigger] plan.starts@[s] + segment_length
                    <= signal_len,
            signal_len >= segment_length ==> plan.n_segments * plan.step + segment_length
                > signal_len,
    {
        let nfft = if Dft::is_power_of_2(segment_length) {
            proof {
                lemma_power_of_two_is_next(segment_length as nat);
                assert forall|q: nat| #[trigger] is_power_of_two(q) && segment_length <= q
                    implies segment_length <= q by {}
            }
            segment_length
        } else {
            FourierTransform::next_power_of_2(segment_length)
        };
        let step = segment_length - overlap;
        let n_segments = if signal_len >= segment_length {
            (signal_len - segment_length) / step + 1
        } else {
            1
        };
        proof {
            if signal_len >= segment_length {
                let l = (signal_len - segment_length) as int;
                let q = l / (step as int);
                vstd::arithmetic::div_mod::lemma_fundamental_div_mod(l, step as int);
                assert((q + 1) * (step as int) == q * (step as int) + step as int) by (nonlinear_arith);
            }
        }
        proof {
            lemma_welch_segment_count(signal_len as nat, segment_length as nat, step as nat);
        }
        let mut starts: Vec<usize> = Vec::new();
        let mut seg: usize = 0;
        while seg < n_segments
            invariant_except_break
                seg <= n_segments,
                starts@.len() == seg,
                forall|s: int| 0 <= s < seg ==> #[trigger] starts@[s] as int == s * step as int,
                signal_len < segment_length ==> seg == 0,
            invariant
                step == segment_length - overlap,
                signal_len >= segment_length ==> step > 0,
                n_segments == welch_segment_count(
                    signal_len as nat,
                    segment_length as nat,
                    step as nat,
                ),
                forall|s: int|
                    0 <= s < starts@.len() ==> #[trigger] starts@[s] + segment_length <= signal_len,
            ensures
                signal_len >= segment_length ==> starts@.len() == n_segments,
                signal_len >= segment_length ==> forall|s: int|
                    0 <= s < n_segments ==> #[trigger] starts@[s] as int == s * step as int,
                signal_len < segment_length ==> starts@.len() == 0,
            decreases n_segments - seg,
        {
            proof {
                if signal_len >= segment_length {
                    let l = (signal_len - segment_length) as int;
                    vstd::arithmetic::div_mod::lemma_fundamental_div_mod(l, step as int);
                    vstd::arithmetic::mul::lemma_mul_inequality(
                        seg as int,
                        l / (step as int),
                        step as int,
                    );
                }
            }
            if signal_len < segment_length {
                break;
            }
            let start = seg * step;
            if start + segment_length > signal_len {
                break;
            }
            starts.push(start);
            seg = seg + 1;
        }
        WelchSegments { nfft, step, n_segments, starts }
    }
}

} // verus!
