//! Fourier transform helpers: the padded length used by FFT-based
//! convolution and correlation.

use vstd::prelude::*;
use vstd::arithmetic::power2::pow2;
use crate::bits::{is_power_of_two, is_next_power_of_two, lemma_pow2_succ, lemma_next_power_of_two_is_least};

verus! {

/// Continuous Fourier transform properties and numerical utilities.
#[derive(Debug, Clone)]
pub struct FourierTransform;

impl FourierTransform {
    /// The least power of two that is at least `n` (1 for `n == 0`).
    ///
    /// Doubling past the machine word would overflow, so `n` is at most
    /// `2^(usize::BITS - 1)`.
    pub fn next_power_of_2(n: usize) -> (p: usize)
        requires
            n <= usize::MAX / 2 + 1,
        ensures
            is_next_power_of_two(p as nat, n as nat),
            is_power_of_two(p as nat),
            n <= p,
            forall|q: nat| #[trigger] is_power_of_two(q) && n <= q ==> p <= q,
    {
        let mut p: usize = 1;
        proof {
            vstd::arithmetic::power2::lemma2_to64();
            assert(pow2(0) == 1);
        }
        while p < n
            invariant
                n <= usize::MAX / 2 + 1,
                is_power_of_two(p as nat),
                p >= 1,
                p == 1 || p / 2 < n,
            decreases usize::MAX - p,
        {
            proof {
                let k = choose|k: nat| #[trigger] pow2(k) == p as nat;
                lemma_pow2_succ(k);
                assert(pow2(k + 1) == 2 * p);
            }
            p = p * 2;
        }
        proof {
            assert forall|q: nat| #[trigger] is_power_of_two(q) && n <= q implies p <= q by {
                lemma_next_power_of_two_is_least(p as nat, n as nat, q);
            }
        }
        p
    }
}

} // verus!
