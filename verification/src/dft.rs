//! Index arithmetic of the discrete Fourier transform.

use vstd::prelude::*;
use vstd::arithmetic::power2::{pow2, lemma_pow2_pos};
use vstd::arithmetic::div_mod::{lemma_add_mod_noop, lemma_mul_mod_noop_right, lemma_div_denominator};
use crate::fourier_transform::FourierTransform;
use crate::bits::{
    is_power_of_two, is_next_power_of_two, bit, reversed_bits, log2, lemma_and_pred_zero_iff_power_of_two,
    lemma_pow2_succ, lemma_pow2_log2, lemma_reversed_bits_bound, lemma_reversed_bits_involution,
    bit_reversed, lemma_reversed_index, lemma_power_of_two_is_next,
};

verus! {

/// DFT/FFT operations on signals.
#[derive(Debug, Clone)]
pub struct Dft;

/// Shifting a machine word left by one place and setting the freed low bit
/// is doubling, adding the bit and reducing modulo `usize::MAX + 1`.
proof fn lemma_shl_one_or_bit(r: usize, low: usize)
    requires
        low <= 1,
    ensures
        ((r << 1) | low) as nat == (2 * (r as nat) + (low as nat)) % (usize::MAX as nat + 1),
{
    let next = (r << 1) | low;
    let top = r >> ((usize::BITS - 1) as usize);
    let half_word = 1usize << ((usize::BITS - 1) as usize);
    assert(top <= 1 && next as int == 2 * (r as int) + (low as int) - 2 * (top as int) * (half_word as int))
        by (bit_vector)
        requires
            low <= 1,
            next == (r << 1) | low,
            top == r >> ((usize::BITS - 1) as usize),
            half_word == 1usize << ((usize::BITS - 1) as usize);
    let w: nat = (usize::BITS - 1) as nat;
    vstd::layout::unsigned_int_max_values();
    vstd::bits::lemma_usize_pow2_no_overflow(w);
    vstd::bits::lemma_usize_shl_is_mul(1, (usize::BITS - 1) as usize);
    lemma_pow2_succ(w);
    let m: int = usize::MAX as int + 1;
    assert(2 * (half_word as int) == m);
    assert((top as int) * m == 2 * (top as int) * (half_word as int)) by (nonlinear_arith)
        requires
            2 * (half_word as int) == m;
    vstd::arithmetic::div_mod::lemma_fundamental_div_mod_converse(
        2 * (r as int) + (low as int), m, top as int, next as int);
}

/// Reversing the lowest `bits` bits twice gives back those bits of `n`, for
/// any `bits` up to the word size (past it, bits shifted out of the word are
/// lost).
pub proof fn lemma_reverse_bits_twice(n: usize, bits: usize)
    requires
        bits <= usize::BITS,
    ensures
        reversed_bits(
            reversed_bits(n as nat, bits as nat) % (usize::MAX as nat + 1),
            bits as nat,
        ) % (usize::MAX as nat + 1) == n as nat % pow2(bits as nat),
{
    let m: nat = usize::MAX as nat + 1;
    let b: nat = bits as nat;
    let r = reversed_bits(n as nat, b);
    vstd::layout::unsigned_int_max_values();
    assert(pow2(b) <= m) by {
        if b < usize::BITS {
            vstd::arithmetic::power2::lemma_pow2_strictly_increases(b, usize::BITS as nat);
        }
    }
    lemma_reversed_bits_bound(n as nat, b);
    vstd::arithmetic::div_mod::lemma_small_mod(r, m);
    lemma_reversed_bits_bound(r, b);
    vstd::arithmetic::div_mod::lemma_small_mod(reversed_bits(r, b), m);
    lemma_reversed_bits_involution(n as nat, b);
}

/// The bit-reversal permutation is its own inverse.
pub proof fn lemma_bit_reverse_copy_twice<T>(signal: Seq<T>)
    requires
        signal.len() == 0 || is_power_of_two(signal.len()),
    ensures
        bit_reversed(bit_reversed(signal)) == signal,
{
    crate::bits::lemma_bit_reversed_twice(signal);
}

/// Padding a signal whose length is already a power of two changes nothing:
/// the only admissible padded length is the length itself.
pub proof fn lemma_zero_pad_keeps_dyadic_length(len: nat, padded_len: nat)
    requires
        is_power_of_two(len),
        is_next_power_of_two(padded_len, len),
    ensures
        padded_len == len,
{
    lemma_power_of_two_is_next(len);
    crate::bits::lemma_next_power_of_two_unique(padded_len, len, len);
}

impl Dft {
    /// Check if n is a power of 2.
    pub fn is_power_of_2(n: usize) -> (r: bool)
        ensures
            r == is_power_of_two(n as nat),
    {
        proof {
            if n > 0 {
                lemma_and_pred_zero_iff_power_of_two(n);
            } else {
                assert forall|k: nat| #[trigger] pow2(k) != 0 by {
                    lemma_pow2_pos(k);
                }
            }
        }
        n > 0 && (n & (n - 1)) == 0
    }

    /// Reverse the lower `bits` bits of `n`.
    ///
    /// Bits shifted past the top of the machine word are lost, so the result
    /// is the reversal taken modulo `usize::MAX + 1`.
    pub fn reverse_bits(n: usize, bits: usize) -> (r: usize)
        ensures
            r as nat == reversed_bits(n as nat, bits as nat) % (usize::MAX as nat + 1),
    {
        let ghost n0: nat = n as nat;
        let ghost m: nat = usize::MAX as nat + 1;
        let mut n = n;
        let mut result = 0usize;
        let mut i: usize = 0;
        proof {
            vstd::arithmetic::power2::lemma2_to64();
            vstd::arithmetic::div_mod::lemma_small_mod(0, m);
        }
        while i < bits
            invariant
                i <= bits,
                m == usize::MAX as nat + 1,
                n as nat == n0 / pow2(i as nat),
                result as nat == reversed_bits(n0, i as nat) % m,
            decreases bits - i,
        {
            let low = n & 1;
            let next = (result << 1) | low;
            proof {
                assert(low == n % 2) by (bit_vector)
                    requires low == n & 1;
                lemma_shl_one_or_bit(result, low);
                let rv = reversed_bits(n0, i as nat);
                assert(bit(n0, i as nat) == low as nat);
                assert(reversed_bits(n0, (i + 1) as nat) == 2 * rv + low);
                lemma_mul_mod_noop_right(2, rv as int, m as int);
                lemma_add_mod_noop((2 * rv) as int, low as int, m as int);
                lemma_add_mod_noop((2 * (rv % m)) as int, low as int, m as int);
                assert((2 * (rv % m)) % m == (2 * rv) % m);
                assert(next as nat == reversed_bits(n0, (i + 1) as nat) % m);
            }
            let half = n >> 1;
            proof {
                assert(half == n / 2) by (bit_vector)
                    requires half == n >> 1;
                lemma_pow2_succ(i as nat);
                lemma_div_denominator(n0 as int, pow2(i as nat) as int, 2);
                assert(pow2(i as nat) * 2 == pow2((i + 1) as nat));
            }
            result = next;
            n = half;
            i = i + 1;
        }
        result
    }

    /// Pad `signal` with `fill` up to the next power of two; a signal whose
    /// length is already a power of two comes back unchanged.
    pub fn zero_pad_to_power_of_2<T: Copy>(signal: &[T], fill: T) -> (padded: Vec<T>)
        requires
            is_power_of_two(signal.len() as nat) || signal.len() <= usize::MAX / 2 + 1,
        ensures
            is_next_power_of_two(padded.len() as nat, signal.len() as nat),
            is_power_of_two(padded.len() as nat),
            signal.len() <= padded.len(),
            forall|q: nat|
                #[trigger] is_power_of_two(q) && signal.len() <= q ==> padded.len() <= q,
            padded@.subrange(0, signal.len() as int) == signal@,
            forall|i: int| signal.len() <= i < padded.len() ==> #[trigger] padded[i] == fill,
    {
        let n = signal.len();
        let mut padded: Vec<T> = Vec::new();
        let mut i: usize = 0;
        while i < n
            invariant
                n == signal.len(),
                i <= n,
                padded@ == signal@.subrange(0, i as int),
            decreases n - i,
        {
            padded.push(signal[i]);
            i = i + 1;
        }
        if Self::is_power_of_2(n) {
            proof {
                assert(padded@ == signal@);
                lemma_power_of_two_is_next(n as nat);
                assert forall|q: nat| #[trigger] is_power_of_two(q) && n <= q implies n <= q by {}
            }
            return padded;
        }
        let next_pow2 = FourierTransform::next_power_of_2(n);
        while padded.len() < next_pow2
            invariant
                n == signal.len(),
                n <= padded.len() <= next_pow2,
                padded@.subrange(0, n as int) == signal@,
                forall|j: int| n <= j < padded.len() ==> #[trigger] padded[j] == fill,
            decreases next_pow2 - padded.len(),
        {
            let ghost before = padded@;
            padded.push(fill);
            proof {
                assert(padded@.subrange(0, n as int) == before.subrange(0, n as int));
            }
        }
        padded
    }

    /// The number of halvings that take `n` down to 1 (0 for `n <= 1`): the
    /// base-2 logarithm of a power of two.
    fn log2_floor(n: usize) -> (bits: usize)
        ensures
            bits as nat == log2(n as nat),
    {
        let mut bits: usize = 0;
        let mut m: usize = n;
        while m > 1
            invariant
                bits as nat + log2(m as nat) == log2(n as nat),
                bits + m <= n || n <= 1,
                m <= n,
            decreases m,
        {
            m = m / 2;
            bits = bits + 1;
        }
        bits
    }

    /// Bit-reversal permutation: entry `j` of the result is entry
    /// `reverse(j)` of the signal, where `reverse` reverses the lowest
    /// `log2(len)` bits of an index; equally, entry `i` of the signal lands at
    /// `reverse(i)`.
    pub fn bit_reverse_copy<T: Copy>(signal: &[T]) -> (result: Vec<T>)
        requires
            signal.len() == 0 || is_power_of_two(signal.len() as nat),
        ensures
            result@ == bit_reversed(signal@),
            forall|i: int|
                0 <= i < signal.len() ==> result[reversed_bits(
                    i as nat,
                    log2(signal.len() as nat),
                ) as int] == #[trigger] signal[i],
    {
        let n = signal.len();
        let bits = Self::log2_floor(n);
        let ghost k: nat = bits as nat;
        let ghost m: nat = usize::MAX as nat + 1;
        proof {
            if n > 0 {
                lemma_pow2_log2(n as nat);
            }
        }
        let mut result: Vec<T> = Vec::new();
        let mut j: usize = 0;
        while j < n
            invariant
                n == signal.len(),
                k == bits as nat,
                k == log2(n as nat),
                m == usize::MAX as nat + 1,
                n > 0 ==> pow2(k) == n,
                j <= n,
                result.len() == j,
                forall|t: int|
                    0 <= t < j ==> #[trigger] result[t] == signal[reversed_bits(t as nat, k) as int],
            decreases n - j,
        {
            let r = Self::reverse_bits(j, bits);
            proof {
                lemma_reversed_bits_bound(j as nat, k);
                vstd::arithmetic::div_mod::lemma_small_mod(reversed_bits(j as nat, k), m);
            }
            result.push(signal[r]);
            j = j + 1;
        }
        proof {
            assert(result@ =~= bit_reversed(signal@));
            assert forall|i: int| 0 <= i < n implies result[reversed_bits(i as nat, k) as int]
                == #[trigger] signal[i] by {
                lemma_reversed_index(i as nat, n as nat);
            }
        }
        result
    }
}

} // verus!
