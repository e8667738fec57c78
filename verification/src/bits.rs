//! Mathematical facts about powers of two and bit reversal.

use vstd::prelude::*;
use vstd::arithmetic::power2::*;
use vstd::arithmetic::div_mod::*;

verus! {

/// `n` is a power of two: `n == 2^k` for some natural `k`.
pub open spec fn is_power_of_two(n: nat) -> bool {
    exists|k: nat| #[trigger] pow2(k) == n
}

/// `n & (n - 1) == 0` holds of a positive machine word exactly when it is a
/// power of two.
pub proof fn lemma_and_pred_zero_iff_power_of_two(n: usize)
    requires
        n > 0,
    ensures
        (n & ((n - 1) as usize) == 0) <==> is_power_of_two(n as nat),
    decreases n,
{
    broadcast use is_pow2_equiv, lemma_pow2;
    reveal(is_pow2);
    if n == 1 {
        assert(n & ((n - 1) as usize) == 0) by (bit_vector)
            requires n == 1;
        assert(pow2(0) == 1) by { lemma2_to64(); }
    } else if n % 2 == 0 {
        let h: usize = n / 2;
        assert((n & ((n - 1) as usize) == 0) == (h & ((h - 1) as usize) == 0)) by (bit_vector)
            requires n % 2 == 0, n > 1, h == n / 2;
        lemma_and_pred_zero_iff_power_of_two(h);
        assert(is_pow2(n as int) == is_pow2(h as int));
        if is_power_of_two(h as nat) {
            let k = choose|k: nat| #[trigger] pow2(k) == h;
            lemma_pow2_unfold(k + 1);
            assert(pow2(k + 1) == n);
        }
        if is_power_of_two(n as nat) {
            let k = choose|k: nat| #[trigger] pow2(k) == n;
            assert(is_pow2_exists(n as int));
            assert(is_pow2(h as int));
            assert(is_pow2_exists(h as int));
            let i = choose|i: nat| vstd::arithmetic::power::pow(2, i) == h;
            lemma_pow2(i);
            assert(pow2(i) == h);
        }
    } else {
        assert(n & ((n - 1) as usize) == (n - 1) as usize) by (bit_vector)
            requires n % 2 == 1;
        if is_power_of_two(n as nat) {
            let k = choose|k: nat| #[trigger] pow2(k) == n;
            assert(is_pow2_exists(n as int));
            assert(is_pow2(n as int));
        }
    }
}

/// Bit `i` of `x` (bit 0 is the least significant one).
pub open spec fn bit(x: nat, i: nat) -> nat {
    (x / pow2(i)) % 2
}

/// The lowest `bits` bits of `n` in reverse order: reversing `bits` bits is
/// reversing the lowest `bits - 1` of them, shifted up by one place, with bit
/// `bits - 1` of `n` put in the lowest place.
pub open spec fn reversed_bits(n: nat, bits: nat) -> nat
    decreases bits,
{
    if bits == 0 {
        0
    } else {
        2 * reversed_bits(n, (bits - 1) as nat) + bit(n, (bits - 1) as nat)
    }
}

/// The number of times `n` can be halved before it reaches 1: for a power of
/// two `2^k` this is `k`.
pub open spec fn log2(n: nat) -> nat
    decreases n,
{
    if n <= 1 {
        0
    } else {
        1 + log2(n / 2)
    }
}

/// `p` is the least power of two that is at least `n` (for `n == 0` that is 1).
pub open spec fn is_next_power_of_two(p: nat, n: nat) -> bool {
    &&& is_power_of_two(p)
    &&& n <= p
    &&& (p == 1 || p / 2 < n)
}

/// Shifting the exponent by one doubles a power of two.
pub proof fn lemma_pow2_succ(k: nat)
    ensures
        pow2(k + 1) == 2 * pow2(k),
        pow2(k) > 0,
{
    lemma_pow2_unfold(k + 1);
    lemma_pow2_pos(k);
}

/// `log2` is exact on powers of two.
pub proof fn lemma_log2_of_pow2(k: nat)
    ensures
        log2(pow2(k)) == k,
    decreases k,
{
    if k == 0 {
        lemma2_to64();
    } else {
        lemma_pow2_succ((k - 1) as nat);
        lemma_pow2_pos((k - 1) as nat);
        assert(pow2(k) / 2 == pow2((k - 1) as nat));
        lemma_log2_of_pow2((k - 1) as nat);
    }
}

/// A power of two `n` is `2^log2(n)`.
pub proof fn lemma_pow2_log2(n: nat)
    requires
        is_power_of_two(n),
    ensures
        pow2(log2(n)) == n,
{
    let k = choose|k: nat| #[trigger] pow2(k) == n;
    lemma_log2_of_pow2(k);
}

/// Bit `i` of `x` is bit `i - 1` of `x / 2`.
pub proof fn lemma_bit_of_half(x: nat, i: nat)
    requires
        i >= 1,
    ensures
        bit(x, i) == bit(x / 2, (i - 1) as nat),
{
    lemma_pow2_succ((i - 1) as nat);
    lemma_div_denominator(x as int, 2, pow2((i - 1) as nat) as int);
}

/// Bit 0 of `x` is its parity.
pub proof fn lemma_bit_zero(x: nat)
    ensures
        bit(x, 0) == x % 2,
{
    lemma2_to64();
}

/// A reversal of `bits` bits is less than `2^bits`.
pub proof fn lemma_reversed_bits_bound(n: nat, bits: nat)
    ensures
        reversed_bits(n, bits) < pow2(bits),
    decreases bits,
{
    if bits == 0 {
        lemma2_to64();
    } else {
        lemma_reversed_bits_bound(n, (bits - 1) as nat);
        lemma_pow2_succ((bits - 1) as nat);
    }
}

/// Bit `i` of the reversal is bit `bits - 1 - i` of the input.
pub proof fn lemma_reversed_bits_bit(n: nat, bits: nat, i: nat)
    requires
        i < bits,
    ensures
        bit(reversed_bits(n, bits), i) == bit(n, (bits - 1 - i) as nat),
    decreases bits,
{
    let r = reversed_bits(n, (bits - 1) as nat);
    let c = bit(n, (bits - 1) as nat);
    assert(reversed_bits(n, bits) == 2 * r + c);
    if i == 0 {
        lemma_bit_zero(2 * r + c);
    } else {
        lemma_bit_of_half(2 * r + c, i);
        lemma_div_multiples_vanish_fancy(r as int, c as int, 2);
        assert((2 * r + c) / 2 == r);
        lemma_reversed_bits_bit(n, (bits - 1) as nat, (i - 1) as nat);
    }
}

/// Two numbers below `2^bits` with the same lowest `bits` bits are equal.
pub proof fn lemma_bits_determine(x: nat, y: nat, bits: nat)
    requires
        x < pow2(bits),
        y < pow2(bits),
        forall|i: nat| i < bits ==> #[trigger] bit(x, i) == bit(y, i),
    ensures
        x == y,
    decreases bits,
{
    if bits == 0 {
        lemma2_to64();
    } else {
        lemma_pow2_succ((bits - 1) as nat);
        lemma_bit_zero(x);
        lemma_bit_zero(y);
        assert(bit(x, 0) == bit(y, 0));
        assert forall|i: nat| i < (bits - 1) as nat implies #[trigger] bit(x / 2, i) == bit(y / 2, i) by {
            lemma_bit_of_half(x, i + 1);
            lemma_bit_of_half(y, i + 1);
            assert(bit(x, i + 1) == bit(y, i + 1));
        }
        lemma_bits_determine(x / 2, y / 2, (bits - 1) as nat);
    }
}

/// Reducing modulo `2^bits` keeps the bits below `bits`.
pub proof fn lemma_bit_of_mod(n: nat, bits: nat, i: nat)
    requires
        i < bits,
    ensures
        bit(n % pow2(bits), i) == bit(n, i),
    decreases i,
{
    lemma_pow2_succ((bits - 1) as nat);
    lemma_pow2_pos((bits - 1) as nat);
    let h = pow2((bits - 1) as nat);
    assert(pow2(bits) == 2 * h);
    lemma_mod_breakdown(n as int, 2, h as int);
    assert(n % pow2(bits) == 2 * ((n / 2) % h) + n % 2);
    if i == 0 {
        lemma_bit_zero(n % pow2(bits));
        lemma_bit_zero(n);
    } else {
        lemma_bit_of_half(n % pow2(bits), i);
        lemma_div_multiples_vanish_fancy(((n / 2) % h) as int, (n % 2) as int, 2);
        assert((n % pow2(bits)) / 2 == (n / 2) % h);
        lemma_bit_of_mod(n / 2, (bits - 1) as nat, (i - 1) as nat);
        lemma_bit_of_half(n, i);
    }
}

/// Reversing the lowest `bits` bits twice keeps exactly those bits.
pub proof fn lemma_reversed_bits_involution(n: nat, bits: nat)
    ensures
        reversed_bits(reversed_bits(n, bits), bits) == n % pow2(bits),
{
    let r = reversed_bits(n, bits);
    let x = reversed_bits(r, bits);
    let y = n % pow2(bits);
    lemma_pow2_pos(bits);
    lemma_reversed_bits_bound(r, bits);
    assert forall|i: nat| i < bits implies #[trigger] bit(x, i) == bit(y, i) by {
        lemma_reversed_bits_bit(r, bits, i);
        lemma_reversed_bits_bit(n, bits, (bits - 1 - i) as nat);
        lemma_bit_of_mod(n, bits, i);
    }
    lemma_bits_determine(x, y, bits);
}

/// The bit-reversal permutation of a sequence whose length is a power of
/// two: entry `j` is the entry at the index whose `log2(len)` bits are those
/// of `j` reversed.
pub open spec fn bit_reversed<T>(s: Seq<T>) -> Seq<T> {
    Seq::new(s.len(), |j: int| s[reversed_bits(j as nat, log2(s.len())) as int])
}

/// For a power of two `n == 2^k`, reversing `k` bits maps `[0, n)` onto itself
/// and undoes itself there.
pub proof fn lemma_reversed_index(i: nat, n: nat)
    requires
        is_power_of_two(n),
        i < n,
    ensures
        reversed_bits(i, log2(n)) < n,
        reversed_bits(reversed_bits(i, log2(n)), log2(n)) == i,
{
    let k = log2(n);
    lemma_pow2_log2(n);
    lemma_reversed_bits_bound(i, k);
    lemma_reversed_bits_involution(i, k);
    lemma_small_mod(i, n);
}

/// Permuting by bit reversal twice gives the sequence back.
pub proof fn lemma_bit_reversed_twice<T>(s: Seq<T>)
    requires
        s.len() == 0 || is_power_of_two(s.len()),
    ensures
        bit_reversed(bit_reversed(s)) == s,
{
    let t = bit_reversed(s);
    let u = bit_reversed(t);
    assert forall|j: int| 0 <= j < s.len() implies #[trigger] u[j] == s[j] by {
        lemma_reversed_index(j as nat, s.len());
    }
    assert(u =~= s);
}

/// The least power of two at or above `n` is at most every power of two at
/// or above `n`.
pub proof fn lemma_next_power_of_two_is_least(p: nat, n: nat, q: nat)
    requires
        is_next_power_of_two(p, n),
        is_power_of_two(q),
        n <= q,
    ensures
        p <= q,
{
    let a = choose|k: nat| #[trigger] pow2(k) == p;
    let b = choose|k: nat| #[trigger] pow2(k) == q;
    if b < a {
        lemma_pow2_succ((a - 1) as nat);
        if b < a - 1 {
            lemma_pow2_strictly_increases(b, (a - 1) as nat);
        }
        lemma2_to64();
    } else if a < b {
        lemma_pow2_strictly_increases(a, b);
    }
}

/// There is only one least power of two at or above `n`.
pub proof fn lemma_next_power_of_two_unique(p: nat, q: nat, n: nat)
    requires
        is_next_power_of_two(p, n),
        is_next_power_of_two(q, n),
    ensures
        p == q,
{
    let a = choose|k: nat| #[trigger] pow2(k) == p;
    let b = choose|k: nat| #[trigger] pow2(k) == q;
    if a < b {
        lemma_pow2_succ(a);
        if a + 1 < b {
            lemma_pow2_strictly_increases(a + 1, b);
        }
        lemma_pow2_strictly_increases(a, b);
        lemma2_to64();
    } else if b < a {
        lemma_pow2_succ(b);
        if b + 1 < a {
            lemma_pow2_strictly_increases(b + 1, a);
        }
        lemma_pow2_strictly_increases(b, a);
        lemma2_to64();
    }
}

/// A power of two is its own least power of two at or above it.
pub proof fn lemma_power_of_two_is_next(n: nat)
    requires
        is_power_of_two(n),
    ensures
        is_next_power_of_two(n, n),
{
    let k = choose|k: nat| #[trigger] pow2(k) == n;
    lemma_pow2_pos(k);
}

} // verus!
