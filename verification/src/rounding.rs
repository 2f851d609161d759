//! Rounding an exact value `n · 2^e` to the nearest scalar, ties to even.
use crate::scalar::{Scalar, HIDDEN_BIT, INFINITY_BITS, MIN_EXPONENT};
use vstd::arithmetic::div_mod::{lemma_basic_div, lemma_fundamental_div_mod, lemma_small_mod};
use vstd::arithmetic::mul::{lemma_mul_inequality, lemma_mul_strict_inequality};
use vstd::arithmetic::power2::{
    lemma2_to64, lemma2_to64_rest, lemma_pow2_adds, lemma_pow2_pos,
    lemma_pow2_strictly_increases, lemma_pow2_unfold, pow2,
};
use vstd::prelude::*;

verus! {

/// The largest integer that `round` takes, `2^126`.
pub const ROUND_LIMIT: u128 = 0x4000_0000_0000_0000_0000_0000_0000_0000;

/// The number of bits of `n`: 0 for 0, else the `k` with `2^(k-1) <= n < 2^k`.
pub open spec fn bit_length(n: nat) -> nat
    decreases n,
{
    if n == 0 {
        0
    } else {
        1 + bit_length(n / 2)
    }
}

/// `n / p` rounded to the nearest integer, a tie to the even one.
pub open spec fn nearest_quotient(n: nat, p: nat) -> nat {
    let k = n / p;
    let rest = n % p;
    if 2 * rest > p || (2 * rest == p && k % 2 == 1) {
        k + 1
    } else {
        k
    }
}

/// The exponent of the scalar that `n · 2^e` rounds to: the one that leaves
/// the significand fifty-three bits, but not below the smallest exponent.
pub open spec fn target_exponent(n: nat, e: int) -> int {
    let ideal = e + bit_length(n) - 53;
    if ideal < MIN_EXPONENT {
        MIN_EXPONENT as int
    } else {
        ideal
    }
}

/// The significand of the scalar that `n · 2^e` rounds to, before a carry
/// into the exponent.
pub open spec fn target_significand(n: nat, e: int) -> nat {
    let q = target_exponent(n, e);
    if q <= e {
        n * pow2((e - q) as nat)
    } else {
        nearest_quotient(n, pow2((q - e) as nat))
    }
}

/// The magnitude bits of the scalar nearest to `n · 2^e` for `n > 0`, not yet
/// cut off at infinity. A significand of `2^53` carries into the exponent
/// bits by the addition.
pub open spec fn target_magnitude(n: nat, e: int) -> int {
    (target_exponent(n, e) - MIN_EXPONENT) * HIDDEN_BIT + target_significand(n, e)
}

/// The scalar nearest to `±n · 2^e`, a tie going to the even significand, a
/// value beyond the largest finite scalar to infinity.
pub open spec fn rounded(negative: bool, n: nat, e: int) -> Scalar {
    if n == 0 {
        Scalar::compose(negative, 0)
    } else if target_magnitude(n, e) >= INFINITY_BITS {
        Scalar::compose(negative, INFINITY_BITS)
    } else {
        Scalar::compose(negative, target_magnitude(n, e) as u64)
    }
}

/// A positive `n` lies between the two powers of two that its bit length names.
pub proof fn lemma_bit_length_bounds(n: nat)
    requires
        n > 0,
    ensures
        bit_length(n) >= 1,
        pow2((bit_length(n) - 1) as nat) <= n < pow2(bit_length(n)),
    decreases n,
{
    lemma2_to64();
    if n == 1 {
        assert(bit_length(1) == 1 + bit_length(0));
    } else {
        lemma_bit_length_bounds(n / 2);
        let k = bit_length(n / 2);
        lemma_pow2_unfold(k);
        lemma_pow2_unfold(k + 1);
        assert(bit_length(n) == k + 1);
    }
}

/// The bit length is the only `k` with `2^(k-1) <= n < 2^k`.
pub proof fn lemma_bit_length_unique(n: nat, k: nat)
    requires
        k >= 1,
        pow2((k - 1) as nat) <= n < pow2(k),
    ensures
        bit_length(n) == k,
{
    lemma_pow2_pos((k - 1) as nat);
    lemma_bit_length_bounds(n);
    let b = bit_length(n);
    if b < k {
        if b < k - 1 {
            lemma_pow2_strictly_increases(b, (k - 1) as nat);
        }
    } else if b > k {
        if b - 1 > k {
            lemma_pow2_strictly_increases(k, (b - 1) as nat);
        }
    }
}

/// `2^exponent` as a machine integer.
pub fn power_of_two(exponent: u32) -> (r: u128)
    requires
        exponent < 128,
    ensures
        r == pow2(exponent as nat),
        r > 0,
{
    let mut r: u128 = 1;
    let mut i: u32 = 0;
    proof {
        lemma2_to64();
    }
    while i < exponent
        invariant
            i <= exponent < 128,
            r == pow2(i as nat),
            r > 0,
        decreases exponent - i,
    {
        proof {
            lemma_pow2_unfold((i + 1) as nat);
            lemma2_to64_rest();
            if i + 1 < 127 {
                lemma_pow2_strictly_increases((i + 1) as nat, 127);
            }
            assert(pow2(127) == 0x8000_0000_0000_0000_0000_0000_0000_0000) by {
                lemma_pow2_adds(64, 63);
            }
        }
        r = r * 2;
        i = i + 1;
    }
    r
}

/// The number of bits of `n`.
pub fn bit_length_of(n: u128) -> (r: u32)
    ensures
        r == bit_length(n as nat),
        r <= 128,
{
    let mut len: u32 = 0;
    let mut rest: u128 = n;
    proof {
        if n > 0 {
            lemma_bit_length_bounds(n as nat);
            lemma_pow2_adds(64, 64);
            lemma2_to64();
            if bit_length(n as nat) > 129 {
                lemma_pow2_strictly_increases(128, (bit_length(n as nat) - 1) as nat);
            }
        }
    }
    while rest > 0
        invariant
            bit_length(n as nat) == len + bit_length(rest as nat),
            bit_length(n as nat) <= 129,
        decreases rest,
    {
        rest = rest / 2;
        len = len + 1;
    }
    proof {
        if n > 0 && len == 129 {
            lemma_bit_length_bounds(n as nat);
            lemma_pow2_adds(64, 64);
            lemma2_to64();
        }
    }
    len
}

/// The scalar nearest to `±n · 2^e`.
pub fn round(negative: bool, n: u128, e: i64) -> (r: Scalar)
    requires
        n < ROUND_LIMIT,
        -8192 <= e <= 8192,
    ensures
        r == rounded(negative, n as nat, e as int),
{
    if n == 0 {
        return Scalar::from_parts(negative, 0);
    }
    let len: u32 = bit_length_of(n);
    proof {
        lemma_bit_length_bounds(n as nat);
    }
    let ideal: i64 = e + (len as i64) - 53;
    let q: i64 = if ideal < MIN_EXPONENT { MIN_EXPONENT } else { ideal };
    let m: u128;
    if q <= e {
        let shift: u32 = (e - q) as u32;
        let p: u128 = power_of_two(shift);
        proof {
            lemma_pow2_adds(len as nat, shift as nat);
            lemma2_to64_rest();
            if len + shift < 53 {
                lemma_pow2_strictly_increases((len + shift) as nat, 53);
            }
            lemma_mul_strict_inequality(n as int, pow2(len as nat) as int, p as int);
        }
        m = n * p;
    } else {
        let shift: i64 = q - e;
        if shift >= 127 {
            proof {
                lemma2_to64_rest();
                lemma_pow2_adds(64, 62);
                lemma_pow2_adds(64, 63);
                if shift > 127 {
                    lemma_pow2_strictly_increases(127, shift as nat);
                }
                lemma_basic_div(n as int, pow2(shift as nat) as int);
                lemma_small_mod(n as nat, pow2(shift as nat));
            }
            m = 0;
        } else {
            let p: u128 = power_of_two(shift as u32);
            let k: u128 = n / p;
            let rest: u128 = n % p;
            proof {
                lemma2_to64_rest();
                lemma_pow2_adds(64, 63);
                lemma_pow2_strictly_increases(shift as nat, 127);
            }
            m = if 2 * rest > p || (2 * rest == p && k % 2 == 1) {
                k + 1
            } else {
                k
            };
            proof {
                // n >= 2^(len-1) and the shift is at most len - 53 or the gap
                // to the smallest exponent, so the quotient stays below 2^53.
                lemma_quotient_below(n as nat, len as nat, shift as nat);
            }
        }
    }
    assert(m == target_significand(n as nat, e as int));
    assert(m <= 2 * HIDDEN_BIT);
    let steps: u128 = (q - MIN_EXPONENT) as u128;
    assert(steps * (HIDDEN_BIT as u128) <= 16384 * (HIDDEN_BIT as u128)) by (nonlinear_arith)
        requires
            steps <= 16384,
    ;
    let mag: u128 = steps * (HIDDEN_BIT as u128) + m;
    if mag >= INFINITY_BITS as u128 {
        Scalar::from_parts(negative, INFINITY_BITS)
    } else {
        Scalar::from_parts(negative, mag as u64)
    }
}

/// Cutting at least `len - 53` bits off a number of `len` bits leaves less
/// than `2^53`.
pub proof fn lemma_quotient_below(n: nat, len: nat, shift: nat)
    requires
        n < pow2(len),
        shift + 53 >= len,
    ensures
        n / pow2(shift) < 2 * HIDDEN_BIT,
{
    lemma2_to64_rest();
    lemma_pow2_pos(shift);
    let p = pow2(shift);
    if len > shift + 53 {
    } else {
        if len < shift + 53 {
            lemma_pow2_strictly_increases(len, shift + 53);
        }
        lemma_pow2_adds(shift, 53);
        // n < 2^53 * p
        lemma_fundamental_div_mod(n as int, p as int);
        let k = n / p;
        if k >= pow2(53) {
            lemma_mul_inequality(pow2(53) as int, k as int, p as int);
            assert(p * k >= pow2(53) * p) by (nonlinear_arith)
                requires
                    pow2(53) * p <= k * p,
            ;
        }
    }
}

} // verus!
