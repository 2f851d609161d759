//! Results that need no rounding, and how the operations treat signs.
use crate::rounding::{
    bit_length, lemma_bit_length_bounds, lemma_bit_length_unique, lemma_quotient_below,
    nearest_quotient, rounded, target_exponent, target_magnitude, target_significand,
};
use crate::scalar::{Scalar, HIDDEN_BIT, INFINITY_BITS, MIN_EXPONENT};
use vstd::arithmetic::div_mod::{
    lemma_basic_div, lemma_fundamental_div_mod, lemma_fundamental_div_mod_converse,
};
use vstd::arithmetic::power2::{
    lemma2_to64, lemma2_to64_rest, lemma_pow2_adds, lemma_pow2_pos,
    lemma_pow2_strictly_increases, pow2,
};
use vstd::prelude::*;

verus! {

/// A finite scalar is made of its sign, its exponent and its significand:
/// the magnitude bits are the exponent, counted from the smallest one, times
/// `2^52`, plus the significand.
pub proof fn lemma_finite_parts(x: Scalar)
    requires
        x.is_finite(),
    ensures
        x.magnitude() == (x.exponent() - MIN_EXPONENT) * HIDDEN_BIT + x.significand(),
        x.significand() < 2 * HIDDEN_BIT,
        MIN_EXPONENT <= x.exponent() <= 971,
        x.exponent() > MIN_EXPONENT ==> x.significand() >= HIDDEN_BIT,
        (x.significand() == 0) == x.is_zero(),
        x == Scalar::compose(x.negative(), x.magnitude()),
{
    let mag = x.magnitude() as int;
    let h = HIDDEN_BIT as int;
    lemma_fundamental_div_mod(mag, h);
    assert(mag == h * (mag / h) + mag % h);
    assert(0 <= mag % h < h);
    assert(0 <= mag / h <= 2046) by (nonlinear_arith)
        requires
            mag == h * (mag / h) + mag % h,
            0 <= mag % h < h,
            0 <= mag < 2047 * h,
            h > 0,
    ;
    assert(h * (mag / h) == (mag / h) * h) by (nonlinear_arith);
    if x.exponent_field() != 0 {
        assert((x.exponent() - MIN_EXPONENT) * h == (mag / h) * h - h) by (nonlinear_arith)
            requires
                x.exponent() - MIN_EXPONENT == mag / h - 1,
        ;
    } else {
        assert((x.exponent() - MIN_EXPONENT) * h == 0) by (nonlinear_arith)
            requires
                x.exponent() - MIN_EXPONENT == 0,
        ;
    }
}

/// Scaling by a power of two adds to the bit length.
pub proof fn lemma_bit_length_scaled(m: nat, k: nat)
    requires
        m > 0,
    ensures
        bit_length(m * pow2(k)) == bit_length(m) + k,
{
    lemma_bit_length_bounds(m);
    let len = bit_length(m);
    let p = pow2(k);
    lemma_pow2_pos(k);
    lemma_pow2_adds((len - 1) as nat, k);
    lemma_pow2_adds(len, k);
    assert(pow2((len - 1) as nat) * p <= m * p) by (nonlinear_arith)
        requires
            pow2((len - 1) as nat) <= m,
            p > 0,
    ;
    assert(m * p < pow2(len) * p) by (nonlinear_arith)
        requires
            m < pow2(len),
            p > 0,
    ;
    lemma_bit_length_unique(m * p, len + k);
}

/// What a scalar holds exactly is not changed by rounding: for the
/// significand `m` and the exponent `ex` of a finite scalar that is not zero,
/// `m · 2^k` at the exponent `ex - k` rounds to that scalar.
pub proof fn lemma_rounded_exact(negative: bool, m: nat, ex: int, k: nat)
    requires
        0 < m < 2 * HIDDEN_BIT,
        MIN_EXPONENT <= ex <= 971,
        ex > MIN_EXPONENT ==> m >= HIDDEN_BIT,
    ensures
        (ex - MIN_EXPONENT) * HIDDEN_BIT + m < INFINITY_BITS,
        rounded(negative, m * pow2(k), ex - k) == Scalar::compose(
            negative,
            ((ex - MIN_EXPONENT) * HIDDEN_BIT + m) as u64,
        ),
{
    lemma2_to64();
    lemma2_to64_rest();
    let p = pow2(k);
    let n = m * p;
    lemma_pow2_pos(k);
    assert(n > 0) by (nonlinear_arith)
        requires
            n == m * p,
            m > 0,
            p > 0,
    ;
    lemma_bit_length_scaled(m, k);
    lemma_bit_length_bounds(m);
    let len = bit_length(m);
    if m >= HIDDEN_BIT {
        lemma_bit_length_unique(m, 53);
    } else {
        if len > 52 {
            if len > 53 {
                lemma_pow2_strictly_increases(52, (len - 1) as nat);
            }
        }
    }
    assert(target_exponent(n, ex - k) == ex);
    if k == 0 {
        assert(n * pow2(0) == m) by (nonlinear_arith)
            requires
                n == m * p,
                p == 1,
                pow2(0) == 1,
        ;
    } else {
        lemma_fundamental_div_mod_converse(n as int, p as int, m as int, 0);
        assert(nearest_quotient(n, p) == m);
    }
    assert(target_significand(n, ex - k) == m);
    let target = (ex - MIN_EXPONENT) * HIDDEN_BIT + m;
    assert(target_magnitude(n, ex - k) == target);
    assert(0 <= target < INFINITY_BITS) by (nonlinear_arith)
        requires
            target == (ex - MIN_EXPONENT) * HIDDEN_BIT + m,
            0 <= ex - MIN_EXPONENT <= 2045,
            0 < m < 2 * HIDDEN_BIT,
            HIDDEN_BIT == 0x0010_0000_0000_0000,
            INFINITY_BITS == 0x7FF0_0000_0000_0000,
    ;
}

/// The exact value of a finite scalar, written with a smaller exponent,
/// rounds to the scalar.
pub proof fn lemma_rounded_self(x: Scalar, k: nat)
    requires
        x.is_finite(),
        !x.is_zero(),
    ensures
        rounded(x.negative(), x.significand() * pow2(k), x.exponent() - k) == x,
{
    lemma_finite_parts(x);
    lemma_rounded_exact(x.negative(), x.significand(), x.exponent(), k);
}

/// An integer of at most fifty-three bits is not changed by rounding
/// either: `n` of `53 - j` bits at the exponent `e` rounds to the scalar
/// with the significand `n · 2^j` and the exponent `e - j`.
pub proof fn lemma_rounded_short(negative: bool, n: nat, e: int, j: nat)
    requires
        n > 0,
        bit_length(n) + j == 53,
        MIN_EXPONENT <= e - j <= 971,
    ensures
        HIDDEN_BIT <= n * pow2(j) < 2 * HIDDEN_BIT,
        (e - j - MIN_EXPONENT) * HIDDEN_BIT + n * pow2(j) < INFINITY_BITS,
        rounded(negative, n, e) == Scalar::compose(
            negative,
            ((e - j - MIN_EXPONENT) * HIDDEN_BIT + n * pow2(j)) as u64,
        ),
{
    lemma2_to64();
    lemma2_to64_rest();
    lemma_bit_length_scaled(n, j);
    lemma_bit_length_bounds(n * pow2(j));
    lemma_pow2_pos(j);
    let m = n * pow2(j);
    assert(m > 0) by (nonlinear_arith)
        requires
            m == n * pow2(j),
            n > 0,
            pow2(j) > 0,
    ;
    assert(target_exponent(n, e) == e - j);
    assert(target_significand(n, e) == m);
    let target = (e - j - MIN_EXPONENT) * HIDDEN_BIT + m;
    assert(target_magnitude(n, e) == target);
    assert(0 <= target < INFINITY_BITS) by (nonlinear_arith)
        requires
            target == (e - j - MIN_EXPONENT) * HIDDEN_BIT + m,
            0 <= e - j - MIN_EXPONENT <= 2045,
            0 < m < 2 * HIDDEN_BIT,
            HIDDEN_BIT == 0x0010_0000_0000_0000,
            INFINITY_BITS == 0x7FF0_0000_0000_0000,
    ;
}

/// The scalar put together from a significand and an exponent has them:
/// for `m < 2^53` at the exponent `ex`, where `m` is at least `2^52` unless
/// `ex` is the smallest exponent.
pub proof fn lemma_parts_of(negative: bool, m: nat, ex: int)
    requires
        m < 2 * HIDDEN_BIT,
        MIN_EXPONENT <= ex <= 971,
        ex > MIN_EXPONENT ==> m >= HIDDEN_BIT,
    ensures
        (ex - MIN_EXPONENT) * HIDDEN_BIT + m < INFINITY_BITS,
        ({
            let x = Scalar::compose(negative, ((ex - MIN_EXPONENT) * HIDDEN_BIT + m) as u64);
            &&& x.is_finite()
            &&& x.negative() == negative
            &&& x.magnitude() == (ex - MIN_EXPONENT) * HIDDEN_BIT + m
            &&& x.significand() == m
            &&& x.exponent() == ex
        }),
{
    let h = HIDDEN_BIT as int;
    let steps = ex - MIN_EXPONENT;
    let mag = steps * h + m;
    assert(0 <= mag < INFINITY_BITS) by (nonlinear_arith)
        requires
            mag == steps * h + m,
            0 <= steps <= 2045,
            0 <= m < 2 * h,
            h == 0x0010_0000_0000_0000,
            INFINITY_BITS == 0x7FF0_0000_0000_0000,
    ;
    let x = Scalar::compose(negative, mag as u64);
    assert(x.magnitude() == mag);
    if m >= h {
        assert(mag == (steps + 1) * h + (m - h)) by (nonlinear_arith)
            requires
                mag == steps * h + m,
        ;
        lemma_fundamental_div_mod_converse(mag, h, steps + 1, m - h);
    } else {
        lemma_fundamental_div_mod_converse(mag, h, steps, m as int);
    }
}

/// The nearest quotient is at most one above the quotient.
pub proof fn lemma_nearest_quotient_bound(n: nat, p: nat, bound: nat)
    requires
        p > 0,
        n / p < bound,
    ensures
        nearest_quotient(n, p) <= bound,
{
}

/// Rounding does not lift a value over the next power of two: an integer
/// below `2^b` at the exponent `e` rounds to a scalar whose exponent bits
/// are at most those of `2^(e + b)`, or of the smallest normal scalar.
pub proof fn lemma_rounded_below(negative: bool, n: nat, e: int, b: nat)
    requires
        n < pow2(b),
        ({
            let top = if e + b - 53 < MIN_EXPONENT {
                MIN_EXPONENT as int
            } else {
                e + b - 53
            };
            (top - MIN_EXPONENT + 2) * HIDDEN_BIT <= INFINITY_BITS
        }),
    ensures
        ({
            let top = if e + b - 53 < MIN_EXPONENT {
                MIN_EXPONENT as int
            } else {
                e + b - 53
            };
            rounded(negative, n, e).magnitude() <= (top - MIN_EXPONENT + 2) * HIDDEN_BIT
        }),
{
    lemma2_to64();
    lemma2_to64_rest();
    let top = if e + b - 53 < MIN_EXPONENT {
        MIN_EXPONENT as int
    } else {
        e + b - 53
    };
    let h = HIDDEN_BIT as int;
    assert((top - MIN_EXPONENT + 2) * h >= 0) by (nonlinear_arith)
        requires
            top - MIN_EXPONENT + 2 >= 0,
            h >= 0,
    ;
    if n > 0 {
        lemma_bit_length_bounds(n);
        let len = bit_length(n);
        if len > b {
            if len - 1 > b {
                lemma_pow2_strictly_increases(b, (len - 1) as nat);
            }
        }
        let q = target_exponent(n, e);
        assert(q <= top);
        let sig = target_significand(n, e);
        if q <= e {
            let shift = (e - q) as nat;
            lemma_pow2_adds(len, shift);
            lemma_pow2_pos(shift);
            if len + shift < 53 {
                lemma_pow2_strictly_increases(len + shift, 53);
            }
            assert(n * pow2(shift) < pow2(len) * pow2(shift)) by (nonlinear_arith)
                requires
                    n < pow2(len),
                    pow2(shift) > 0,
            ;
            assert(pow2(len + shift) <= pow2(53));
            assert(sig == n * pow2(shift));
            assert(sig <= 2 * h);
        } else {
            lemma_quotient_below(n, len, (q - e) as nat);
            lemma_pow2_pos((q - e) as nat);
            lemma_nearest_quotient_bound(n, pow2((q - e) as nat), 2 * HIDDEN_BIT as nat);
        }
        assert(sig as int <= 2 * h);
        assert((q - MIN_EXPONENT) * h + sig <= (top - MIN_EXPONENT + 2) * h) by (nonlinear_arith)
            requires
                q <= top,
                sig <= 2 * h,
                h >= 0,
        ;
    }
}

/// The whole part of a finite scalar with a small exponent is small: where
/// the exponent plus fifty-three is at most `bits`, it is below `2^bits`.
pub proof fn lemma_whole_part_below(x: Scalar, bits: nat)
    requires
        x.is_finite(),
        x.exponent() + 53 <= bits,
    ensures
        x.whole_part() < pow2(bits),
{
    lemma2_to64_rest();
    lemma_finite_parts(x);
    let m = x.significand();
    let ex = x.exponent();
    lemma_pow2_pos(bits);
    if ex >= 0 {
        let p = pow2(ex as nat);
        lemma_pow2_pos(ex as nat);
        lemma_pow2_adds(53, ex as nat);
        if 53 + ex < bits {
            lemma_pow2_strictly_increases((53 + ex) as nat, bits);
        }
        assert(m * p < pow2(53) * p) by (nonlinear_arith)
            requires
                m < pow2(53),
                p > 0,
        ;
    } else {
        let cut = (-ex) as nat;
        let p = pow2(cut);
        lemma_pow2_pos(cut);
        if cut >= 53 {
            if cut > 53 {
                lemma_pow2_strictly_increases(53, cut);
            }
            lemma_basic_div(m as int, p as int);
        } else {
            let rest = (53 - cut) as nat;
            lemma_pow2_adds(rest, cut);
            if rest < bits {
                lemma_pow2_strictly_increases(rest, bits);
            }
            lemma_fundamental_div_mod(m as int, p as int);
            let k = m as int / p as int;
            if k >= pow2(rest) {
                assert(p * k >= pow2(rest) * p) by (nonlinear_arith)
                    requires
                        k >= pow2(rest),
                        p > 0,
                ;
            }
        }
    }
}

/// Rounding gives a scalar that is no NaN and has the sign that was asked
/// for; with the other sign it gives the negated scalar.
pub proof fn lemma_rounded_sign(negative: bool, n: nat, e: int)
    ensures
        !rounded(negative, n, e).is_nan(),
        rounded(negative, n, e).negative() == negative,
        rounded(!negative, n, e) == rounded(negative, n, e).neg_spec(),
        rounded(negative, n, e).magnitude() == rounded(!negative, n, e).magnitude(),
{
}

/// Negation changes the sign bit and nothing else.
pub proof fn lemma_neg_parts(x: Scalar)
    ensures
        x.neg_spec().negative() == !x.negative(),
        x.neg_spec().magnitude() == x.magnitude(),
        x.neg_spec().is_nan() == x.is_nan(),
        x.neg_spec().is_infinite() == x.is_infinite(),
        x.neg_spec().is_zero() == x.is_zero(),
        x.neg_spec().significand() == x.significand(),
        x.neg_spec().exponent() == x.exponent(),
        x.neg_spec().rank() == -x.rank(),
        x.neg_spec().neg_spec() == x,
{
}

/// The product of two negated scalars is the product of the scalars.
pub proof fn lemma_mul_neg_both(a: Scalar, b: Scalar)
    ensures
        a.neg_spec().mul_spec(b.neg_spec()) == a.mul_spec(b),
{
    reveal(Scalar::mul_spec);
    lemma_neg_parts(a);
    lemma_neg_parts(b);
}

/// Negating one factor negates a product that is no NaN.
pub proof fn lemma_mul_neg(a: Scalar, b: Scalar)
    requires
        !a.mul_spec(b).is_nan(),
    ensures
        a.mul_spec(b.neg_spec()) == a.mul_spec(b).neg_spec(),
        a.neg_spec().mul_spec(b) == a.mul_spec(b).neg_spec(),
{
    reveal(Scalar::mul_spec);
    lemma_neg_parts(a);
    lemma_neg_parts(b);
    let n = a.significand() * b.significand();
    let e = a.exponent() + b.exponent();
    lemma_rounded_sign(a.negative() != b.negative(), n, e);
}

/// Negating the divisor negates a quotient that is no NaN.
pub proof fn lemma_div_neg(a: Scalar, b: Scalar)
    requires
        !a.div_spec(b).is_nan(),
    ensures
        a.div_spec(b.neg_spec()) == a.div_spec(b).neg_spec(),
{
    reveal(Scalar::div_spec);
    lemma_neg_parts(a);
    lemma_neg_parts(b);
    let sa = crate::division::normal_shift(a.significand());
    let sb = crate::division::normal_shift(b.significand());
    let n = crate::division::jammed_quotient(
        a.significand() * pow2(sa),
        b.significand() * pow2(sb),
    );
    let e = (a.exponent() - sa) - (b.exponent() - sb) - crate::division::SCALE_BITS - 1;
    lemma_rounded_sign(a.negative() != b.negative(), n, e);
}

/// The order of the factors does not change a product.
pub proof fn lemma_mul_commutes(a: Scalar, b: Scalar)
    ensures
        a.mul_spec(b) == b.mul_spec(a),
{
    reveal(Scalar::mul_spec);
    assert(a.significand() * b.significand() == b.significand() * a.significand())
        by (nonlinear_arith);
}

/// The order of the terms does not change a sum.
pub proof fn lemma_add_commutes(a: Scalar, b: Scalar)
    ensures
        a.add_spec(b) == b.add_spec(a),
{
    reveal(Scalar::add_spec);
}

/// A finite scalar minus itself is zero, with a positive sign.
pub proof fn lemma_sub_self(a: Scalar)
    requires
        a.is_finite(),
    ensures
        a.sub_spec(a) == (Scalar { bits: 0 }),
{
    reveal(Scalar::add_spec);
    lemma_neg_parts(a);
    let p = pow2(0);
    let m = a.significand() as int;
    assert(m * p + (-m) * p == 0) by (nonlinear_arith);
    assert((-m) * p + m * p == 0) by (nonlinear_arith);
}

/// A sum with a NaN is a NaN, and so is a product.
pub proof fn lemma_nan_spreads(a: Scalar, b: Scalar)
    requires
        a.is_nan() || b.is_nan(),
    ensures
        a.add_spec(b).is_nan(),
        a.mul_spec(b).is_nan(),
{
    reveal(Scalar::add_spec);
    reveal(Scalar::mul_spec);
}

/// Negating both terms negates a sum that is no NaN, but for the sign of a
/// zero: the sum of the negated terms has the value of the negated sum, and
/// is the negated sum where that is not zero.
pub proof fn lemma_add_neg_both(a: Scalar, b: Scalar)
    requires
        !a.add_spec(b).is_nan(),
    ensures
        !a.neg_spec().add_spec(b.neg_spec()).is_nan(),
        a.neg_spec().add_spec(b.neg_spec()).rank() == -a.add_spec(b).rank(),
        !a.add_spec(b).is_zero() ==> a.neg_spec().add_spec(b.neg_spec()) == a.add_spec(
            b,
        ).neg_spec(),
{
    reveal(Scalar::add_spec);
    lemma_neg_parts(a);
    lemma_neg_parts(b);
    if a.is_finite() && b.is_finite() {
        let e = if a.exponent() <= b.exponent() {
            a.exponent()
        } else {
            b.exponent()
        };
        let p = pow2((a.exponent() - e) as nat);
        let q = pow2((b.exponent() - e) as nat);
        let x = a.signed_significand();
        let y = b.signed_significand();
        assert((-x) * p + (-y) * q == -(x * p + y * q)) by (nonlinear_arith);
        assert(a.neg_spec().signed_significand() == -x);
        assert(b.neg_spec().signed_significand() == -y);
        let sum = a.exact_sum(b);
        assert(a.neg_spec().exact_sum(b.neg_spec()) == -sum);
        if sum > 0 {
            lemma_rounded_sign(false, sum as nat, e);
        } else if sum < 0 {
            lemma_rounded_sign(true, (-sum) as nat, e);
        }
    }
}

/// A zero plus a scalar that is no NaN has the value of the scalar.
pub proof fn lemma_zero_plus(zero: Scalar, x: Scalar)
    requires
        zero.is_zero(),
        !x.is_nan(),
    ensures
        zero.add_spec(x).eq_spec(x),
{
    lemma_add_zero(x, zero);
    lemma_add_commutes(x, zero);
}

/// A finite scalar times a zero is a zero.
pub proof fn lemma_mul_zero(a: Scalar, zero: Scalar)
    requires
        a.is_finite(),
        zero.is_zero(),
    ensures
        a.mul_spec(zero).is_zero(),
{
    reveal(Scalar::mul_spec);
    assert(zero.significand() == 0);
    assert(a.significand() * zero.significand() == 0) by (nonlinear_arith)
        requires
            zero.significand() == 0,
    ;
}

/// Adding a zero to a scalar that is no NaN leaves its value: the sum
/// equals the scalar, though `-0 + 0` is `0`.
pub proof fn lemma_add_zero(x: Scalar, zero: Scalar)
    requires
        !x.is_nan(),
        zero.is_zero(),
    ensures
        x.add_spec(zero).eq_spec(x),
        !x.is_zero() ==> x.add_spec(zero) == x,
{
    reveal(Scalar::add_spec);
    lemma2_to64();
    assert(zero.significand() == 0);
    assert(zero.exponent() == MIN_EXPONENT);
    assert(zero.signed_significand() == 0);
    if x.is_finite() {
        lemma_finite_parts(x);
        let k = (x.exponent() - MIN_EXPONENT) as nat;
        let m = x.significand();
        let p = pow2(k);
        lemma_pow2_pos(k);
        assert(0 * pow2(0) == 0) by (nonlinear_arith);
        assert((-(m as int)) * p == -(m * p)) by (nonlinear_arith);
        assert(x.exact_sum(zero) == x.signed_significand() * p);
        if x.is_zero() {
            assert(x.signed_significand() * p == 0) by (nonlinear_arith)
                requires
                    x.signed_significand() == 0,
            ;
        } else {
            assert(m * p > 0) by (nonlinear_arith)
                requires
                    m > 0,
                    p > 0,
            ;
            lemma_rounded_self(x, k);
        }
    }
}

/// The scalar one: its significand is `2^52` and its exponent `-52`.
pub proof fn lemma_one_parts()
    ensures
        Scalar::one_spec().is_finite(),
        !Scalar::one_spec().negative(),
        Scalar::one_spec().significand() == HIDDEN_BIT,
        Scalar::one_spec().exponent() == -52,
{
    let one = Scalar::one_spec();
    let h = HIDDEN_BIT as int;
    assert(one.magnitude() == 1023 * h);
    assert(one.exponent_field() == 1023);
    assert(one.fraction() == 0);
}

/// A scalar that is no NaN, times one, is the scalar.
pub proof fn lemma_mul_one(x: Scalar)
    requires
        !x.is_nan(),
    ensures
        x.mul_spec(Scalar::one_spec()) == x,
{
    reveal(Scalar::mul_spec);
    lemma2_to64_rest();
    lemma_one_parts();
    if x.is_finite() {
        lemma_finite_parts(x);
        if x.is_zero() {
            assert(x.significand() * Scalar::one_spec().significand() == 0) by (nonlinear_arith)
                requires
                    x.significand() == 0,
            ;
        } else {
            lemma_rounded_self(x, 52);
        }
    }
}

/// One divided by one is one.
pub proof fn lemma_one_over_one()
    ensures
        Scalar::one_spec().div_spec(Scalar::one_spec()) == Scalar::one_spec(),
{
    reveal(Scalar::div_spec);
    lemma2_to64();
    lemma2_to64_rest();
    lemma_one_parts();
    let h = HIDDEN_BIT as nat;
    lemma_bit_length_unique(h, 53);
    assert(crate::division::normal_shift(h) == 0);
    assert(h * pow2(0) == h) by (nonlinear_arith)
        requires
            pow2(0) == 1,
    ;
    let scaled = h * crate::division::SCALE as nat;
    lemma_fundamental_div_mod_converse(scaled as int, h as int, crate::division::SCALE as int, 0);
    assert(crate::division::jammed_quotient(h, h) == 2 * crate::division::SCALE);
    lemma_rounded_exact(false, h, -52, 11);
    assert(h * pow2(11) == 2 * crate::division::SCALE) by (nonlinear_arith)
        requires
            h == 0x0010_0000_0000_0000,
            pow2(11) == 0x800,
            crate::division::SCALE == 0x4000_0000_0000_0000,
    ;
}

/// The scalars that are no NaN are ordered by `rank` as their values are
/// ordered: for two finite scalars, `rank` is smaller exactly when the
/// significand with its sign, brought to the smaller of the two exponents,
/// is smaller.
pub proof fn lemma_rank_orders_values(a: Scalar, b: Scalar)
    requires
        a.is_finite(),
        b.is_finite(),
    ensures
        ({
            let e = if a.exponent() <= b.exponent() {
                a.exponent()
            } else {
                b.exponent()
            };
            (a.rank() < b.rank()) == (a.signed_significand() * pow2((a.exponent() - e) as nat)
                < b.signed_significand() * pow2((b.exponent() - e) as nat))
        }),
{
    lemma2_to64();
    lemma_finite_parts(a);
    lemma_finite_parts(b);
    let h = HIDDEN_BIT as int;
    let e = if a.exponent() <= b.exponent() {
        a.exponent()
    } else {
        b.exponent()
    };
    let ka = (a.exponent() - e) as nat;
    let kb = (b.exponent() - e) as nat;
    let va = a.significand() * pow2(ka);
    let vb = b.significand() * pow2(kb);
    lemma_pow2_pos(ka);
    lemma_pow2_pos(kb);
    lemma_magnitude_orders_values(a, b);
    assert(a.signed_significand() * pow2(ka) == if a.negative() {
        -(va as int)
    } else {
        va as int
    }) by (nonlinear_arith)
        requires
            a.signed_significand() == if a.negative() {
                -(a.significand() as int)
            } else {
                a.significand() as int
            },
            va == a.significand() * pow2(ka),
    ;
    assert(b.signed_significand() * pow2(kb) == if b.negative() {
        -(vb as int)
    } else {
        vb as int
    }) by (nonlinear_arith)
        requires
            b.signed_significand() == if b.negative() {
                -(b.significand() as int)
            } else {
                b.significand() as int
            },
            vb == b.significand() * pow2(kb),
    ;
    assert(va >= 0 && vb >= 0);
    assert((va == 0) == (a.magnitude() == 0)) by (nonlinear_arith)
        requires
            va == a.significand() * pow2(ka),
            pow2(ka) > 0,
            (a.significand() == 0) == (a.magnitude() == 0),
    ;
    assert((vb == 0) == (b.magnitude() == 0)) by (nonlinear_arith)
        requires
            vb == b.significand() * pow2(kb),
            pow2(kb) > 0,
            (b.significand() == 0) == (b.magnitude() == 0),
    ;
}

/// The magnitude bits of two finite scalars are ordered as their absolute
/// values are.
pub proof fn lemma_magnitude_orders_values(a: Scalar, b: Scalar)
    requires
        a.is_finite(),
        b.is_finite(),
    ensures
        ({
            let e = if a.exponent() <= b.exponent() {
                a.exponent()
            } else {
                b.exponent()
            };
            let va = a.significand() * pow2((a.exponent() - e) as nat);
            let vb = b.significand() * pow2((b.exponent() - e) as nat);
            &&& (a.magnitude() < b.magnitude()) == (va < vb)
            &&& (a.magnitude() == b.magnitude()) == (va == vb)
        }),
{
    lemma2_to64();
    lemma_finite_parts(a);
    lemma_finite_parts(b);
    let h = HIDDEN_BIT as int;
    let ma = a.significand() as int;
    let mb = b.significand() as int;
    let ea = a.exponent();
    let eb = b.exponent();
    if ea == eb {
        assert(ma * pow2(0) == ma && mb * pow2(0) == mb) by (nonlinear_arith)
            requires
                pow2(0) == 1,
        ;
    } else if ea < eb {
        let k = (eb - ea) as nat;
        lemma_pow2_pos(k);
        lemma_pow2_strictly_increases(0, k);
        assert(ma * pow2(0) == ma) by (nonlinear_arith)
            requires
                pow2(0) == 1,
        ;
        assert(mb * pow2(k) >= 2 * h) by (nonlinear_arith)
            requires
                mb >= h,
                pow2(k) >= 2,
                h > 0,
        ;
        assert((ea - MIN_EXPONENT) * h + ma < (eb - MIN_EXPONENT) * h + mb) by (nonlinear_arith)
            requires
                ea < eb,
                ma < 2 * h,
                mb >= h,
                h > 0,
        ;
    } else {
        let k = (ea - eb) as nat;
        lemma_pow2_pos(k);
        lemma_pow2_strictly_increases(0, k);
        assert(mb * pow2(0) == mb) by (nonlinear_arith)
            requires
                pow2(0) == 1,
        ;
        assert(ma * pow2(k) >= 2 * h) by (nonlinear_arith)
            requires
                ma >= h,
                pow2(k) >= 2,
                h > 0,
        ;
        assert((eb - MIN_EXPONENT) * h + mb < (ea - MIN_EXPONENT) * h + ma) by (nonlinear_arith)
            requires
                eb < ea,
                mb < 2 * h,
                ma >= h,
                h > 0,
        ;
    }
}

/// What rounding gives is nearest: where `n · 2^e` has more bits than a
/// significand holds, the significand `s` that is chosen at the exponent
/// `q` differs from the exact value by at most half a unit of `2^q`, and in
/// a tie it is even; where it has no more bits, nothing is lost.
pub proof fn lemma_rounded_nearest(n: nat, e: int)
    requires
        n > 0,
    ensures
        ({
            let q = target_exponent(n, e);
            let s = target_significand(n, e);
            if q <= e {
                s == n * pow2((e - q) as nat)
            } else {
                let unit = pow2((q - e) as nat);
                &&& 2 * (n - s * unit) <= unit
                &&& 2 * (s * unit - n) <= unit
                &&& (2 * (n - s * unit) == unit || 2 * (s * unit - n) == unit) ==> s % 2 == 0
            }
        }),
{
    let q = target_exponent(n, e);
    if q > e {
        let unit = pow2((q - e) as nat);
        lemma_pow2_pos((q - e) as nat);
        lemma_fundamental_div_mod(n as int, unit as int);
        let k = n / unit;
        let rest = n % unit;
        assert(n == unit * k + rest);
        assert(0 <= rest < unit);
        assert((k + 1) * unit == unit * k + unit) by (nonlinear_arith);
        assert(k * unit == unit * k) by (nonlinear_arith);
    }
}

} // verus!
