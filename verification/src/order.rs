//! Rounding keeps the order of the values, and does not ask how a value is
//! written.
use crate::convert::{ONE_BITS, TWO_BITS};
use crate::division::{
    integer_root, jammed_quotient, jammed_root, lemma_integer_root_exists, normal_shift, SCALE,
    SCALE_BITS,
};
use crate::exact::{
    lemma_add_commutes, lemma_add_neg_both, lemma_bit_length_scaled, lemma_finite_parts,
    lemma_magnitude_orders_values, lemma_mul_commutes, lemma_mul_neg, lemma_mul_one,
    lemma_mul_zero, lemma_neg_parts, lemma_parts_of, lemma_rank_orders_values,
    lemma_rounded_below, lemma_rounded_exact, lemma_rounded_self, lemma_rounded_sign,
};
use crate::rounding::{
    bit_length, lemma_bit_length_bounds, lemma_bit_length_unique, lemma_quotient_below,
    nearest_quotient, rounded, target_exponent, target_magnitude, target_significand,
};
use crate::scalar::{Scalar, HIDDEN_BIT, INFINITY_BITS, MIN_EXPONENT};
use vstd::arithmetic::div_mod::{
    lemma_div_is_ordered, lemma_div_multiples_vanish_quotient, lemma_fundamental_div_mod,
    lemma_fundamental_div_mod_converse, lemma_truncate_middle,
};
use vstd::arithmetic::power2::{
    lemma2_to64, lemma2_to64_rest, lemma_pow2_adds, lemma_pow2_pos,
    lemma_pow2_strictly_increases, pow2,
};
use vstd::prelude::*;

verus! {

/// A larger number has no fewer bits.
pub proof fn lemma_bit_length_monotone(a: nat, b: nat)
    requires
        a <= b,
    ensures
        bit_length(a) <= bit_length(b),
{
    if a > 0 {
        lemma_bit_length_bounds(a);
        lemma_bit_length_bounds(b);
        let la = bit_length(a);
        let lb = bit_length(b);
        if la > lb {
            if la - 1 > lb {
                lemma_pow2_strictly_increases(lb, (la - 1) as nat);
            }
        }
    }
}

/// The nearest quotient of a larger number is no smaller.
pub proof fn lemma_nearest_quotient_monotone(a: nat, b: nat, p: nat)
    requires
        a <= b,
        p > 0,
    ensures
        nearest_quotient(a, p) <= nearest_quotient(b, p),
{
    lemma_div_is_ordered(a as int, b as int, p as int);
    lemma_fundamental_div_mod(a as int, p as int);
    lemma_fundamental_div_mod(b as int, p as int);
}

/// The nearest quotient does not change when dividend and divisor are
/// scaled alike.
pub proof fn lemma_nearest_quotient_scaled(n: nat, p: nat, c: nat)
    requires
        p > 0,
        c > 0,
    ensures
        nearest_quotient(c * n, c * p) == nearest_quotient(n, p),
{
    lemma_div_multiples_vanish_quotient(c as int, n as int, p as int);
    lemma_truncate_middle(n as int, c as int, p as int);
    let rest = n % p;
    assert(2 * (c * rest) > c * p <==> 2 * rest > p) by (nonlinear_arith)
        requires
            c > 0,
    ;
    assert(2 * (c * rest) == c * p <==> 2 * rest == p) by (nonlinear_arith)
        requires
            c > 0,
    ;
}

/// The significand that rounding chooses has at most fifty-three bits, or
/// is `2^53`; above the smallest exponent it has no fewer.
pub proof fn lemma_target_significand_bounds(n: nat, e: int)
    requires
        n > 0,
    ensures
        target_significand(n, e) <= 2 * HIDDEN_BIT,
        target_exponent(n, e) > MIN_EXPONENT ==> target_significand(n, e) >= HIDDEN_BIT,
{
    lemma2_to64();
    lemma2_to64_rest();
    lemma_bit_length_bounds(n);
    let len = bit_length(n);
    let q = target_exponent(n, e);
    let h = HIDDEN_BIT as int;
    if q <= e {
        let shift = (e - q) as nat;
        lemma_pow2_adds(len, shift);
        lemma_pow2_pos(shift);
        if len + shift < 53 {
            lemma_pow2_strictly_increases(len + shift, 53);
        }
        assert(n * pow2(shift) < pow2(len) * pow2(shift)) by (nonlinear_arith)
            requires
                n < pow2(len),
                pow2(shift) > 0,
        ;
        if q > MIN_EXPONENT {
            lemma_pow2_adds((len - 1) as nat, shift);
            assert(pow2((len - 1) as nat) * pow2(shift) <= n * pow2(shift)) by (nonlinear_arith)
                requires
                    pow2((len - 1) as nat) <= n,
                    pow2(shift) > 0,
            ;
        }
    } else {
        let shift = (q - e) as nat;
        let p = pow2(shift);
        lemma_pow2_pos(shift);
        lemma_quotient_below(n, len, shift);
        assert(nearest_quotient(n, p) <= n / p + 1);
        if q > MIN_EXPONENT {
            lemma_pow2_adds(52, shift);
            lemma_div_is_ordered((pow2(52) * p) as int, n as int, p as int);
            lemma_fundamental_div_mod_converse((pow2(52) * p) as int, p as int, pow2(52) as int, 0);
            assert(nearest_quotient(n, p) >= n / p);
        }
    }
}

/// Rounding keeps the order: of two integers at one exponent the larger
/// rounds to a scalar that is no smaller.
pub proof fn lemma_rounded_monotone(n1: nat, n2: nat, e: int)
    requires
        n1 <= n2,
    ensures
        rounded(false, n1, e).magnitude() <= rounded(false, n2, e).magnitude(),
{
    let h = HIDDEN_BIT as int;
    if n1 > 0 {
        lemma_bit_length_monotone(n1, n2);
        lemma_target_significand_bounds(n1, e);
        lemma_target_significand_bounds(n2, e);
        let q1 = target_exponent(n1, e);
        let q2 = target_exponent(n2, e);
        let s1 = target_significand(n1, e);
        let s2 = target_significand(n2, e);
        assert(q1 <= q2);
        if q1 == q2 {
            if q1 <= e {
                let p = pow2((e - q1) as nat);
                assert(n1 * p <= n2 * p) by (nonlinear_arith)
                    requires
                        n1 <= n2,
                        p >= 0,
                ;
            } else {
                lemma_pow2_pos((q1 - e) as nat);
                lemma_nearest_quotient_monotone(n1, n2, pow2((q1 - e) as nat));
            }
            assert(s1 <= s2);
        } else {
            assert((q1 - MIN_EXPONENT) * h + 2 * h <= (q2 - MIN_EXPONENT) * h + h)
                by (nonlinear_arith)
                requires
                    q1 + 1 <= q2,
                    h >= 0,
            ;
        }
        assert(target_magnitude(n1, e) <= target_magnitude(n2, e));
        assert(target_magnitude(n1, e) >= 0) by (nonlinear_arith)
            requires
                target_magnitude(n1, e) == (q1 - MIN_EXPONENT) * h + s1,
                q1 >= MIN_EXPONENT,
                h >= 0,
                s1 >= 0,
        ;
    }
}

/// Rounding does not ask how a value is written: `n · 2^k` at the exponent
/// `e - k` rounds as `n` at the exponent `e`.
pub proof fn lemma_rounded_scaled(negative: bool, n: nat, e: int, k: nat)
    ensures
        rounded(negative, n * pow2(k), e - k) == rounded(negative, n, e),
{
    lemma2_to64();
    let c = pow2(k);
    lemma_pow2_pos(k);
    if n == 0 {
        assert(n * c == 0) by (nonlinear_arith)
            requires
                n == 0,
        ;
    } else {
        assert(n * c > 0) by (nonlinear_arith)
            requires
                n > 0,
                c > 0,
        ;
        lemma_bit_length_scaled(n, k);
        let q = target_exponent(n, e);
        assert(target_exponent(n * c, e - k) == q);
        if q <= e - k {
            let shift = (e - k - q) as nat;
            lemma_pow2_adds(k, shift);
            assert((n * c) * pow2(shift) == n * (c * pow2(shift))) by (nonlinear_arith);
        } else if q <= e {
            let up = (e - q) as nat;
            let down = (q - e + k) as nat;
            lemma_pow2_adds(up, down);
            lemma_pow2_pos(down);
            let m = n * pow2(up);
            assert(n * c == pow2(down) * m + 0) by (nonlinear_arith)
                requires
                    c == pow2(up) * pow2(down),
                    m == n * pow2(up),
            ;
            lemma_fundamental_div_mod_converse(
                (n * c) as int,
                pow2(down) as int,
                m as int,
                0,
            );
        } else {
            let shift = (q - e) as nat;
            lemma_pow2_adds(k, shift);
            lemma_pow2_pos(shift);
            lemma_nearest_quotient_scaled(n, pow2(shift), c);
            assert(n * c == c * n) by (nonlinear_arith);
            assert(pow2(shift + k) == c * pow2(shift)) by (nonlinear_arith)
                requires
                    pow2(k + shift) == pow2(k) * pow2(shift),
                    c == pow2(k),
                    pow2(shift + k) == pow2(k + shift),
            ;
        }
        assert(target_significand(n * c, e - k) == target_significand(n, e));
    }
}

/// A product grows with its factor: for finite scalars that are not
/// negative, the larger of two times a third is no smaller.
pub proof fn lemma_mul_monotone(a: Scalar, b: Scalar, c: Scalar)
    requires
        a.is_finite() && !a.negative(),
        b.is_finite() && !b.negative(),
        c.is_finite() && !c.negative(),
        a.rank() <= b.rank(),
    ensures
        a.mul_spec(c).le_spec(b.mul_spec(c)),
{
    reveal(Scalar::mul_spec);
    lemma_finite_parts(a);
    lemma_finite_parts(b);
    lemma_finite_parts(c);
    lemma_magnitude_orders_values(a, b);
    let e0 = if a.exponent() <= b.exponent() {
        a.exponent()
    } else {
        b.exponent()
    };
    let ka = (a.exponent() - e0) as nat;
    let kb = (b.exponent() - e0) as nat;
    let ma = a.significand();
    let mb = b.significand();
    let mc = c.significand();
    let e = e0 + c.exponent();
    lemma_rounded_scaled(false, ma * mc, a.exponent() + c.exponent(), ka);
    lemma_rounded_scaled(false, mb * mc, b.exponent() + c.exponent(), kb);
    let n1 = (ma * mc) * pow2(ka);
    let n2 = (mb * mc) * pow2(kb);
    assert(n1 <= n2) by (nonlinear_arith)
        requires
            ma * pow2(ka) <= mb * pow2(kb),
            n1 == (ma * mc) * pow2(ka),
            n2 == (mb * mc) * pow2(kb),
            mc >= 0,
    ;
    lemma_rounded_monotone(n1, n2, e);
}

/// The difference the other way round is the negated difference, but for
/// the sign of a zero.
pub proof fn lemma_sub_antisymmetric(x: Scalar, y: Scalar)
    requires
        !x.sub_spec(y).is_nan(),
    ensures
        !y.sub_spec(x).is_nan(),
        y.sub_spec(x).rank() == -x.sub_spec(y).rank(),
{
    lemma_neg_parts(y);
    lemma_add_neg_both(x, y.neg_spec());
    lemma_add_commutes(x.neg_spec(), y);
}

/// A sum or a product that is finite has finite terms or factors.
pub proof fn lemma_finite_result(x: Scalar, y: Scalar)
    ensures
        x.add_spec(y).is_finite() ==> x.is_finite() && y.is_finite(),
        x.mul_spec(y).is_finite() ==> x.is_finite() && y.is_finite(),
        x.sub_spec(y).is_finite() ==> x.is_finite() && y.is_finite(),
{
    reveal(Scalar::add_spec);
    reveal(Scalar::mul_spec);
    lemma_neg_parts(y);
}

/// The square of a scalar asks for its magnitude alone, and is not
/// negative.
pub proof fn lemma_square(x: Scalar, y: Scalar)
    requires
        x.magnitude() == y.magnitude(),
    ensures
        x.mul_spec(x) == y.mul_spec(y),
        !x.mul_spec(x).negative(),
{
    reveal(Scalar::mul_spec);
    lemma_rounded_sign(false, x.significand() * x.significand(), x.exponent() + x.exponent());
}

/// A scalar times its opposite is the negated square, but for the sign of
/// a zero.
pub proof fn lemma_mul_opposite(x: Scalar, y: Scalar)
    requires
        x.is_finite(),
        y.is_finite(),
        y.rank() == -x.rank(),
    ensures
        !x.mul_spec(y).is_nan(),
        x.mul_spec(y).rank() == -x.mul_spec(x).rank(),
{
    reveal(Scalar::mul_spec);
    let n = x.significand() * x.significand();
    let e = x.exponent() + x.exponent();
    assert(y.magnitude() == x.magnitude());
    lemma_rounded_sign(false, n, e);
    lemma_rounded_sign(x.negative() != y.negative(), n, e);
    if x.is_zero() {
        assert(x.significand() == 0);
        assert(n == 0) by (nonlinear_arith)
            requires
                n == x.significand() * x.significand(),
                x.significand() == 0,
        ;
    }
}

/// A sum asks for the values of its terms alone, but for the sign of a
/// zero: terms of equal value give sums of equal value.
pub proof fn lemma_add_value_congruent(x: Scalar, y: Scalar, v: Scalar, w: Scalar)
    requires
        x.eq_spec(v),
        y.eq_spec(w),
    ensures
        x.add_spec(y).is_nan() == v.add_spec(w).is_nan(),
        !x.add_spec(y).is_nan() ==> x.add_spec(y).rank() == v.add_spec(w).rank(),
{
    reveal(Scalar::add_spec);
    if x.is_zero() {
        assert(v.is_zero());
        assert(x.significand() == 0 && v.significand() == 0);
    } else {
        assert(x == v);
    }
    if y.is_zero() {
        assert(w.is_zero());
        assert(y.significand() == 0 && w.significand() == 0);
    } else {
        assert(y == w);
    }
    if x.is_finite() && y.is_finite() {
        assert(x.signed_significand() == v.signed_significand());
        assert(y.signed_significand() == w.signed_significand());
        assert(x.exponent() == v.exponent());
        assert(y.exponent() == w.exponent());
        assert(x.exact_sum(y) == v.exact_sum(w));
    }
}

/// Terms of the opposite values give the opposite sum.
pub proof fn lemma_add_mirror(x: Scalar, y: Scalar, v: Scalar, w: Scalar)
    requires
        !x.add_spec(y).is_nan(),
        !x.is_nan() && !y.is_nan() && !v.is_nan() && !w.is_nan(),
        v.rank() == -x.rank(),
        w.rank() == -y.rank(),
    ensures
        !v.add_spec(w).is_nan(),
        v.add_spec(w).rank() == -x.add_spec(y).rank(),
{
    lemma_neg_parts(x);
    lemma_neg_parts(y);
    lemma_add_neg_both(x, y);
    lemma_add_value_congruent(x.neg_spec(), y.neg_spec(), v, w);
}

/// The sum of two scalars that are not negative is not negative.
pub proof fn lemma_add_not_negative(x: Scalar, y: Scalar)
    requires
        !x.negative(),
        !y.negative(),
    ensures
        !x.add_spec(y).negative(),
{
    reveal(Scalar::add_spec);
    if x.is_finite() && y.is_finite() {
        let e = if x.exponent() <= y.exponent() {
            x.exponent()
        } else {
            y.exponent()
        };
        let p = pow2((x.exponent() - e) as nat);
        let q = pow2((y.exponent() - e) as nat);
        lemma_pow2_pos((x.exponent() - e) as nat);
        lemma_pow2_pos((y.exponent() - e) as nat);
        let sum = x.exact_sum(y);
        assert(sum >= 0) by (nonlinear_arith)
            requires
                sum == x.signed_significand() * p + y.signed_significand() * q,
                x.signed_significand() >= 0,
                y.signed_significand() >= 0,
                p > 0,
                q > 0,
        ;
        if sum > 0 {
            lemma_rounded_sign(false, sum as nat, e);
        }
    }
}

/// Taking something that is not negative away does not raise a scalar:
/// for finite scalars that are not negative, the difference is finite and
/// at most the first.
pub proof fn lemma_sub_not_above(x: Scalar, y: Scalar)
    requires
        x.is_finite() && !x.negative(),
        y.is_finite() && !y.negative(),
    ensures
        x.sub_spec(y).is_finite(),
        x.sub_spec(y).rank() <= x.rank(),
{
    reveal(Scalar::add_spec);
    lemma_neg_parts(y);
    lemma_finite_parts(x);
    lemma_finite_parts(y);
    let e = if x.exponent() <= y.exponent() {
        x.exponent()
    } else {
        y.exponent()
    };
    let kx = (x.exponent() - e) as nat;
    let ky = (y.exponent() - e) as nat;
    let p = pow2(kx);
    let q = pow2(ky);
    lemma_pow2_pos(kx);
    lemma_pow2_pos(ky);
    let mx = x.significand();
    let my = y.significand();
    let sum = x.exact_sum(y.neg_spec());
    assert(sum == mx * p - my * q) by (nonlinear_arith)
        requires
            sum == (mx as int) * p + (-(my as int)) * q,
    ;
    assert(my * q >= 0) by (nonlinear_arith)
        requires
            my >= 0,
            q > 0,
    ;
    assert(mx * p >= 0) by (nonlinear_arith)
        requires
            mx >= 0,
            p > 0,
    ;
    if sum > 0 {
        lemma_rounded_monotone(sum as nat, mx * p, e);
        assert(mx > 0) by (nonlinear_arith)
            requires
                mx * p > 0,
                p > 0,
                mx >= 0,
        ;
        lemma_rounded_self(x, kx);
        lemma_rounded_sign(false, sum as nat, e);
    } else if sum < 0 {
        lemma_rounded_sign(true, (-sum) as nat, e);
        lemma_rounded_monotone((-sum) as nat, my * q, e);
        if my > 0 {
            lemma_rounded_self(y, ky);
        } else {
            assert(my * q == 0) by (nonlinear_arith)
                requires
                    my == 0,
            ;
        }
        lemma_rounded_sign(false, my * q, e);
    }
}

/// A difference of ordered scalars is not negative: where `q` is at most
/// `p` and `p` is finite, `p - q` is no NaN and at least zero.
pub proof fn lemma_sub_of_ordered(p: Scalar, q: Scalar)
    requires
        p.is_finite(),
        q.le_spec(p),
    ensures
        (Scalar { bits: 0 }).le_spec(p.sub_spec(q)),
{
    reveal(Scalar::add_spec);
    lemma_neg_parts(q);
    if q.is_finite() {
        lemma_rank_orders_values(p, q);
        let e = if p.exponent() <= q.exponent() {
            p.exponent()
        } else {
            q.exponent()
        };
        let vp = p.signed_significand() * pow2((p.exponent() - e) as nat);
        let vq = q.signed_significand() * pow2((q.exponent() - e) as nat);
        let sum = p.exact_sum(q.neg_spec());
        assert(sum == vp - vq) by (nonlinear_arith)
            requires
                sum == p.signed_significand() * pow2((p.exponent() - e) as nat) + (
                -q.signed_significand()) * pow2((q.exponent() - e) as nat),
                vp == p.signed_significand() * pow2((p.exponent() - e) as nat),
                vq == q.signed_significand() * pow2((q.exponent() - e) as nat),
        ;
        if sum > 0 {
            lemma_rounded_sign(false, sum as nat, e);
        }
    }
}

/// A product with a factor that is not negative grows with the other
/// factor, whatever its sign: for finite scalars, `a` not negative and `c`
/// at most `a`, the product of `a` and `c` is at most the square of `a`.
pub proof fn lemma_mul_below_square(a: Scalar, c: Scalar)
    requires
        a.is_finite() && !a.negative(),
        c.is_finite(),
        c.rank() <= a.rank(),
    ensures
        a.mul_spec(c).le_spec(a.mul_spec(a)),
{
    if c.negative() {
        reveal(Scalar::mul_spec);
        lemma_rounded_sign(true, a.significand() * c.significand(), a.exponent() + c.exponent());
        lemma_rounded_sign(false, a.significand() * a.significand(), a.exponent() + a.exponent());
    } else {
        lemma_mul_monotone(c, a, a);
        lemma_mul_commutes(a, c);
    }
}

/// The jammed quotient of a larger dividend is no smaller.
pub proof fn lemma_jam_monotone(n1: nat, n2: nat, d: nat)
    requires
        n1 <= n2,
        d > 0,
    ensures
        jammed_quotient(n1, d) <= jammed_quotient(n2, d),
{
    let a = n1 * SCALE as nat;
    let b = n2 * SCALE as nat;
    assert(a <= b) by (nonlinear_arith)
        requires
            n1 <= n2,
            a == n1 * SCALE as nat,
            b == n2 * SCALE as nat,
    ;
    lemma_div_is_ordered(a as int, b as int, d as int);
    lemma_fundamental_div_mod(a as int, d as int);
    lemma_fundamental_div_mod(b as int, d as int);
}

/// A significand brought to fifty-three bits: `m · 2^normal_shift(m)` lies
/// from `2^52` to below `2^53`.
pub proof fn lemma_normal_range(m: nat)
    requires
        0 < m < 2 * HIDDEN_BIT,
    ensures
        bit_length(m) <= 53,
        HIDDEN_BIT <= m * pow2(normal_shift(m)) < 2 * HIDDEN_BIT,
{
    lemma2_to64_rest();
    lemma_bit_length_bounds(m);
    let len = bit_length(m);
    if len > 53 {
        if len > 54 {
            lemma_pow2_strictly_increases(53, (len - 1) as nat);
        }
    }
    lemma_bit_length_scaled(m, normal_shift(m));
    lemma_bit_length_bounds(m * pow2(normal_shift(m)));
}

/// The magnitude of a quotient grows with the magnitude of the dividend:
/// for finite scalars and a divisor that is not zero.
pub proof fn lemma_div_magnitude_monotone(u: Scalar, v: Scalar, a: Scalar)
    requires
        u.is_finite(),
        v.is_finite(),
        a.is_finite(),
        !a.is_zero(),
        u.magnitude() <= v.magnitude(),
    ensures
        u.div_spec(a).magnitude() <= v.div_spec(a).magnitude(),
        !u.div_spec(a).is_nan(),
        !v.div_spec(a).is_nan(),
        u.div_spec(a).negative() == (u.negative() != a.negative()),
        v.div_spec(a).negative() == (v.negative() != a.negative()),
        u.is_zero() ==> u.div_spec(a).is_zero(),
{
    reveal(Scalar::div_spec);
    lemma2_to64();
    lemma2_to64_rest();
    lemma_finite_parts(u);
    lemma_finite_parts(v);
    lemma_finite_parts(a);
    let ma = a.significand();
    let sa = normal_shift(ma);
    let den = ma * pow2(sa);
    lemma_normal_range(ma);
    let fa = a.exponent() - sa;
    if !v.is_zero() {
        let mv = v.significand();
        let sv = normal_shift(mv);
        let nv = mv * pow2(sv);
        lemma_normal_range(mv);
        let fv = v.exponent() - sv;
        let jv = jammed_quotient(nv, den);
        lemma_rounded_sign(v.negative() != a.negative(), jv, fv - fa - SCALE_BITS - 1);
        lemma_rounded_sign(false, jv, fv - fa - SCALE_BITS - 1);
        if !u.is_zero() {
            let mu = u.significand();
            let su = normal_shift(mu);
            let nu = mu * pow2(su);
            lemma_normal_range(mu);
            let fu = u.exponent() - su;
            let ju = jammed_quotient(nu, den);
            lemma_rounded_sign(u.negative() != a.negative(), ju, fu - fa - SCALE_BITS - 1);
            lemma_rounded_sign(false, ju, fu - fa - SCALE_BITS - 1);
            lemma_magnitude_orders_values(u, v);
            lemma_normal_order(u, v);
            if fu == fv {
                lemma_jam_monotone(nu, nv, den);
                lemma_rounded_monotone(ju, jv, fu - fa - SCALE_BITS - 1);
            } else {
                let gap = (fv - fu) as nat;
                lemma_jam_gap(nu, nv, den);
                lemma_pow2_strictly_increases(0, gap);
                assert(ju <= jv * pow2(gap)) by (nonlinear_arith)
                    requires
                        ju <= 2 * jv,
                        pow2(gap) >= 2,
                        jv >= 0,
                ;
                lemma_rounded_scaled(false, jv, fv - fa - SCALE_BITS - 1, gap);
                lemma_rounded_monotone(ju, jv * pow2(gap), fu - fa - SCALE_BITS - 1);
            }
        }
    }
}

/// Two finite scalars that are not zero, the first of no larger magnitude:
/// brought to fifty-three bits, the first has the smaller exponent, or the
/// same exponent and no larger a significand.
pub proof fn lemma_normal_order(u: Scalar, v: Scalar)
    requires
        u.is_finite() && !u.is_zero(),
        v.is_finite() && !v.is_zero(),
        u.magnitude() <= v.magnitude(),
    ensures
        ({
            let su = normal_shift(u.significand());
            let sv = normal_shift(v.significand());
            let fu = u.exponent() - su;
            let fv = v.exponent() - sv;
            fu < fv || (fu == fv && u.significand() * pow2(su) <= v.significand() * pow2(sv))
        }),
{
    lemma2_to64();
    lemma2_to64_rest();
    lemma_finite_parts(u);
    lemma_finite_parts(v);
    let mu = u.significand();
    let mv = v.significand();
    let su = normal_shift(mu);
    let sv = normal_shift(mv);
    lemma_normal_range(mu);
    lemma_normal_range(mv);
    let nu = mu * pow2(su);
    let nv = mv * pow2(sv);
    let fu = u.exponent() - su;
    let fv = v.exponent() - sv;
    let h = HIDDEN_BIT as int;
    // A scalar above the smallest exponent is normal already; below it the
    // exponent is the smallest, and the shift says how small the scalar is.
    assert(u.exponent() > MIN_EXPONENT ==> su == 0) by {
        if u.exponent() > MIN_EXPONENT {
            lemma_bit_length_unique(mu, 53);
        }
    }
    assert(v.exponent() > MIN_EXPONENT ==> sv == 0) by {
        if v.exponent() > MIN_EXPONENT {
            lemma_bit_length_unique(mv, 53);
        }
    }
    lemma_pow2_pos(su);
    lemma_pow2_pos(sv);
    if su == 0 {
        assert(mu * pow2(0) == mu) by (nonlinear_arith)
            requires
                pow2(0) == 1,
        ;
    }
    if sv == 0 {
        assert(mv * pow2(0) == mv) by (nonlinear_arith)
            requires
                pow2(0) == 1,
        ;
    }
    if u.exponent() == v.exponent() {
        // Equal exponents: the magnitudes are ordered as the significands.
        assert(mu <= mv);
        if su == sv {
            assert(mu * pow2(su) <= mv * pow2(su)) by (nonlinear_arith)
                requires
                    mu <= mv,
                    pow2(su) > 0,
            ;
        } else if su < sv {
            // The first has more bits than the second: impossible.
            lemma_bit_length_monotone(mu, mv);
        }
    } else if u.exponent() < v.exponent() {
        // The second is normal, and its exponent is above that of the first.
        assert(sv == 0);
    } else {
        // The first has the larger exponent and is normal, so its magnitude
        // is the larger: impossible.
        assert((u.exponent() - MIN_EXPONENT) * h + mu > (v.exponent() - MIN_EXPONENT) * h + mv)
            by (nonlinear_arith)
            requires
                u.exponent() > v.exponent(),
                mu >= h,
                mv < 2 * h,
                h > 0,
        ;
    }
}

/// Of two dividends of fifty-three bits the jammed quotient of the one is
/// at most twice that of the other.
pub proof fn lemma_jam_gap(n1: nat, n2: nat, d: nat)
    requires
        HIDDEN_BIT <= n1 < 2 * HIDDEN_BIT,
        HIDDEN_BIT <= n2 < 2 * HIDDEN_BIT,
        HIDDEN_BIT <= d < 2 * HIDDEN_BIT,
    ensures
        jammed_quotient(n1, d) <= 2 * jammed_quotient(n2, d),
{
    let s = SCALE as int;
    let a = n1 * SCALE as nat;
    let b = n2 * SCALE as nat;
    lemma_fundamental_div_mod(a as int, d as int);
    lemma_fundamental_div_mod(b as int, d as int);
    let qa = a as int / d as int;
    let qb = b as int / d as int;
    let ra = a as int % d as int;
    let rb = b as int % d as int;
    assert(a == d * qa + ra);
    assert(b == d * qb + rb);
    assert(0 <= ra < d && 0 <= rb < d);
    let h = HIDDEN_BIT as int;
    assert(2 * qa + 1 <= 4 * qb) by (nonlinear_arith)
        requires
            a == n1 * s,
            b == n2 * s,
            a == d * qa + ra,
            b == d * qb + rb,
            0 <= ra < d,
            0 <= rb < d,
            h <= n1 < 2 * h,
            h <= n2 < 2 * h,
            h <= d < 2 * h,
            h == 0x0010_0000_0000_0000,
            s == 0x4000_0000_0000_0000,
    ;
}

/// A quotient grows with its dividend: for scalars that are no NaN, and
/// a finite divisor that is above zero, the quotient of the smaller is at
/// most that of the larger.
pub proof fn lemma_div_monotone(u: Scalar, v: Scalar, a: Scalar)
    requires
        u.le_spec(v),
        a.is_finite(),
        !a.is_zero(),
        !a.negative(),
    ensures
        u.div_spec(a).le_spec(v.div_spec(a)),
{
    if u.is_finite() && v.is_finite() {
        if u.negative() && v.negative() {
            lemma_div_magnitude_monotone(v, u, a);
        } else if !u.negative() && !v.negative() {
            lemma_div_magnitude_monotone(u, v, a);
        } else if u.negative() {
            lemma_div_magnitude_monotone(u, u, a);
            lemma_div_magnitude_monotone(v, v, a);
        } else {
            assert(u.is_zero() && v.is_zero());
            lemma_div_magnitude_monotone(u, v, a);
            lemma_div_magnitude_monotone(v, u, a);
        }
    } else if u.is_finite() {
        lemma_div_magnitude_monotone(u, u, a);
        lemma_infinite_quotient(v, a);
    } else if v.is_finite() {
        lemma_div_magnitude_monotone(v, v, a);
        lemma_infinite_quotient(u, a);
    } else {
        lemma_infinite_quotient(u, a);
        lemma_infinite_quotient(v, a);
    }
}

/// An infinity over a finite scalar that is not negative is the infinity.
pub proof fn lemma_infinite_quotient(u: Scalar, a: Scalar)
    requires
        u.is_infinite(),
        a.is_finite(),
        !a.negative(),
    ensures
        u.div_spec(a) == u,
{
    reveal(Scalar::div_spec);
}

/// Taking away does not raise and adding does not lower: for finite
/// scalars, the second not below zero, the first lies between the
/// difference and the sum.
pub proof fn lemma_sub_add_around(x: Scalar, s: Scalar)
    requires
        x.is_finite(),
        s.is_finite(),
        s.rank() >= 0,
    ensures
        x.sub_spec(s).le_spec(x),
        x.le_spec(x.add_spec(s)),
{
    reveal(Scalar::add_spec);
    lemma_neg_parts(s);
    lemma_finite_parts(x);
    lemma_finite_parts(s);
    let e = if x.exponent() <= s.exponent() {
        x.exponent()
    } else {
        s.exponent()
    };
    let kx = (x.exponent() - e) as nat;
    let p = pow2(kx);
    let q = pow2((s.exponent() - e) as nat);
    lemma_pow2_pos(kx);
    lemma_pow2_pos((s.exponent() - e) as nat);
    let mx = x.significand() as int;
    let vx = x.signed_significand() * p;
    let ms = s.significand() as int;
    let vs = ms * q;
    assert(vs >= 0) by (nonlinear_arith)
        requires
            vs == ms * q,
            ms >= 0,
            q > 0,
    ;
    let up = x.exact_sum(s);
    let down = x.exact_sum(s.neg_spec());
    assert(up == vx + vs) by (nonlinear_arith)
        requires
            up == x.signed_significand() * p + s.signed_significand() * q,
            vx == x.signed_significand() * p,
            vs == ms * q,
            s.signed_significand() == ms || ms == 0,
            s.signed_significand() == ms || s.signed_significand() == -ms,
    ;
    assert(down == vx - vs) by (nonlinear_arith)
        requires
            down == x.signed_significand() * p + s.neg_spec().signed_significand() * q,
            vx == x.signed_significand() * p,
            vs == ms * q,
            s.neg_spec().signed_significand() == -ms || ms == 0,
            s.neg_spec().signed_significand() == ms || s.neg_spec().signed_significand() == -ms,
    ;
    lemma_signed_rounding_monotone(down, vx, e);
    lemma_signed_rounding_monotone(vx, up, e);
    // The exact value of `x` rounds to `x`.
    if mx > 0 {
        lemma_rounded_self(x, kx);
        assert(mx * p > 0) by (nonlinear_arith)
            requires
                mx > 0,
                p > 0,
        ;
        assert((-mx) * p == -(mx * p)) by (nonlinear_arith);
    } else {
        assert(vx == 0) by (nonlinear_arith)
            requires
                vx == x.signed_significand() * p,
                x.signed_significand() == 0,
        ;
    }
}

/// A finite scalar that is not zero, divided by itself, is one.
pub proof fn lemma_div_self(a: Scalar)
    requires
        a.is_finite(),
        !a.is_zero(),
    ensures
        a.div_spec(a) == Scalar::one_spec(),
{
    reveal(Scalar::div_spec);
    lemma2_to64();
    lemma2_to64_rest();
    lemma_finite_parts(a);
    let m = a.significand();
    let shift = normal_shift(m);
    lemma_normal_range(m);
    let n = m * pow2(shift);
    let scaled = n * SCALE as nat;
    assert(scaled == n * (SCALE as nat) + 0);
    lemma_fundamental_div_mod_converse(scaled as int, n as int, SCALE as int, 0);
    assert(jammed_quotient(n, n) == 2 * SCALE);
    let h = HIDDEN_BIT as nat;
    lemma_rounded_exact(false, h, -52, 11);
    assert(h * pow2(11) == 2 * SCALE) by (nonlinear_arith)
        requires
            h == 0x0010_0000_0000_0000,
            pow2(11) == 0x800,
            SCALE == 0x4000_0000_0000_0000,
    ;
}

/// Rounding keeps the order of integers of either sign.
pub proof fn lemma_signed_rounding_monotone(v1: int, v2: int, e: int)
    requires
        v1 <= v2,
    ensures
        ({
            let r1 = if v1 < 0 {
                rounded(true, (-v1) as nat, e)
            } else {
                rounded(false, v1 as nat, e)
            };
            let r2 = if v2 < 0 {
                rounded(true, (-v2) as nat, e)
            } else {
                rounded(false, v2 as nat, e)
            };
            r1.rank() <= r2.rank()
        }),
{
    if v1 < 0 {
        lemma_rounded_sign(true, (-v1) as nat, e);
        lemma_rounded_sign(false, (-v1) as nat, e);
        if v2 < 0 {
            lemma_rounded_sign(true, (-v2) as nat, e);
            lemma_rounded_sign(false, (-v2) as nat, e);
            lemma_rounded_monotone((-v2) as nat, (-v1) as nat, e);
        } else {
            lemma_rounded_sign(false, v2 as nat, e);
        }
    } else {
        lemma_rounded_sign(false, v1 as nat, e);
        lemma_rounded_sign(false, v2 as nat, e);
        lemma_rounded_monotone(v1 as nat, v2 as nat, e);
    }
}

/// The square root of a finite scalar that is not below zero is finite and
/// not below zero.
pub proof fn lemma_sqrt_not_negative(d: Scalar)
    requires
        d.is_finite(),
        d.rank() >= 0,
    ensures
        d.sqrt_spec().is_finite(),
        d.sqrt_spec().rank() >= 0,
{
    reveal(Scalar::sqrt_spec);
    lemma2_to64();
    lemma2_to64_rest();
    if !d.is_zero() {
        lemma_finite_parts(d);
        let m0 = d.significand();
        let shift = normal_shift(m0);
        lemma_normal_range(m0);
        let m = m0 * pow2(shift);
        let e = d.exponent() - shift;
        let x = if e % 2 == 0 {
            m
        } else {
            2 * m
        };
        let half = if e % 2 == 0 {
            (e - SCALE_BITS) / 2 - 1
        } else {
            (e - 1 - SCALE_BITS) / 2 - 1
        };
        let scaled = x * SCALE as nat;
        lemma_integer_root_exists(scaled);
        let r = integer_root(scaled);
        let jam = jammed_root(x);
        lemma_pow2_adds(58, 2);
        lemma_pow2_adds(32, 26);
        assert(pow2(58) == 0x0400_0000_0000_0000);
        assert(pow2(60) == 0x1000_0000_0000_0000);
        assert(r < 0x0400_0000_0000_0000) by (nonlinear_arith)
            requires
                r * r <= scaled,
                scaled == x * SCALE as nat,
                x < 0x0040_0000_0000_0000,
                SCALE == 0x4000_0000_0000_0000,
        ;
        assert(jam < pow2(60));
        lemma_rounded_below(false, jam, half, 60);
        lemma_rounded_sign(false, jam, half);
    }
}

/// A product asks for the value of its factor alone, but for the sign of
/// a zero: finite factors of equal value give products of equal value, with
/// a finite other factor.
pub proof fn lemma_mul_value_congruent(a: Scalar, x: Scalar, v: Scalar)
    requires
        a.is_finite(),
        x.is_finite(),
        x.eq_spec(v),
    ensures
        a.mul_spec(x).eq_spec(a.mul_spec(v)),
        x.mul_spec(a).eq_spec(v.mul_spec(a)),
{
    lemma_mul_commutes(a, x);
    lemma_mul_commutes(a, v);
    if x.is_zero() {
        lemma_mul_zero(a, x);
        lemma_mul_zero(a, v);
    } else {
        assert(x == v);
        reveal(Scalar::mul_spec);
        lemma_rounded_sign(
            a.negative() != x.negative(),
            a.significand() * x.significand(),
            a.exponent() + x.exponent(),
        );
    }
}

/// A scalar times one or minus one is the scalar or its negation.
pub proof fn lemma_mul_unit(x: Scalar, unit: Scalar)
    requires
        !x.is_nan(),
        unit.magnitude() == ONE_BITS,
    ensures
        x.mul_spec(unit) == if unit.negative() {
            x.neg_spec()
        } else {
            x
        },
        unit.mul_spec(x) == x.mul_spec(unit),
{
    lemma_mul_commutes(x, unit);
    lemma_mul_one(x);
    if unit.negative() {
        assert(unit == Scalar::one_spec().neg_spec());
        lemma_mul_neg(x, Scalar::one_spec());
    } else {
        assert(unit == Scalar::one_spec());
    }
}

/// Twice a finite scalar, where that is finite, has the sign of the scalar
/// and exactly twice its value.
pub proof fn lemma_double(x: Scalar)
    requires
        x.is_finite(),
        (Scalar { bits: TWO_BITS }).mul_spec(x).is_finite(),
    ensures
        ({
            let y = (Scalar { bits: TWO_BITS }).mul_spec(x);
            &&& y.negative() == x.negative()
            &&& y.exponent() >= x.exponent()
            &&& y.signed_significand() * pow2((y.exponent() - x.exponent()) as nat) == 2
                * x.signed_significand()
        }),
{
    reveal(Scalar::mul_spec);
    lemma2_to64();
    lemma2_to64_rest();
    let two = Scalar { bits: TWO_BITS };
    let h = HIDDEN_BIT as nat;
    assert(two.magnitude() == 1024 * h);
    assert(two.exponent_field() == 1024);
    assert(two.fraction() == 0);
    assert(two.significand() == h);
    assert(two.exponent() == -51);
    lemma_finite_parts(x);
    let m = x.significand();
    let ex = x.exponent();
    let sign = x.negative();
    let y = two.mul_spec(x);
    assert(h * m == m * pow2(52)) by (nonlinear_arith)
        requires
            h == pow2(52),
    ;
    lemma_rounded_scaled(sign, m, ex + 1, 52);
    assert(y == rounded(sign, m, ex + 1));
    if m == 0 {
        assert(y == Scalar::compose(sign, 0));
        assert(y.significand() == 0);
        assert(0 * pow2((y.exponent() - x.exponent()) as nat) == 0) by (nonlinear_arith);
    } else if m >= h {
        if ex + 1 > 971 {
            // Twice the scalar lies beyond the largest finite scalar.
            lemma_bit_length_unique(m, 53);
            assert(m * pow2(0) == m) by (nonlinear_arith)
                requires
                    pow2(0) == 1,
            ;
            assert(target_magnitude(m, ex + 1) >= INFINITY_BITS) by (nonlinear_arith)
                requires
                    target_magnitude(m, ex + 1) == (ex + 1 - MIN_EXPONENT) * h + m,
                    ex + 1 >= 972,
                    m >= h,
                    h == 0x0010_0000_0000_0000,
                    MIN_EXPONENT == -1074,
                    INFINITY_BITS == 0x7FF0_0000_0000_0000,
            ;
        } else {
            assert(m * pow2(0) == m) by (nonlinear_arith)
                requires
                    pow2(0) == 1,
            ;
            lemma_rounded_exact(sign, m, ex + 1, 0);
            lemma_parts_of(sign, m, ex + 1);
            assert((-(m as int)) * pow2(1) == -(m * pow2(1))) by (nonlinear_arith);
        }
    } else {
        lemma_rounded_scaled(sign, m, ex + 1, 1);
        assert(m * pow2(1) == 2 * m) by (nonlinear_arith)
            requires
                pow2(1) == 2,
        ;
        assert((2 * m) * pow2(0) == 2 * m) by (nonlinear_arith)
            requires
                pow2(0) == 1,
        ;
        lemma_rounded_exact(sign, 2 * m, ex, 0);
        lemma_parts_of(sign, 2 * m, ex);
        assert((-((2 * m) as int)) * pow2(0) == -((2 * m) as int)) by (nonlinear_arith)
            requires
                pow2(0) == 1,
        ;
    }
}

/// A finite scalar minus twice itself is its negation, where twice the
/// scalar is finite.
pub proof fn lemma_sub_double(x: Scalar)
    requires
        x.is_finite(),
        (Scalar { bits: TWO_BITS }).mul_spec(x).is_finite(),
    ensures
        x.sub_spec((Scalar { bits: TWO_BITS }).mul_spec(x)).eq_spec(x.neg_spec()),
{
    reveal(Scalar::add_spec);
    lemma2_to64();
    let y = (Scalar { bits: TWO_BITS }).mul_spec(x);
    lemma_double(x);
    lemma_neg_parts(y);
    lemma_neg_parts(x);
    lemma_finite_parts(x);
    let k = (y.exponent() - x.exponent()) as nat;
    let sx = x.signed_significand();
    let sy = y.signed_significand();
    let sum = x.exact_sum(y.neg_spec());
    assert(sum == -sx) by (nonlinear_arith)
        requires
            sum == sx * pow2(0) + (-sy) * pow2(k),
            sy * pow2(k) == 2 * sx,
            pow2(0) == 1,
    ;
    if sx != 0 {
        lemma_rounded_self(x.neg_spec(), 0);
        assert(x.significand() * pow2(0) == x.significand()) by (nonlinear_arith)
            requires
                pow2(0) == 1,
        ;
    }
}

} // verus!
