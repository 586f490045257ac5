//! Rounded arithmetic keeps the numeric order.
use crate::binary32::{
    integer, lemma_magnitude_fields, product, signed, sum, Binary32, UNIT_EXPONENT,
};
use crate::rounding::{
    half_even, has_spacing, lemma_half_even_bounds, lemma_nearest_monotone, lemma_spacing_exists,
    lemma_spacing_is, nearest, spacing, IMPLICIT, INFINITE, SIGNIFICANDS,
};
use vstd::arithmetic::div_mod::{lemma_fundamental_div_mod, lemma_fundamental_div_mod_converse};
use vstd::arithmetic::power2::{
    lemma2_to64, lemma_pow2_adds, lemma_pow2_pos, lemma_pow2_strictly_increases,
    lemma_pow2_unfold, pow2,
};
use vstd::math::abs;
use vstd::prelude::*;

verus! {

/// A greater magnitude has no fewer units.
pub proof fn lemma_units_monotone(a: Binary32, b: Binary32)
    requires
        a.magnitude() <= b.magnitude(),
        b.finite(),
    ensures
        a.units() <= b.units(),
{
    lemma_magnitude_fields(a);
    lemma_magnitude_fields(b);
    let s = a.exponent();
    let t = b.exponent();
    lemma_pow2_pos(s);
    if s == t {
        assert(a.units() <= b.units()) by (nonlinear_arith)
            requires
                a.units() == a.significand() * pow2(s),
                b.units() == b.significand() * pow2(s),
                a.significand() <= b.significand(),
        ;
    } else {
        assert(s < t);
        lemma_pow2_unfold((s + 1) as nat);
        if s + 1 < t {
            lemma_pow2_strictly_increases((s + 1) as nat, t);
        }
        assert(a.units() <= b.units()) by (nonlinear_arith)
            requires
                a.units() == a.significand() * pow2(s),
                b.units() == b.significand() * pow2(t),
                a.significand() <= SIGNIFICANDS,
                b.significand() >= IMPLICIT,
                2 * pow2(s) <= pow2(t),
        ;
    }
}

/// The values of finite numbers are in their order.
pub proof fn lemma_value_monotone(a: Binary32, b: Binary32)
    requires
        a.finite(),
        b.finite(),
        a.order() <= b.order(),
    ensures
        a.value() <= b.value(),
{
    lemma_magnitude_fields(a);
    lemma_magnitude_fields(b);
    if a.negative() && b.negative() {
        lemma_units_monotone(b, a);
    } else if !a.negative() && !b.negative() {
        lemma_units_monotone(a, b);
    }
}

/// Zero rounds to zero.
pub proof fn lemma_nearest_zero(d: nat)
    requires
        d > 0,
    ensures
        nearest(0, d) == 0,
{
    lemma2_to64();
    assert(has_spacing(0, d, 0));
    lemma_spacing_is(0, d, 0);
    lemma_fundamental_div_mod_converse(0, (d * pow2(0)) as int, 0, 0);
}

/// A finite number rounds to itself.
pub proof fn lemma_nearest_exact(a: Binary32)
    requires
        a.finite(),
    ensures
        nearest(a.units(), 1) == a.magnitude(),
{
    let t = a.exponent();
    let p = pow2(t);
    lemma_magnitude_fields(a);
    lemma_pow2_pos(t);
    assert(a.units() < SIGNIFICANDS * (1 * p)) by (nonlinear_arith)
        requires
            a.units() == a.significand() * p,
            a.significand() < SIGNIFICANDS,
            p > 0,
    ;
    assert(t > 0 ==> IMPLICIT * (1 * p) <= a.units()) by (nonlinear_arith)
        requires
            a.units() == a.significand() * p,
            t > 0 ==> a.significand() >= IMPLICIT,
            p > 0,
    ;
    assert(has_spacing(a.units(), 1, t));
    lemma_spacing_is(a.units(), 1, t);
    lemma_fundamental_div_mod_converse(a.units() as int, p as int, a.significand() as int, 0);
}

/// Multiplication by a number without a sign keeps the order.
pub proof fn lemma_product_monotone(a: Binary32, b: Binary32, c: Binary32)
    requires
        !a.nan(),
        !b.nan(),
        a.order() <= b.order(),
        !c.negative(),
    ensures
        !product(b, c).less(product(a, c)),
{
    if !product(a, c).nan() && !product(b, c).nan() {
        lemma_pow2_pos(UNIT_EXPONENT as nat);
        if a.negative() && b.negative() {
            lemma_product_magnitude_monotone(b, a, c);
        } else if !a.negative() && !b.negative() {
            lemma_product_magnitude_monotone(a, b, c);
        } else if !a.negative() {
            assert(a.zero() && b.zero());
            lemma_magnitude_fields(a);
            lemma_magnitude_fields(b);
            assert(a.units() * c.units() == 0 && b.units() * c.units() == 0) by (nonlinear_arith)
                requires
                    a.units() == 0,
                    b.units() == 0,
            ;
            lemma_nearest_zero(pow2(UNIT_EXPONENT as nat));
        }
    }
}

proof fn lemma_product_magnitude_monotone(a: Binary32, b: Binary32, c: Binary32)
    requires
        a.magnitude() <= b.magnitude(),
        !product(a, c).nan(),
        !product(b, c).nan(),
    ensures
        product(a, c).magnitude() <= product(b, c).magnitude(),
{
    lemma_pow2_pos(UNIT_EXPONENT as nat);
    let one = pow2(UNIT_EXPONENT as nat);
    if b.finite() && c.finite() {
        lemma_units_monotone(a, b);
        assert((a.units() * c.units()) * one <= (b.units() * c.units()) * one) by (nonlinear_arith)
            requires
                a.units() <= b.units(),
        ;
        lemma_nearest_monotone(a.units() * c.units(), one, b.units() * c.units(), one);
    }
}

/// The rounded value of a whole number of units, as a place in the order.
spec fn rounded(x: int) -> int {
    if x < 0 {
        -(nearest((-x) as nat, 1) as int)
    } else {
        nearest(x as nat, 1) as int
    }
}

proof fn lemma_rounded_monotone(x: int, y: int)
    requires
        x <= y,
    ensures
        rounded(x) <= rounded(y),
{
    if x >= 0 {
        lemma_nearest_monotone(x as nat, 1, y as nat, 1);
    } else if y < 0 {
        lemma_nearest_monotone((-y) as nat, 1, (-x) as nat, 1);
    }
}

/// Addition keeps the order.
pub proof fn lemma_sum_monotone(a: Binary32, b: Binary32, c: Binary32)
    requires
        !a.nan(),
        !b.nan(),
        a.order() <= b.order(),
    ensures
        !sum(b, c).less(sum(a, c)),
{
    if a.finite() && b.finite() && c.finite() {
        lemma_value_monotone(a, b);
        lemma_rounded_monotone(a.value() + c.value(), b.value() + c.value());
        lemma_nearest_zero(1);
        assert(sum(a, c).order() == rounded(a.value() + c.value()));
        assert(sum(b, c).order() == rounded(b.value() + c.value()));
    }
}

/// The numbers nearest to integers are in their order.
pub proof fn lemma_integer_monotone(i: int, j: int)
    requires
        i <= j,
    ensures
        !integer(i).nan(),
        !integer(j).nan(),
        integer(i).order() <= integer(j).order(),
{
    let one = pow2(UNIT_EXPONENT as nat);
    assert(i >= 0 ==> i * one <= j * one) by (nonlinear_arith)
        requires
            i <= j,
    ;
    assert(j < 0 ==> (-j) * one <= (-i) * one) by (nonlinear_arith)
        requires
            i <= j,
    ;
    if i >= 0 {
        lemma_nearest_monotone(i as nat * one, 1, j as nat * one, 1);
    } else if j < 0 {
        lemma_nearest_monotone((-j) as nat * one, 1, (-i) as nat * one, 1);
    }
}

/// The units of the magnitude that a spacing and a quotient make up.
pub proof fn lemma_units_of(t: nat, q: nat)
    requires
        t * IMPLICIT + q < INFINITE,
        q <= SIGNIFICANDS,
        t == 0 || q >= IMPLICIT,
    ensures
        signed(false, (t * IMPLICIT + q) as nat).units() == q * pow2(t),
{
    lemma2_to64();
    lemma_pow2_unfold((t + 1) as nat);
    let m = (t * IMPLICIT + q) as int;
    if q == SIGNIFICANDS {
        lemma_fundamental_div_mod_converse(m, IMPLICIT as int, (t + 2) as int, 0);
        assert(IMPLICIT * (2 * pow2(t)) == q * pow2(t)) by (nonlinear_arith)
            requires
                q == SIGNIFICANDS,
        ;
    } else if q >= IMPLICIT {
        lemma_fundamental_div_mod_converse(m, IMPLICIT as int, (t + 1) as int, q - IMPLICIT);
    }
}

/// `half_even` is an integer nearest to the quotient.
pub proof fn lemma_half_even_nearest(n: nat, d: nat, m: int)
    requires
        d > 0,
    ensures
        abs(half_even(n, d) * d - n) <= abs(m * d - n),
{
    let q = (n / d) as int;
    let r = (n % d) as int;
    lemma_fundamental_div_mod(n as int, d as int);
    let h = half_even(n, d) as int;
    assert(n == q * d + r) by (nonlinear_arith)
        requires
            n == d * q + r,
    ;
    assert((q + 1) * d == q * d + d) by (nonlinear_arith);
    if m <= q {
        assert(m * d <= q * d) by (nonlinear_arith)
            requires
                m <= q,
                d > 0,
        ;
    } else {
        assert(m * d >= (q + 1) * d) by (nonlinear_arith)
            requires
                m >= q + 1,
                d > 0,
        ;
    }
}

/// Where the quotient rounds to a finite magnitude, no finite magnitude is
/// nearer to it.
pub proof fn law_rounding_is_nearest(n: nat, d: nat, b: Binary32)
    requires
        d > 0,
        nearest(n, d) < INFINITE,
        b.finite(),
    ensures
        abs(signed(false, nearest(n, d)).units() * d - n) <= abs(b.units() * d - n),
{
    let t = spacing(n, d);
    let p = pow2(t);
    let w = d * p;
    let q = half_even(n, w);
    lemma_spacing_exists(n, d);
    lemma_pow2_pos(t);
    assert(w > 0) by (nonlinear_arith)
        requires
            w == d * p,
            d > 0,
            p > 0,
    ;
    lemma_half_even_bounds(
        n,
        w,
        if t == 0 {
            0
        } else {
            IMPLICIT as nat
        },
        SIGNIFICANDS as nat,
    );
    lemma_units_of(t, q);
    assert((q * p) * d == q * w) by (nonlinear_arith)
        requires
            w == d * p,
    ;
    lemma_magnitude_fields(b);
    let e = b.exponent();
    if e >= t {
        let m = (b.significand() * pow2((e - t) as nat)) as int;
        lemma_pow2_adds((e - t) as nat, t);
        assert(b.units() * d == m * w) by (nonlinear_arith)
            requires
                b.units() == b.significand() * (pow2((e - t) as nat) * p),
                m == b.significand() * pow2((e - t) as nat),
                w == d * p,
        ;
        lemma_half_even_nearest(n, w, m);
    } else {
        lemma_pow2_unfold((e + 1) as nat);
        if e + 1 < t {
            lemma_pow2_strictly_increases((e + 1) as nat, t);
        }
        assert(b.units() * d <= IMPLICIT * w) by (nonlinear_arith)
            requires
                b.units() == b.significand() * pow2(e),
                b.significand() <= SIGNIFICANDS,
                2 * pow2(e) <= p,
                w == d * p,
                d > 0,
        ;
        lemma_half_even_nearest(n, w, IMPLICIT as int);
    }
}

} // verus!
