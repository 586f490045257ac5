//! What the bit patterns stand for, and what arithmetic on them is for: of all
//! binary32 numbers, each operation returns the one nearest to its exact result.
use crate::binary32::{
    integer, lemma_magnitude_fields, product, quotient, signed, sum, Binary32, UNIT_EXPONENT,
};
use crate::order::{
    law_rounding_is_nearest, lemma_half_even_nearest, lemma_nearest_exact, lemma_units_monotone,
    lemma_units_of,
};
use crate::rounding::{
    half_even, lemma_half_even_bounds, lemma_spacing_exists, nearest, spacing, IMPLICIT,
    SIGNIFICANDS,
};
use vstd::arithmetic::div_mod::lemma_fundamental_div_mod;
use vstd::arithmetic::power2::{
    lemma2_to64, lemma_pow2_adds, lemma_pow2_pos, lemma_pow2_strictly_increases,
    lemma_pow2_unfold, pow2,
};
use vstd::math::abs;
use vstd::prelude::*;

verus! {

/// The top bit of a pattern is the sign, and the others say what the number is:
/// below `0x7f80_0000` a finite one, there an infinite one, above it none.
pub proof fn law_bits_are_sign_and_magnitude(x: Binary32)
    ensures
        x.negative() <==> x.bits >= 0x8000_0000,
        x.magnitude() == x.bits as int % 0x8000_0000,
        x.finite() <==> x.bits as int % 0x8000_0000 < 0x7f80_0000,
        x.infinite() <==> x.bits as int % 0x8000_0000 == 0x7f80_0000,
        x.nan() <==> x.bits as int % 0x8000_0000 > 0x7f80_0000,
        x.zero() <==> x.bits as int % 0x8000_0000 == 0,
        x.absolute().bits == x.bits as int % 0x8000_0000,
{
}

/// A pattern below 2^24 is as many units, and from 2^23 on the pattern that is
/// 2^23 greater is twice as many.  (So every finite pattern's units are settled.)
/// The value is the units, negated where the sign is set.
pub proof fn law_units_double_with_each_binade(x: Binary32, y: Binary32)
    requires
        x.bits as int % 0x8000_0000 < 0x7f80_0000,
        y.bits as int % 0x8000_0000 < 0x7f80_0000,
    ensures
        x.bits as int % 0x8000_0000 < 0x100_0000 ==> x.units() == x.bits as int % 0x8000_0000,
        x.bits as int % 0x8000_0000 >= 0x80_0000 && y.bits as int % 0x8000_0000 == x.bits as int
            % 0x8000_0000 + 0x80_0000 ==> y.units() == 2 * x.units(),
        x.bits < 0x8000_0000 ==> x.value() == x.units(),
        x.bits >= 0x8000_0000 ==> x.value() == -x.units(),
{
    let m = x.magnitude() as int;
    let k = y.magnitude() as int;
    assert(m == x.bits as int % 0x8000_0000);
    assert(k == y.bits as int % 0x8000_0000);
    lemma2_to64();
    if m < SIGNIFICANDS {
        assert(x.exponent() == 0 && x.significand() == m);
        assert(x.significand() * 1 == x.significand());
    }
    if m >= IMPLICIT && k == m + IMPLICIT {
        lemma_pow2_unfold((x.exponent() + 1) as nat);
        assert(y.exponent() == x.exponent() + 1);
        assert(y.significand() == x.significand());
        assert(y.significand() * (2 * pow2(x.exponent())) == 2 * (x.significand() * pow2(
            x.exponent(),
        ))) by (nonlinear_arith)
            requires
                y.significand() == x.significand(),
        ;
    }
}

/// Numbers with the same units have the same magnitude.
pub proof fn lemma_units_injective(a: Binary32, b: Binary32)
    requires
        a.finite(),
        b.finite(),
    ensures
        a.units() == b.units() <==> a.magnitude() == b.magnitude(),
        a.magnitude() < b.magnitude() ==> a.units() < b.units(),
{
    lemma_nearest_exact(a);
    lemma_nearest_exact(b);
    if a.magnitude() == b.magnitude() {
        lemma_units_monotone(a, b);
        lemma_units_monotone(b, a);
    }
    if a.magnitude() < b.magnitude() {
        lemma_units_monotone(a, b);
    }
}

/// Less-than is that of the values, with the infinite numbers at the two ends
/// and NaN nowhere.
pub proof fn law_less_is_numeric(a: Binary32, b: Binary32)
    ensures
        a.nan() || b.nan() ==> !a.less(b),
        a.finite() && b.finite() ==> (a.less(b) <==> a.value() < b.value()),
        a.finite() && b.infinite() ==> (a.less(b) <==> !b.negative()),
        a.infinite() && b.finite() ==> (a.less(b) <==> a.negative()),
        a.infinite() && b.infinite() ==> (a.less(b) <==> a.negative() && !b.negative()),
        !a.nan() && !b.nan() ==> (a.less(b) <==> a.order() < b.order()),
{
    if a.finite() && b.finite() {
        lemma_magnitude_fields(a);
        lemma_magnitude_fields(b);
        lemma_units_injective(a, b);
        lemma_units_injective(b, a);
    }
}

/// Of two finite magnitudes equally near to a rational, rounding takes the one
/// with the even pattern.
pub proof fn law_rounding_takes_even_of_equals(n: nat, d: nat, b: Binary32)
    requires
        d > 0,
        nearest(n, d) < 0x7f80_0000,
        b.finite(),
        b.magnitude() != nearest(n, d),
        abs(signed(false, nearest(n, d)).units() * d - n) == abs(b.units() * d - n),
    ensures
        nearest(n, d) % 2 == 0,
{
    let t = spacing(n, d);
    let p = pow2(t);
    let w = d * p;
    let q = half_even(n, w);
    let x = signed(false, nearest(n, d));
    lemma_spacing_exists(n, d);
    lemma_pow2_pos(t);
    assert(w > 0) by (nonlinear_arith)
        requires
            w == d * p,
            d > 0,
            p > 0,
    ;
    lemma_half_even_bounds(
        n,
        w,
        if t == 0 {
            0
        } else {
            IMPLICIT as nat
        },
        SIGNIFICANDS as nat,
    );
    lemma_units_of(t, q);
    assert(x.magnitude() == nearest(n, d));
    assert((q * p) * d == q * w) by (nonlinear_arith)
        requires
            w == d * p,
    ;
    lemma_magnitude_fields(b);
    lemma_units_injective(x, b);
    let e = b.exponent();
    lemma_fundamental_div_mod(n as int, w as int);
    let q0 = n as int / w as int;
    let r = n as int % w as int;
    assert(n == q0 * w + r) by (nonlinear_arith)
        requires
            n == w * q0 + r,
    ;
    if e >= t {
        let m = (b.significand() * pow2((e - t) as nat)) as int;
        lemma_pow2_adds((e - t) as nat, t);
        assert(b.units() * d == m * w) by (nonlinear_arith)
            requires
                b.units() == b.significand() * (pow2((e - t) as nat) * p),
                m == b.significand() * pow2((e - t) as nat),
                w == d * p,
        ;
        assert(m != q) by {
            if m == q {
                assert(b.units() * d == x.units() * d);
                assert(b.units() == x.units()) by (nonlinear_arith)
                    requires
                        b.units() * d == x.units() * d,
                        d > 0,
                ;
            }
        }
        assert((q0 + 1) * w == q0 * w + w) by (nonlinear_arith);
        if m < q0 {
            assert(m * w <= q0 * w - w) by (nonlinear_arith)
                requires
                    m + 1 <= q0,
                    w > 0,
            ;
        } else if m > q0 + 1 {
            assert(m * w >= q0 * w + 2 * w) by (nonlinear_arith)
                requires
                    m >= q0 + 2,
                    w > 0,
            ;
        }
        assert(2 * r == w);
        assert(q % 2 == 0);
    } else {
        lemma_pow2_unfold((e + 1) as nat);
        if e + 1 < t {
            lemma_pow2_strictly_increases((e + 1) as nat, t);
        }
        lemma_pow2_pos(e);
        assert(b.units() * d < IMPLICIT * w) by (nonlinear_arith)
            requires
                b.units() == b.significand() * pow2(e),
                b.significand() < SIGNIFICANDS,
                2 * pow2(e) <= p,
                pow2(e) > 0,
                w == d * p,
                d > 0,
        ;
        lemma_half_even_nearest(n, w, IMPLICIT as int);
    }
}

/// A rational rounds to the infinite magnitude where it lies at half a step or
/// more beyond the greatest finite one, which is `(2^24 - 1) * 2^253` units.
pub proof fn law_rounding_overflows_beyond_the_greatest(n: nat, d: nat)
    requires
        d > 0,
    ensures
        nearest(n, d) <= 0x7f80_0000,
        nearest(n, d) == 0x7f80_0000 <==> 2 * n >= 0x1ff_ffff * (pow2(253) * d),
{
    let t = spacing(n, d);
    let top = d * pow2(253);
    lemma_spacing_exists(n, d);
    lemma_pow2_pos(t);
    lemma_pow2_pos(253);
    assert(pow2(253) * d == top) by (nonlinear_arith)
        requires
            top == d * pow2(253),
    ;
    assert(top > 0 && d * pow2(t) > 0) by (nonlinear_arith)
        requires
            top == d * pow2(253),
            d > 0,
            pow2(253) > 0,
            pow2(t) > 0,
    ;
    lemma_half_even_bounds(
        n,
        d * pow2(t),
        if t == 0 {
            0
        } else {
            IMPLICIT as nat
        },
        SIGNIFICANDS as nat,
    );
    if t < 253 {
        lemma_pow2_unfold((t + 1) as nat);
        if t + 1 < 253 {
            lemma_pow2_strictly_increases((t + 1) as nat, 253);
        }
        assert(2 * (d * pow2(t)) <= top) by (nonlinear_arith)
            requires
                top == d * pow2(253),
                2 * pow2(t) <= pow2(253),
        ;
    } else if t == 253 {
        lemma_fundamental_div_mod(n as int, top as int);
        let q = n as int / top as int;
        let r = n as int % top as int;
        assert(n == q * top + r) by (nonlinear_arith)
            requires
                n == top * q + r,
        ;
        assert(q <= 0xff_ffff) by (nonlinear_arith)
            requires
                n == q * top + r,
                r >= 0,
                n < 0x100_0000 * top,
                top > 0,
        ;
        if q < 0xff_ffff {
            assert(q * top <= 0xff_fffe * top) by (nonlinear_arith)
                requires
                    q <= 0xff_fffe,
                    top > 0,
            ;
        } else {
            assert(q * top == 0xff_ffff * top);
        }
    } else {
        lemma_pow2_unfold(254);
        if 254 < t {
            lemma_pow2_strictly_increases(254, t);
        }
        assert(2 * top <= d * pow2(t)) by (nonlinear_arith)
            requires
                top == d * pow2(253),
                2 * pow2(253) <= pow2(t),
        ;
    }
}

/// Rounding a rational with a sign, against any finite number.
proof fn lemma_signed_rounding(n: nat, d: nat, negative: bool, c: Binary32)
    requires
        d > 0,
        c.finite(),
    ensures
        ({
            let x = signed(negative, nearest(n, d));
            let exact = if negative {
                -(n as int)
            } else {
                n as int
            };
            &&& x.negative() == negative
            &&& x.magnitude() == nearest(n, d)
            &&& !x.nan()
            &&& x.infinite() <==> 2 * n >= 0x1ff_ffff * (pow2(253) * d)
            &&& x.finite() ==> abs(x.value() * d - exact) <= abs(c.value() * d - exact)
            &&& x.finite() && c.magnitude() != x.magnitude() && abs(x.value() * d - exact) == abs(
                c.value() * d - exact,
            ) ==> x.bits % 2 == 0
        }),
{
    let m = nearest(n, d);
    let x = signed(negative, m);
    let y = signed(false, m);
    let exact = if negative {
        -(n as int)
    } else {
        n as int
    };
    law_rounding_overflows_beyond_the_greatest(n, d);
    assert(x.magnitude() == m && y.magnitude() == m && x.negative() == negative);
    if x.finite() {
        let zero = Binary32 { bits: 0 };
        lemma_magnitude_fields(zero);
        lemma_magnitude_fields(c);
        assert(x.units() == y.units()) by {
            lemma_units_injective(x, y);
        }
        law_rounding_is_nearest(n, d, c);
        law_rounding_is_nearest(n, d, zero);
        assert(zero.units() * d == 0) by (nonlinear_arith)
            requires
                zero.units() == 0,
        ;
        let u = x.units() as int;
        let k = c.units() as int;
        assert((-u) * d == -(u * d) && (-k) * d == -(k * d)) by (nonlinear_arith);
        assert(k * d >= 0 && u * d >= 0) by (nonlinear_arith)
            requires
                k >= 0,
                u >= 0,
                d > 0,
        ;
        if c.magnitude() != m && abs(x.value() * d - exact) == abs(c.value() * d - exact) {
            assert(abs(u * d - n) == abs(k * d - n)) by {
                if c.negative() != negative {
                    assert(abs(u * d - n) <= n);
                }
            }
            law_rounding_takes_even_of_equals(n, d, c);
        }
    }
}

/// The product of finite numbers is the finite number nearest to it, the even
/// one of two equally near; it is infinite where it lies beyond them all by half
/// a step.  (One is `2^149` units, and the greatest number `(2^24 - 1) * 2^253`.)
pub proof fn law_product_is_the_nearest(a: Binary32, b: Binary32, c: Binary32)
    requires
        a.finite(),
        b.finite(),
        c.finite(),
    ensures
        ({
            let p = product(a, b);
            let one = pow2(149) as int;
            let exact = a.value() * b.value();
            &&& !p.nan()
            &&& p.negative() == (a.negative() != b.negative())
            &&& p.infinite() <==> 2 * abs(exact) >= 0x1ff_ffff * (pow2(253) * one)
            &&& p.finite() ==> abs(p.value() * one - exact) <= abs(c.value() * one - exact)
            &&& p.finite() && c.magnitude() != p.magnitude() && abs(p.value() * one - exact)
                == abs(c.value() * one - exact) ==> p.bits % 2 == 0
        }),
{
    let one = pow2(UNIT_EXPONENT as nat);
    let n = a.units() * b.units();
    let x = a.units() as int;
    let y = b.units() as int;
    lemma_pow2_pos(UNIT_EXPONENT as nat);
    assert((-x) * y == -(x * y) && x * (-y) == -(x * y) && (-x) * (-y) == x * y && x * y >= 0)
        by (nonlinear_arith)
        requires
            x >= 0,
            y >= 0,
    ;
    lemma_signed_rounding(n, one, a.negative() != b.negative(), c);
}

/// The quotient of finite numbers is the finite number nearest to it, the even
/// one of two equally near; it is infinite where it lies beyond them all by half
/// a step.  (Both sides are multiplied by the divisor.)
pub proof fn law_quotient_is_the_nearest(a: Binary32, b: Binary32, c: Binary32)
    requires
        a.finite(),
        b.finite(),
        !b.zero(),
        c.finite(),
    ensures
        ({
            let q = quotient(a, b);
            let exact = a.value() * pow2(149);
            &&& !q.nan()
            &&& q.negative() == (a.negative() != b.negative())
            &&& q.infinite() <==> 2 * abs(exact) >= 0x1ff_ffff * (pow2(253) * abs(b.value()))
            &&& q.finite() ==> abs(q.value() * b.value() - exact) <= abs(
                c.value() * b.value() - exact,
            )
            &&& q.finite() && c.magnitude() != q.magnitude() && abs(q.value() * b.value() - exact)
                == abs(c.value() * b.value() - exact) ==> q.bits % 2 == 0
        }),
{
    let one = pow2(UNIT_EXPONENT as nat) as int;
    let n = a.units() * pow2(UNIT_EXPONENT as nat);
    let d = b.units();
    let s = a.negative() != b.negative();
    lemma_pow2_pos(UNIT_EXPONENT as nat);
    lemma_magnitude_fields(a);
    lemma_magnitude_fields(b);
    lemma_signed_rounding(n, d, s, c);
    let q = quotient(a, b);
    assert(q == signed(s, nearest(n, d)));
    let x = a.units() as int;
    let u = q.value();
    let k = c.value();
    let v = d as int;
    assert((-x) * one == -(x * one) && x * one >= 0) by (nonlinear_arith)
        requires
            x >= 0,
            one > 0,
    ;
    assert(u * (-v) == -(u * v) && k * (-v) == -(k * v)) by (nonlinear_arith);
}

/// The sum of finite numbers is the finite number nearest to it, the even one of
/// two equally near; it is infinite where it lies beyond them all by half a step.
/// A sum of zero has the sign of its terms where they share it, and none else.
pub proof fn law_sum_is_the_nearest(a: Binary32, b: Binary32, c: Binary32)
    requires
        a.finite(),
        b.finite(),
        c.finite(),
    ensures
        ({
            let s = sum(a, b);
            let exact = a.value() + b.value();
            &&& !s.nan()
            &&& exact != 0 ==> s.negative() == (exact < 0)
            &&& exact == 0 ==> s.zero() && s.negative() == (a.negative() && b.negative())
            &&& s.infinite() <==> 2 * abs(exact) >= 0x1ff_ffff * pow2(253)
            &&& s.finite() ==> abs(s.value() - exact) <= abs(c.value() - exact)
            &&& s.finite() && c.magnitude() != s.magnitude() && abs(s.value() - exact) == abs(
                c.value() - exact,
            ) ==> s.bits % 2 == 0
        }),
{
    let exact = a.value() + b.value();
    let s = sum(a, b);
    lemma_pow2_pos(253);
    assert(pow2(253) * 1 == pow2(253));
    if exact == 0 {
        lemma_magnitude_fields(s);
    } else {
        let n = if exact < 0 {
            (-exact) as nat
        } else {
            exact as nat
        };
        lemma_signed_rounding(n, 1, exact < 0, c);
        assert(s == signed(exact < 0, nearest(n, 1)));
        assert(s.value() * 1 == s.value() && c.value() * 1 == c.value());
    }
}

/// A 32-bit integer becomes the number nearest to it, the even one of two equally
/// near.
pub proof fn law_integer_is_the_nearest(i: i32, c: Binary32)
    requires
        c.finite(),
    ensures
        ({
            let x = integer(i as int);
            let exact = i * pow2(149);
            &&& x.finite()
            &&& x.negative() == (i < 0)
            &&& abs(x.value() - exact) <= abs(c.value() - exact)
            &&& c.magnitude() != x.magnitude() && abs(x.value() - exact) == abs(c.value() - exact)
                ==> x.bits % 2 == 0
        }),
{
    let one = pow2(UNIT_EXPONENT as nat) as int;
    let j = if i < 0 {
        -(i as int)
    } else {
        i as int
    };
    let n = j as nat * pow2(UNIT_EXPONENT as nat);
    let x = integer(i as int);
    lemma_signed_rounding(n, 1, i < 0, c);
    assert(x == signed(i < 0, nearest(n, 1)));
    assert((-j) * one == -(j * one)) by (nonlinear_arith);
    assert(x.value() * 1 == x.value() && c.value() * 1 == c.value());
    lemma2_to64();
    lemma_pow2_adds(32, 149);
    lemma_pow2_strictly_increases(181, 253);
    assert(n <= 0x1_0000_0000 * one) by (nonlinear_arith)
        requires
            n == j * one,
            0 <= j <= 0x1_0000_0000,
            one >= 0,
    ;
    assert(pow2(253) * 1 == pow2(253));
}

/// Arithmetic beyond the finite numbers.  NaN comes of NaN, of zero times
/// infinity, of zero or infinity by itself, and of opposite infinities added.
/// What is infinite otherwise stays so, with the sign that the terms or factors
/// give, and a finite number by an infinite one is zero.
pub proof fn law_arithmetic_beyond_the_finite(a: Binary32, b: Binary32)
    ensures
        product(a, b).nan() <==> a.nan() || b.nan() || (a.zero() && b.infinite()) || (a.infinite()
            && b.zero()),
        !product(a, b).nan() && (a.infinite() || b.infinite()) ==> product(a, b).infinite()
            && product(a, b).negative() == (a.negative() != b.negative()),
        sum(a, b).nan() <==> a.nan() || b.nan() || (a.infinite() && b.infinite() && a.negative()
            != b.negative()),
        !sum(a, b).nan() && a.infinite() ==> sum(a, b) == a,
        !sum(a, b).nan() && b.infinite() ==> sum(a, b) == b,
        quotient(a, b).nan() <==> a.nan() || b.nan() || (a.zero() && b.zero()) || (a.infinite()
            && b.infinite()),
        !quotient(a, b).nan() && (a.infinite() || b.zero()) ==> quotient(a, b).infinite()
            && quotient(a, b).negative() == (a.negative() != b.negative()),
        a.finite() && b.infinite() ==> quotient(a, b).zero() && quotient(a, b).negative() == (
        a.negative() != b.negative()),
{
}

} // verus!
