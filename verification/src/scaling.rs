//! What the levels of a query or a centroid say about its coordinates.
use crate::binary32::{lemma_magnitude_fields, product, quotient, signed, Binary32, UNIT_EXPONENT};
use crate::doubling::{lemma_level_scale_units, lemma_one_units};
use crate::matrix::inner_product;
use crate::numbers::{law_rounding_overflows_beyond_the_greatest, lemma_units_injective};
use crate::order::{
    lemma_nearest_exact, lemma_nearest_zero, lemma_units_monotone, lemma_units_of,
};
use crate::quantize::{
    centroid_level, gain, half_up, inverse_gain, largest_magnitude, level, row_levels,
    LEVEL_SCALE, NEGLIGIBLE, ONE,
};
use crate::rounding::{
    half_even, lemma_half_even_bounds, lemma_nearest_monotone, lemma_spacing_exists, nearest,
    spacing, IMPLICIT, INFINITE, SIGNIFICANDS,
};
use vstd::arithmetic::div_mod::lemma_fundamental_div_mod;
use vstd::arithmetic::power2::{
    lemma2_to64, lemma_pow2_adds, lemma_pow2_pos, lemma_pow2_strictly_increases,
    lemma_pow2_unfold, pow2,
};
use vstd::math::abs;
use vstd::prelude::*;

verus! {

/// A number becomes the nearest integer, the one farther from zero of two equally
/// near, but none beyond 127 on either side.  NaN becomes zero.  (One is `2^149`
/// units.)
pub proof fn law_level_is_the_nearest_integer(x: Binary32)
    ensures
        ({
            let one = pow2(149) as int;
            &&& x.nan() ==> level(x) == 0
            &&& x.infinite() ==> level(x) == if x.negative() {
                -127int
            } else {
                127
            }
            &&& x.finite() && 2 * abs(x.value()) > 255 * one ==> level(x) == if x.negative() {
                -127int
            } else {
                127
            }
            &&& x.finite() && 2 * abs(x.value()) <= 255 * one ==> 2 * abs(
                level(x) * one - x.value(),
            ) <= one
            &&& x.finite() && 2 * abs(x.value()) < 255 * one && 2 * abs(level(x) * one - x.value())
                == one ==> abs(level(x) as int) * one > abs(x.value())
        }),
{
    let one = pow2(UNIT_EXPONENT as nat) as int;
    lemma_pow2_pos(UNIT_EXPONENT as nat);
    if x.finite() {
        let u = x.units() as int;
        let h = half_up(x.units()) as int;
        lemma_fundamental_div_mod(2 * u + one, 2 * one);
        let r = (2 * u + one) % (2 * one);
        assert(2 * u + one == 2 * (h * one) + r) by (nonlinear_arith)
            requires
                2 * u + one == (2 * one) * h + r,
        ;
        assert((-h) * one == -(h * one)) by (nonlinear_arith);
        if h >= 128 {
            assert(h * one >= 128 * one) by (nonlinear_arith)
                requires
                    h >= 128,
                    one > 0,
            ;
            assert((-127) * one == -(127 * one));
        } else {
            assert(h * one <= 127 * one) by (nonlinear_arith)
                requires
                    h <= 127,
                    one > 0,
            ;
        }
    }
}

/// The largest magnitude of a row: no coordinate's absolute value is greater, NaN
/// left aside, and it is that of some coordinate, or zero.
pub proof fn law_largest_is_the_greatest(row: Seq<Binary32>)
    ensures
        forall|d: int|
            0 <= d < row.len() && (#[trigger] row[d]).bits as int % 0x8000_0000 <= 0x7f80_0000
                ==> row[d].bits as int % 0x8000_0000 <= largest_magnitude(row).bits,
        largest_magnitude(row).bits <= 0x7f80_0000,
        largest_magnitude(row).bits == 0 || exists|d: int|
            0 <= d < row.len() && (#[trigger] row[d]).bits as int % 0x8000_0000
                == largest_magnitude(row).bits,
    decreases row.len(),
{
    if row.len() > 0 {
        let before = row.drop_last();
        let x = row.last();
        law_largest_is_the_greatest(before);
        let rest = largest_magnitude(before);
        let now = largest_magnitude(row);
        assert(x.absolute().bits == x.bits as int % 0x8000_0000);
        assert(x.absolute().magnitude() == x.magnitude());
        assert forall|d: int|
            0 <= d < row.len() && (#[trigger] row[d]).bits as int % 0x8000_0000
                <= 0x7f80_0000 implies row[d].bits as int % 0x8000_0000 <= now.bits by {
            if d < before.len() {
                assert(before[d] == row[d]);
            }
        }
        if now.bits != 0 {
            if rest.less(x.absolute()) {
                assert(row[row.len() - 1].bits as int % 0x8000_0000 == now.bits);
            } else {
                let d = choose|d: int|
                    0 <= d < before.len() && (#[trigger] before[d]).bits as int % 0x8000_0000
                        == rest.bits;
                assert(row[d].bits as int % 0x8000_0000 == now.bits);
            }
        }
    }
}

/// Whether coordinate `top` is one of the greatest absolute value, NaN left aside.
pub open spec fn is_top(row: Seq<Binary32>, top: int) -> bool {
    &&& 0 <= top < row.len()
    &&& row[top].bits as int % 0x8000_0000 <= 0x7f80_0000
    &&& forall|d: int|
        0 <= d < row.len() && (#[trigger] row[d]).bits as int % 0x8000_0000 <= 0x7f80_0000
            ==> row[d].bits as int % 0x8000_0000 <= row[top].bits as int % 0x8000_0000
}

proof fn lemma_top_is_largest(row: Seq<Binary32>, top: int)
    requires
        is_top(row, top),
    ensures
        largest_magnitude(row) == row[top].absolute(),
{
    law_largest_is_the_greatest(row);
    let largest = largest_magnitude(row);
    if largest.bits != 0 {
        let d = choose|d: int|
            0 <= d < row.len() && (#[trigger] row[d]).bits as int % 0x8000_0000 == largest.bits;
        assert(row[d].bits as int % 0x8000_0000 <= row[top].bits as int % 0x8000_0000);
    }
    assert(row[top].bits as int % 0x8000_0000 <= largest.bits);
}

/// A row is scaled by 127 over its largest absolute value, where that is above
/// 1e-12 (pattern `0x2b8c_bccc`), and by zero else; its scores are scaled back by
/// one over 127 times that factor.  (127 is pattern `0x42fe_0000`, one is
/// `0x3f80_0000`.)
pub proof fn law_gain_is_127_over_the_largest(row: Seq<Binary32>, top: int)
    requires
        is_top(row, top),
    ensures
        ({
            let largest = Binary32 { bits: (row[top].bits as int % 0x8000_0000) as u32 };
            let scale = Binary32 { bits: 0x42fe_0000 };
            &&& largest.bits > 0x2b8c_bccc ==> gain(row) == quotient(scale, largest)
            &&& largest.bits <= 0x2b8c_bccc ==> gain(row).bits == 0
        }),
{
    lemma_top_is_largest(row, top);
}

/// Scores are scaled back by one over 127 times the gain, and by zero where the
/// gain is zero.
pub proof fn law_scale_undoes_the_gain(g: Binary32)
    ensures
        0 < g.bits <= 0x7f80_0000 ==> inverse_gain(g) == quotient(
            Binary32 { bits: 0x3f80_0000 },
            product(g, Binary32 { bits: 0x42fe_0000 }),
        ),
        g.bits == 0 || g.bits > 0x7f80_0000 ==> inverse_gain(g).bits == 0,
{
}

/// What rounding adds or takes is no more than a part in 2^24, or half a unit.
proof fn lemma_nearest_error(n: nat, d: nat)
    requires
        d > 0,
        nearest(n, d) < INFINITE,
    ensures
        0x100_0000 * abs(signed(false, nearest(n, d)).units() * d - n) <= n + 0x80_0000 * d,
{
    let t = spacing(n, d);
    let p = pow2(t);
    let w = d * p;
    let q = half_even(n, w);
    lemma_spacing_exists(n, d);
    lemma_pow2_pos(t);
    lemma2_to64();
    assert(w > 0) by (nonlinear_arith)
        requires
            w == d * p,
            d > 0,
            p > 0,
    ;
    lemma_half_even_bounds(
        n,
        w,
        if t == 0 {
            0
        } else {
            IMPLICIT as nat
        },
        SIGNIFICANDS as nat,
    );
    lemma_units_of(t, q);
    assert((q * p) * d == q * w) by (nonlinear_arith)
        requires
            w == d * p,
    ;
    lemma_fundamental_div_mod(n as int, w as int);
    let q0 = n as int / w as int;
    let r = n as int % w as int;
    assert(n == q0 * w + r && (q0 + 1) * w == q0 * w + w) by (nonlinear_arith)
        requires
            n == w * q0 + r,
    ;
    assert(2 * abs(q * w - n) <= w);
    if t == 0 {
        assert(w == d) by (nonlinear_arith)
            requires
                w == d * p,
                p == 1,
        ;
    }
}

/// The gain of a row with a top coordinate that is more than negligible.
proof fn lemma_gain_error(row: Seq<Binary32>, top: int)
    requires
        is_top(row, top),
        0x2b8c_bccc < row[top].bits as int % 0x8000_0000 < 0x7f80_0000,
    ensures
        ({
            let l = row[top].units() as int;
            let g = gain(row);
            let n = 127 * pow2(298) as int;
            &&& !g.negative()
            &&& g.finite()
            &&& l >= pow2(109)
            &&& l <= pow2(277)
            &&& 0x80_0000 * abs(g.units() * l - n) <= n
            &&& g.units() >= 0x80_0000
            &&& g.units() <= pow2(196)
        }),
{
    let largest = row[top].absolute();
    let scale = Binary32 { bits: LEVEL_SCALE };
    let least = Binary32 { bits: NEGLIGIBLE };
    let one = pow2(UNIT_EXPONENT as nat);
    let g = gain(row);
    lemma_top_is_largest(row, top);
    assert(largest.magnitude() == row[top].magnitude());
    lemma_units_injective(largest, row[top]);
    let l = row[top].units();
    lemma2_to64();
    lemma_magnitude_fields(largest);
    // 2^109 <= l <= 2^277
    lemma_pow2_adds(23, 86);
    lemma_pow2_adds(24, 253);
    lemma_units_monotone(least, largest);
    assert(least.exponent() == 86 && least.significand() >= IMPLICIT);
    assert(least.units() >= pow2(109)) by (nonlinear_arith)
        requires
            least.units() == least.significand() * pow2(86),
            least.significand() >= IMPLICIT,
            pow2(109) == IMPLICIT * pow2(86),
    ;
    if largest.exponent() < 253 {
        lemma_pow2_strictly_increases(largest.exponent(), 253);
    }
    assert(l <= pow2(277)) by (nonlinear_arith)
        requires
            l == largest.significand() * pow2(largest.exponent()),
            largest.significand() < SIGNIFICANDS,
            pow2(largest.exponent()) <= pow2(253),
            pow2(277) == SIGNIFICANDS * pow2(253),
    ;
    lemma_pow2_pos(109);
    // n is 127 ones squared.
    lemma_level_scale_units();
    lemma_pow2_adds(149, 149);
    let n = scale.units() * one;
    assert(n == 127 * pow2(298)) by (nonlinear_arith)
        requires
            n == (127 * one) * one,
            one * one == pow2(298),
    ;
    law_rounding_overflows_beyond_the_greatest(n, l);
    lemma_pow2_adds(253, 109);
    lemma_pow2_strictly_increases(298, 362);
    assert(pow2(253) * l >= pow2(362)) by (nonlinear_arith)
        requires
            l >= pow2(109),
            pow2(362) == pow2(253) * pow2(109),
    ;
    assert(g == signed(false, nearest(n, l)));
    lemma_nearest_error(n, l);
    lemma_pow2_adds(23, 277);
    lemma_pow2_unfold(300);
    lemma_pow2_unfold(299);
    assert(0x80_0000 * l <= pow2(300));
    assert(0x80_0000 * abs(g.units() * l - n) <= n);
    // Hence the bounds of the gain.
    let e = g.units() as int;
    assert(e * l <= 128 * pow2(298));
    assert(e * l >= 126 * pow2(298));
    assert(e >= 0x80_0000) by (nonlinear_arith)
        requires
            e * l >= 126 * pow2(298),
            4 * pow2(298) == 0x80_0000 * pow2(277),
            0 < l <= pow2(277),
            pow2(298) >= 0,
    ;
    lemma_pow2_adds(7, 298);
    lemma_pow2_adds(196, 109);
    assert(e <= pow2(196)) by (nonlinear_arith)
        requires
            e * l <= pow2(196) * pow2(109),
            l >= pow2(109),
            pow2(109) > 0,
            e >= 0,
    ;
}

/// Where the largest absolute value of a row is finite and above 1e-12, each
/// coordinate gets the level nearest to 127 times its part of that value: it is
/// off by no more than one half and a part in 2^15.  NaN gets zero.
pub proof fn law_levels_are_parts_of_the_largest(row: Seq<Binary32>, top: int, d: int)
    requires
        is_top(row, top),
        0x2b8c_bccc < row[top].bits as int % 0x8000_0000 < 0x7f80_0000,
        0 <= d < row.len(),
    ensures
        row_levels(row).len() == row.len(),
        row[d].nan() ==> row_levels(row)[d] == 0,
        !row[d].nan() ==> 0x1_0000 * abs(
            row_levels(row)[d] * row[top].units() - 127 * row[d].value(),
        ) <= 0x8002 * row[top].units(),
{
    let x = row[d];
    if !x.nan() {
        let g = gain(row);
        let one = pow2(UNIT_EXPONENT as nat) as int;
        let square = pow2(298) as int;
        let l = row[top].units() as int;
        let u = x.units() as int;
        let e = g.units() as int;
        lemma_gain_error(row, top);
        lemma_pow2_pos(UNIT_EXPONENT as nat);
        lemma_pow2_pos(109);
        lemma2_to64();
        lemma_pow2_adds(149, 149);
        assert(x.bits as int % 0x8000_0000 <= row[top].bits as int % 0x8000_0000);
        assert(x.magnitude() <= row[top].magnitude());
        lemma_units_monotone(x, row[top]);
        let n = x.units() * g.units();
        assert(n * l == u * (e * l)) by (nonlinear_arith)
            requires
                n == u * e,
        ;
        assert(u * (e * l) <= l * (128 * square)) by (nonlinear_arith)
            requires
                0 <= u <= l,
                0 <= e * l <= 128 * square,
        ;
        assert(n <= 128 * square) by (nonlinear_arith)
            requires
                n * l <= l * (128 * square),
                l > 0,
        ;
        law_rounding_overflows_beyond_the_greatest(n, one as nat);
        lemma_pow2_adds(253, 149);
        lemma_pow2_strictly_increases(298, 402);
        let p = product(x, g);
        assert(p == signed(x.negative(), nearest(n, one as nat)));
        let y = signed(false, nearest(n, one as nat));
        assert(p.magnitude() == y.magnitude());
        lemma_units_injective(p, y);
        lemma_nearest_error(n, one as nat);
        let s = p.units() as int;
        // What the two roundings add up to, times the largest and one.
        let a = s * one - n;
        let b = e * l - 127 * square;
        assert(0x100_0000 * abs(a) <= n + 0x80_0000 * one);
        assert(0x100_0000 * abs(a) <= 129 * square) by {
            lemma_pow2_strictly_increases(23, 149);
            assert(0x80_0000 * one <= one * one) by (nonlinear_arith)
                requires
                    0x80_0000 <= one,
            ;
        }
        assert(0x100_0000 * abs(a * l) <= 129 * (square * l)) by (nonlinear_arith)
            requires
                0x100_0000 * abs(a) <= 129 * square,
                l > 0,
        ;
        assert(0x80_0000 * abs(u * b) <= 127 * (square * l)) by (nonlinear_arith)
            requires
                0x80_0000 * abs(b) <= 127 * square,
                0 <= u <= l,
        ;
        let c = s * l - 127 * (one * u);
        assert(c * one == a * l + u * b) by (nonlinear_arith)
            requires
                c == s * l - 127 * (one * u),
                a == s * one - n,
                b == e * l - 127 * square,
                n == u * e,
                square == one * one,
        ;
        assert(0x8000 * abs(c * one) <= square * l) by {
            assert(square * l >= 0) by (nonlinear_arith)
                requires
                    square >= 0,
                    l > 0,
            ;
        }
        assert(0x8000 * abs(c) <= one * l) by (nonlinear_arith)
            requires
                0x8000 * abs(c * one) <= square * l,
                square == one * one,
                one > 0,
        ;
        // The product is within the levels.
        assert(one * u <= one * l) by (nonlinear_arith)
            requires
                u <= l,
                one > 0,
        ;
        assert(2 * s <= 255 * one) by (nonlinear_arith)
            requires
                s * l <= 127 * (one * l) + one * l,
                2 * (s * l) <= 255 * (one * l),
                l > 0,
        ;
        law_level_is_the_nearest_integer(p);
        let k = level(p) as int;
        assert(row_levels(row)[d] == k);
        let v = x.value();
        let w = p.value();
        assert((-s) * l == -(s * l) && one * (-u) == -(one * u)) by (nonlinear_arith);
        assert(0x8000 * abs(w * l - 127 * (one * v)) <= one * l);
        let f = k * one - w;
        assert(2 * abs(f * l) <= one * l) by (nonlinear_arith)
            requires
                2 * abs(f) <= one,
                l > 0,
        ;
        let h = k * l - 127 * v;
        assert(h * one == f * l + (w * l - 127 * (one * v))) by (nonlinear_arith)
            requires
                h == k * l - 127 * v,
                f == k * one - w,
        ;
        assert(0x1_0000 * abs(h * one) <= 0x8002 * (one * l));
        assert(0x1_0000 * abs(h) <= 0x8002 * l) by (nonlinear_arith)
            requires
                0x1_0000 * abs(h * one) <= 0x8002 * (one * l),
                one > 0,
        ;
    } else {
        law_level_is_the_nearest_integer(product(x, gain(row)));
    }
}

/// Where the largest absolute value of a row is finite and above 1e-12, the
/// coordinate that has it gets level 127 or -127.
pub proof fn law_top_coordinate_gets_the_top_level(row: Seq<Binary32>, top: int)
    requires
        is_top(row, top),
        0x2b8c_bccc < row[top].bits as int % 0x8000_0000 < 0x7f80_0000,
    ensures
        row_levels(row)[top] == if row[top].bits >= 0x8000_0000 {
            -127int
        } else {
            127
        },
{
    law_levels_are_parts_of_the_largest(row, top, top);
    lemma_gain_error(row, top);
    lemma_pow2_pos(109);
    let l = row[top].units() as int;
    let k = row_levels(row)[top] as int;
    let s: int = if row[top].negative() {
        -127
    } else {
        127
    };
    assert(127 * row[top].value() == s * l) by (nonlinear_arith)
        requires
            row[top].value() == if s < 0 {
                -l
            } else {
                l
            },
            s == 127 || s == -127,
    ;
    assert(k * l - s * l == (k - s) * l) by (nonlinear_arith);
    assert(k == s) by (nonlinear_arith)
        requires
            0x1_0000 * abs((k - s) * l) <= 0x8002 * l,
            l > 0,
    ;
}

/// Where the largest absolute value of a row is finite and above 1e-12, the scale
/// of its scores is that value over 127 squared, but for a part in 2^20: a score
/// of 127 times 127 stands for the largest coordinate times one.
pub proof fn law_scale_is_the_largest_over_127_squared(row: Seq<Binary32>, top: int)
    requires
        is_top(row, top),
        0x2b8c_bccc < row[top].bits as int % 0x8000_0000 < 0x7f80_0000,
    ensures
        ({
            let scale = inverse_gain(gain(row));
            &&& scale.finite()
            &&& !scale.negative()
            &&& 0x10_0000 * abs(16129 * scale.units() - row[top].units()) <= row[top].units()
        }),
{
    let g = gain(row);
    let unit = Binary32 { bits: ONE };
    let levels = Binary32 { bits: LEVEL_SCALE };
    let one = pow2(UNIT_EXPONENT as nat) as int;
    let square = pow2(298) as int;
    let l = row[top].units() as int;
    let e = g.units() as int;
    lemma_gain_error(row, top);
    lemma_magnitude_fields(g);
    lemma_pow2_pos(UNIT_EXPONENT as nat);
    lemma_pow2_pos(109);
    lemma_pow2_pos(298);
    lemma2_to64();
    lemma_pow2_adds(149, 149);
    lemma_level_scale_units();
    lemma_one_units();
    // 127 times the gain.
    let n = g.units() * levels.units();
    assert(n == (127 * e) * one) by (nonlinear_arith)
        requires
            n == e * (127 * one),
    ;
    law_rounding_overflows_beyond_the_greatest(n, one as nat);
    lemma_pow2_strictly_increases(196, 253);
    assert(2 * n < 0x1ff_ffff * (pow2(253) * one)) by (nonlinear_arith)
        requires
            n == (127 * e) * one,
            0 <= e <= pow2(196),
            pow2(196) < pow2(253),
            one > 0,
    ;
    let p = product(g, levels);
    assert(p == signed(false, nearest(n, one as nat)));
    lemma_nearest_error(n, one as nat);
    let s = p.units() as int;
    assert(s * one - n == (s - 127 * e) * one) by (nonlinear_arith)
        requires
            n == (127 * e) * one,
    ;
    let a = s - 127 * e;
    assert(0x100_0000 * abs(a) <= 128 * e) by (nonlinear_arith)
        requires
            0x100_0000 * abs(a * one) <= (127 * e) * one + 0x80_0000 * one,
            one > 0,
            e >= 0x80_0000,
    ;
    assert(126 * e <= s <= 128 * e);
    lemma_magnitude_fields(p);
    // One over that.
    let m = unit.units() * (one as nat);
    assert(m == square);
    law_rounding_overflows_beyond_the_greatest(m, s as nat);
    lemma_pow2_adds(253, 23);
    lemma_pow2_adds(22, 276);
    lemma_pow2_pos(253);
    lemma_pow2_pos(276);
    assert(pow2(253) * s >= pow2(276)) by (nonlinear_arith)
        requires
            s >= 0x80_0000,
            pow2(276) == pow2(253) * 0x80_0000,
            pow2(253) > 0,
    ;
    assert(m == 0x40_0000 * pow2(276));
    let i = inverse_gain(g);
    assert(i == quotient(unit, p));
    assert(i == signed(false, nearest(m, s as nat)));
    lemma_nearest_error(m, s as nat);
    let t = i.units() as int;
    lemma_pow2_adds(7, 196);
    lemma_pow2_adds(23, 203);
    lemma_pow2_strictly_increases(226, 298);
    assert(0x80_0000 * s <= square);
    let b = t * s - square;
    assert(0x80_0000 * abs(b) <= square);
    // All three roundings, times the product.
    let c = e * l - 127 * square;
    assert(0x80_0000 * abs(c) <= 127 * square);
    let f = 16129 * t - l;
    assert(f * s == 16129 * b - l * a - 127 * c) by (nonlinear_arith)
        requires
            f == 16129 * t - l,
            b == t * s - square,
            a == s - 127 * e,
            c == e * l - 127 * square,
    ;
    assert(e * l <= 128 * square && e * l >= 126 * square);
    assert(0x100_0000 * abs(l * a) <= 128 * (e * l)) by (nonlinear_arith)
        requires
            0x100_0000 * abs(a) <= 128 * e,
            l > 0,
    ;
    assert(s * l >= 126 * (e * l)) by (nonlinear_arith)
        requires
            s >= 126 * e,
            l > 0,
    ;
    assert(0x10_0000 * abs(f * s) <= l * s) by {
        assert(s * l == l * s) by (nonlinear_arith);
    }
    assert(0x10_0000 * abs(f) <= l) by (nonlinear_arith)
        requires
            0x10_0000 * abs(f * s) <= l * s,
            s > 0,
    ;
}

/// The inner product of a row of finite numbers with a row of bytes, in units.
pub open spec fn exact_product(row: Seq<Binary32>, bytes: Seq<i8>) -> int
    decreases row.len(),
{
    if row.len() == 0 {
        0
    } else {
        exact_product(row.drop_last(), bytes.drop_last()) + row.last().value() * bytes.last()
    }
}

proof fn lemma_products_of_parts(levels: Seq<i8>, row: Seq<Binary32>, bytes: Seq<i8>, l: int)
    requires
        levels.len() == row.len(),
        bytes.len() == row.len(),
        l >= 0,
        forall|d: int|
            0 <= d < row.len() ==> 0x1_0000 * abs(#[trigger] levels[d] * l - 127 * row[d].value())
                <= 0x8002 * l,
    ensures
        0x1_0000 * abs(inner_product(levels, bytes) * l - 127 * exact_product(row, bytes)) <= (
        0x40_0100 * l) * row.len(),
    decreases row.len(),
{
    if row.len() > 0 {
        let m = row.len() - 1;
        lemma_products_of_parts(levels.drop_last(), row.drop_last(), bytes.drop_last(), l);
        let k = levels[m] as int;
        let v = row[m].value();
        let b = bytes[m] as int;
        let p = inner_product(levels.drop_last(), bytes.drop_last());
        let e = exact_product(row.drop_last(), bytes.drop_last());
        let f = k * l - 127 * v;
        assert((p + k * b) * l - 127 * (e + v * b) == (p * l - 127 * e) + f * b)
            by (nonlinear_arith)
            requires
                f == k * l - 127 * v,
        ;
        assert(0x1_0000 * abs(f * b) <= 0x40_0100 * l) by (nonlinear_arith)
            requires
                0x1_0000 * abs(f) <= 0x8002 * l,
                -128 <= b <= 127,
        ;
        assert((0x40_0100 * l) * row.len() == (0x40_0100 * l) * m + 0x40_0100 * l)
            by (nonlinear_arith)
            requires
                row.len() == m + 1,
        ;
    } else {
        assert((0x40_0100 * l) * row.len() == 0 && inner_product(levels, bytes) * l == 0)
            by (nonlinear_arith)
            requires
                row.len() == 0,
                inner_product(levels, bytes) == 0,
        ;
    }
}

/// The inner product of a row's levels with bytes stands for that of the row: where
/// all numbers of the row are finite and the largest absolute value is above 1e-12,
/// it is 127 over that value times the exact one, off by no more than 64 and a part
/// in 2^8 for each coordinate.
pub proof fn law_scores_stand_for_inner_products(row: Seq<Binary32>, top: int, bytes: Seq<i8>)
    requires
        is_top(row, top),
        0x2b8c_bccc < row[top].bits as int % 0x8000_0000,
        forall|d: int|
            0 <= d < row.len() ==> (#[trigger] row[d]).bits as int % 0x8000_0000 < 0x7f80_0000,
        bytes.len() == row.len(),
    ensures
        0x1_0000 * abs(
            inner_product(row_levels(row), bytes) * row[top].units() - 127 * exact_product(
                row,
                bytes,
            ),
        ) <= (0x40_0100 * row[top].units()) * row.len(),
{
    let l = row[top].units() as int;
    let levels = row_levels(row);
    assert forall|d: int| 0 <= d < row.len() implies 0x1_0000 * abs(
        #[trigger] levels[d] * l - 127 * row[d].value(),
    ) <= 0x8002 * l by {
        assert(row[d].bits as int % 0x8000_0000 < 0x7f80_0000);
        law_levels_are_parts_of_the_largest(row, top, d);
    }
    lemma_products_of_parts(levels, row, bytes, l);
}

/// A row whose absolute values are all 1e-12 or less, NaN left aside, or of which
/// one is infinite, gets zeros for levels, and zero for the scale of its scores.
pub proof fn law_rows_out_of_range_become_zeros(row: Seq<Binary32>, d: int)
    requires
        (forall|i: int|
            0 <= i < row.len() ==> (#[trigger] row[i]).bits as int % 0x8000_0000 <= 0x2b8c_bccc
                || row[i].bits as int % 0x8000_0000 > 0x7f80_0000) || (exists|i: int|
            0 <= i < row.len() && (#[trigger] row[i]).bits as int % 0x8000_0000 == 0x7f80_0000),
        0 <= d < row.len(),
    ensures
        row_levels(row).len() == row.len(),
        row_levels(row)[d] == 0,
        inverse_gain(gain(row)).bits == 0,
{
    let zero = Binary32 { bits: 0 };
    law_largest_is_the_greatest(row);
    assert(gain(row) == zero);
    lemma_pow2_pos(UNIT_EXPONENT as nat);
    lemma_magnitude_fields(zero);
    lemma_nearest_zero(pow2(UNIT_EXPONENT as nat));
    let x = row[d];
    let p = product(x, zero);
    assert(x.units() * zero.units() == 0) by (nonlinear_arith)
        requires
            zero.units() == 0,
    ;
    law_level_is_the_nearest_integer(p);
    if p.zero() {
        lemma_magnitude_fields(p);
        let one = pow2(UNIT_EXPONENT as nat) as int;
        let k = level(p) as int;
        assert(k == 0) by (nonlinear_arith)
            requires
                2 * abs(k * one) <= one,
                one > 0,
        ;
    }
}

/// A centroid between -1 and 1 gets the level nearest to 127 times its value: it
/// is off by no more than one half and a part in 2^16.  One beyond gets 127 or
/// -127, and NaN zero.  (One is `2^149` units.)
pub proof fn law_centroid_level_is_127_times_the_centroid(c: Binary32)
    ensures
        c.nan() ==> centroid_level(c) == 0,
        !c.nan() && c.bits as int % 0x8000_0000 >= 0x3f80_0000 ==> centroid_level(c)
            == if c.bits >= 0x8000_0000 {
            -127int
        } else {
            127
        },
        c.bits as int % 0x8000_0000 <= 0x3f80_0000 ==> 0x1_0000 * abs(
            centroid_level(c) * pow2(149) - 127 * c.value(),
        ) <= 0x8001 * pow2(149),
        centroid_level(c) == level(product(c, Binary32 { bits: 0x42fe_0000 })),
{
    let levels = Binary32 { bits: LEVEL_SCALE };
    let unit = Binary32 { bits: ONE };
    let one = pow2(UNIT_EXPONENT as nat) as int;
    let p = product(c, levels);
    lemma_pow2_pos(UNIT_EXPONENT as nat);
    lemma2_to64();
    lemma_level_scale_units();
    lemma_one_units();
    law_level_is_the_nearest_integer(p);
    if c.finite() {
        let u = c.units() as int;
        let n = c.units() * levels.units();
        assert(n == (127 * u) * one) by (nonlinear_arith)
            requires
                n == u * (127 * one),
        ;
        let y = signed(false, nearest(n, one as nat));
        assert(p.magnitude() == y.magnitude());
        if c.magnitude() <= unit.magnitude() {
            lemma_units_monotone(c, unit);
            law_rounding_overflows_beyond_the_greatest(n, one as nat);
            lemma_pow2_strictly_increases(149, 253);
            assert(2 * n < 0x1ff_ffff * (pow2(253) * one)) by (nonlinear_arith)
                requires
                    n == (127 * u) * one,
                    0 <= u <= one,
                    one < pow2(253),
                    one > 0,
            ;
            lemma_units_injective(p, y);
            lemma_nearest_error(n, one as nat);
            let s = p.units() as int;
            let a = s - 127 * u;
            assert(s * one - n == a * one) by (nonlinear_arith)
                requires
                    n == (127 * u) * one,
                    a == s - 127 * u,
            ;
            assert(0x100_0000 * abs(a) <= 127 * u + 0x80_0000) by (nonlinear_arith)
                requires
                    0x100_0000 * abs(a * one) <= (127 * u) * one + 0x80_0000 * one,
                    one > 0,
            ;
            lemma_pow2_strictly_increases(32, 149);
            assert(0x1_0000 * abs(a) <= one);
            assert(2 * s <= 255 * one);
            assert((-127) * one == -(127 * one));
        }
        if c.magnitude() >= unit.magnitude() {
            // 127 itself is the least product.
            lemma_pow2_adds(149, 149);
            let absolute = c.absolute();
            assert(absolute.magnitude() == c.magnitude());
            lemma_units_monotone(unit, c);
            let k = level(p) as int;
            if p.finite() {
                lemma_units_injective(p, y);
                lemma_nearest_exact(levels);
                assert(levels.units() * one <= n * 1) by (nonlinear_arith)
                    requires
                        levels.units() == 127 * one,
                        n == (127 * u) * one,
                        u >= one,
                        one > 0,
                ;
                lemma_nearest_monotone(levels.units(), 1, n, one as nat);
                lemma_units_monotone(levels, p);
                if 2 * p.units() <= 255 * one {
                    let w = p.value();
                    let s: int = if p.negative() {
                        -127
                    } else {
                        127
                    };
                    assert((-127) * one == -(127 * one));
                    assert(k == s) by (nonlinear_arith)
                        requires
                            2 * abs(k * one - w) <= one,
                            -127 <= k <= 127,
                            s == 127 ==> w >= 127 * one,
                            s == -127 ==> w <= -(127 * one),
                            s == 127 || s == -127,
                            one > 0,
                    ;
                }
            }
        }
    }
}

} // verus!
