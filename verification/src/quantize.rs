//! Quantization of binary32 coordinates to signed bytes in -127..=127.
use crate::binary32::{
    fields, lemma_magnitude_fields, product, quotient, Binary32, UNIT_EXPONENT,
};
use crate::rounding::IMPLICIT;
use crate::scaling::law_largest_is_the_greatest;
use vstd::arithmetic::div_mod::{
    lemma_basic_div, lemma_fundamental_div_mod, lemma_fundamental_div_mod_converse,
};
use vstd::arithmetic::power2::{
    lemma2_to64, lemma_pow2_adds, lemma_pow2_pos, lemma_pow2_strictly_increases, pow2,
};
use vstd::bits::lemma_u64_shl_is_mul;
use vstd::prelude::*;

verus! {

/// The largest level a byte takes.  -128 is never used, so that every level
/// can be negated and shifted into an unsigned byte.
pub const MAX_LEVEL: i8 = 127;

/// The bit pattern of 127, by which values in -1..=1 are scaled.
pub const LEVEL_SCALE: u32 = 0x42fe_0000;

/// The bit pattern of 1.
pub const ONE: u32 = 0x3f80_0000;

/// The bit pattern of 1e-12: queries no larger than this count as zero.
pub const NEGLIGIBLE: u32 = 0x2b8c_bccc;

/// The integer nearest to `units` units, halves rounded up.
pub open spec fn half_up(units: nat) -> nat {
    let one = pow2(UNIT_EXPONENT as nat);
    (2 * units + one) / (2 * one)
}

/// A number rounded to the nearest integer, halves away from zero, and clamped
/// to the levels of a byte.  NaN becomes zero.
pub open spec fn level(x: Binary32) -> i8 {
    let size: int = if x.nan() {
        0
    } else if x.infinite() || half_up(x.units()) > MAX_LEVEL {
        MAX_LEVEL as int
    } else {
        half_up(x.units()) as int
    };
    if x.negative() {
        (-size) as i8
    } else {
        size as i8
    }
}

/// The largest absolute value in a row, leaving NaN out.
pub open spec fn largest_magnitude(row: Seq<Binary32>) -> Binary32
    decreases row.len(),
{
    if row.len() == 0 {
        Binary32 { bits: 0 }
    } else {
        let rest = largest_magnitude(row.drop_last());
        if rest.less(row.last().absolute()) {
            row.last().absolute()
        } else {
            rest
        }
    }
}

/// The factor that takes the largest absolute value of a row to 127, and zero
/// for a row that is all but zero.
pub open spec fn gain(row: Seq<Binary32>) -> Binary32 {
    if (Binary32 { bits: NEGLIGIBLE }).less(largest_magnitude(row)) {
        quotient(Binary32 { bits: LEVEL_SCALE }, largest_magnitude(row))
    } else {
        Binary32 { bits: 0 }
    }
}

/// The factor that takes an inner product of levels, whose one side was scaled
/// by `gain` and the other by 127, back to that of the coordinates.
pub open spec fn inverse_gain(gain: Binary32) -> Binary32 {
    if (Binary32 { bits: 0 }).less(gain) {
        quotient(Binary32 { bits: ONE }, product(gain, Binary32 { bits: LEVEL_SCALE }))
    } else {
        Binary32 { bits: 0 }
    }
}

/// The levels of a query row.
pub open spec fn row_levels(row: Seq<Binary32>) -> Seq<i8> {
    row.map_values(|x: Binary32| level(product(x, gain(row))))
}

/// The level of a centroid, which lies in -1..=1.
pub open spec fn centroid_level(centroid: Binary32) -> i8 {
    level(product(centroid, Binary32 { bits: LEVEL_SCALE }))
}

/// `half_up` of a significand and exponent whose unit is below one.
proof fn lemma_half_up(s: nat, e: nat, k: nat)
    requires
        e + k == UNIT_EXPONENT,
    ensures
        half_up(s * pow2(e)) == (2 * s + pow2(k)) / (2 * pow2(k)),
{
    let c = pow2(e);
    let n = (2 * s + pow2(k)) as int;
    let d = (2 * pow2(k)) as int;
    lemma_pow2_pos(e);
    lemma_pow2_pos(k);
    lemma_pow2_adds(e, k);
    let one = pow2(UNIT_EXPONENT as nat);
    lemma_fundamental_div_mod(n, d);
    assert(2 * (s * c) + one == (n / d) * (2 * one) + (n % d) * c) by (nonlinear_arith)
        requires
            one == c * pow2(k),
            d == 2 * pow2(k),
            n == 2 * s + pow2(k),
            n == d * (n / d) + n % d,
    ;
    assert(0 <= (n % d) * c < 2 * one) by (nonlinear_arith)
        requires
            0 <= n % d < d,
            d == 2 * pow2(k),
            one == c * pow2(k),
            c > 0,
    ;
    lemma_fundamental_div_mod_converse(
        (2 * (s * c) + one) as int,
        (2 * one) as int,
        n / d,
        (n % d) * c,
    );
}

/// Rounds to the nearest integer, halves away from zero, and clamps to the
/// levels of a byte.
pub fn quantize(x: Binary32) -> (r: i8)
    ensures
        r == level(x),
        -MAX_LEVEL <= r <= MAX_LEVEL,
{
    let size: i8 = if x.is_nan() {
        0
    } else if x.is_infinite() {
        MAX_LEVEL
    } else {
        let f: (u64, i32) = fields(x);
        proof {
            lemma2_to64();
            lemma_magnitude_fields(x);
        }
        if f.1 >= UNIT_EXPONENT as i32 {
            proof {
                let one = pow2(UNIT_EXPONENT as nat);
                lemma_pow2_pos(UNIT_EXPONENT as nat);
                if f.1 > UNIT_EXPONENT {
                    lemma_pow2_strictly_increases(UNIT_EXPONENT as nat, f.1 as nat);
                }
                assert(x.units() >= IMPLICIT * one) by (nonlinear_arith)
                    requires
                        x.units() == f.0 * pow2(f.1 as nat),
                        f.0 >= IMPLICIT,
                        pow2(f.1 as nat) >= one,
                ;
                lemma_fundamental_div_mod((2 * x.units() + one) as int, (2 * one) as int);
                assert(half_up(x.units()) > MAX_LEVEL) by (nonlinear_arith)
                    requires
                        2 * x.units() + one == (2 * one) * half_up(x.units()) + (2 * x.units()
                            + one) % (2 * one),
                        (2 * x.units() + one) % (2 * one) < 2 * one,
                        x.units() >= IMPLICIT * one,
                        one > 0,
                ;
            }
            MAX_LEVEL
        } else {
            let k: u32 = UNIT_EXPONENT - f.1 as u32;
            proof {
                lemma_half_up(f.0 as nat, f.1 as nat, k as nat);
            }
            if k >= 26 {
                proof {
                    if k > 26 {
                        lemma_pow2_strictly_increases(26, k as nat);
                    }
                    lemma_basic_div((2 * f.0 + pow2(k as nat)) as int, (2 * pow2(k as nat)) as int);
                }
                0
            } else {
                proof {
                    lemma_u64_shl_is_mul(1, k as u64);
                    lemma_pow2_strictly_increases(k as nat, 26);
                    lemma_pow2_pos(k as nat);
                }
                let one: u64 = 1u64 << k;
                let rounded: u64 = (2 * f.0 + one) / (2 * one);
                if rounded > MAX_LEVEL as u64 {
                    MAX_LEVEL
                } else {
                    rounded as i8
                }
            }
        }
    };
    if x.is_negative() {
        -size
    } else {
        size
    }
}

/// The largest absolute value in a row, leaving NaN out.
pub fn max_abs(row: &[Binary32]) -> (r: Binary32)
    ensures
        r == largest_magnitude(row@),
        forall|d: int|
            0 <= d < row@.len() && !(#[trigger] row@[d]).nan() ==> !r.less(row@[d].absolute()),
        r.bits == 0 || exists|d: int| 0 <= d < row@.len() && (#[trigger] row@[d]).absolute() == r,
{
    let mut largest: Binary32 = Binary32 { bits: 0 };
    let mut i: usize = 0;
    assert(row@.take(0).len() == 0);
    while i < row.len()
        invariant
            i <= row.len(),
            largest == largest_magnitude(row@.take(i as int)),
        decreases row.len() - i,
    {
        let size: Binary32 = row[i].abs();
        proof {
            assert(row@.take(i + 1).drop_last() =~= row@.take(i as int));
        }
        if largest.is_less(size) {
            largest = size;
        }
        i += 1;
    }
    assert(row@.take(i as int) =~= row@);
    proof {
        law_largest_is_the_greatest(row@);
        if largest.bits != 0 {
            let d = choose|d: int|
                0 <= d < row@.len() && (#[trigger] row@[d]).bits as int % 0x8000_0000
                    == largest.bits;
            assert(row@[d].absolute() == largest);
        }
    }
    largest
}

/// The factor by which a query row is scaled before it is quantized.
pub fn query_gain(row: &[Binary32]) -> (r: Binary32)
    ensures
        r == gain(row@),
{
    let largest: Binary32 = max_abs(row);
    if (Binary32 { bits: NEGLIGIBLE }).is_less(largest) {
        (Binary32 { bits: LEVEL_SCALE }).over(largest)
    } else {
        Binary32 { bits: 0 }
    }
}

/// The factor that takes a score back to the scale of the coordinates.
pub fn score_scale(gain: Binary32) -> (r: Binary32)
    ensures
        r == inverse_gain(gain),
{
    if (Binary32 { bits: 0 }).is_less(gain) {
        (Binary32 { bits: ONE }).over(gain.times(Binary32 { bits: LEVEL_SCALE }))
    } else {
        Binary32 { bits: 0 }
    }
}

/// Quantizes a query row with a symmetric scale of its own.
pub fn quantize_row(row: &[Binary32]) -> (r: Vec<i8>)
    ensures
        r@ == row_levels(row@),
{
    let scale: Binary32 = query_gain(row);
    let mut levels: Vec<i8> = Vec::with_capacity(row.len());
    let mut i: usize = 0;
    while i < row.len()
        invariant
            i <= row.len(),
            scale == gain(row@),
            levels@ =~= row_levels(row@).take(i as int),
        decreases row.len() - i,
    {
        levels.push(quantize(row[i].times(scale)));
        i += 1;
    }
    levels
}

/// The level of each centroid.
pub fn centroid_levels(centroids: &[Binary32]) -> (r: Vec<i8>)
    ensures
        r@ == centroids@.map_values(|c: Binary32| centroid_level(c)),
{
    let mut levels: Vec<i8> = Vec::with_capacity(centroids.len());
    let mut i: usize = 0;
    while i < centroids.len()
        invariant
            i <= centroids.len(),
            levels@ =~= centroids@.map_values(|c: Binary32| centroid_level(c)).take(i as int),
        decreases centroids.len() - i,
    {
        levels.push(quantize(centroids[i].times(Binary32 { bits: LEVEL_SCALE })));
        i += 1;
    }
    levels
}

} // verus!
