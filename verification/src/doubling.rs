//! What doubling its inputs does to a search.
use crate::binary32::{
    integer, lemma_magnitude_fields, product, quotient, signed, sum, Binary32, UNIT_EXPONENT,
};
use crate::index::{query_scores, IndexView, SearchResults};
use crate::laws::{law_ranking_lists_distinct_places, law_rankings_are_settled};
use crate::matrix::{lemma_equal_rows, lemma_row_in_range, matrix_row};
use crate::order::{lemma_nearest_exact, lemma_nearest_zero, lemma_units_monotone};
use crate::quantize::{
    gain, inverse_gain, largest_magnitude, row_levels, LEVEL_SCALE, NEGLIGIBLE, ONE,
};
use crate::rounding::{
    lemma_nearest_doubles, lemma_nearest_monotone, lemma_nearest_of_equal, nearest, IMPLICIT,
    INFINITE, SIGNIFICANDS,
};
use crate::topk::{
    descent, first_least, held, is_ranking, lemma_first_least_unique, lemma_held_len,
    lemma_held_places, lemma_weakest_exists, rank, ranks_at, row_ranks, slot_of, weakest,
};
use vstd::arithmetic::power2::{
    lemma2_to64, lemma_pow2_adds, lemma_pow2_pos, lemma_pow2_strictly_increases,
    lemma_pow2_unfold, pow2,
};
use vstd::prelude::*;

verus! {

/// The bit pattern of 2.
pub const TWO: u32 = 0x4000_0000;

/// Twice a number, rounded.
pub open spec fn twice(x: Binary32) -> Binary32 {
    product(Binary32 { bits: TWO }, x)
}

/// Whether a number and twice the number are finite.
pub open spec fn has_double(x: Binary32) -> bool {
    x.magnitude() + IMPLICIT < INFINITE
}

/// Whether two finite numbers can be multiplied, and twice their product be
/// taken, without overflow or underflow: it is zero, or no less than the least
/// normal magnitude before it is rounded, and finite also after doubling.
pub open spec fn product_in_range(a: Binary32, b: Binary32) -> bool {
    &&& a.finite()
    &&& b.finite()
    &&& a.zero() || b.zero() || IMPLICIT * pow2(UNIT_EXPONENT as nat) <= a.units() * b.units()
    &&& has_double(product(a, b))
}

/// Whether a rank, and twice the rank, can be computed without overflow or
/// underflow.
pub open spec fn rank_in_range(
    score: int,
    scale: Binary32,
    bias: Binary32,
    weight: Binary32,
) -> bool {
    let scaled = product(integer(score), scale);
    &&& has_double(scale)
    &&& has_double(bias)
    &&& product_in_range(integer(score), scale)
    &&& has_double(sum(scaled, bias))
    &&& product_in_range(sum(scaled, bias), weight)
}

/// Whether a query is more than negligible, and all its ranks, and twice the
/// ranks, can be computed without overflow or underflow.
pub open spec fn query_in_range(
    index: IndexView,
    query: Seq<Binary32>,
    bias: Binary32,
    db: Seq<i8>,
) -> bool {
    let scores = query_scores(query, db, index.n_vectors);
    &&& (Binary32 { bits: NEGLIGIBLE }).less(largest_magnitude(query))
    &&& forall|d: int| 0 <= d < query.len() ==> has_double(#[trigger] query[d])
    &&& forall|v: int|
        0 <= v < scores.len() ==> rank_in_range(
            #[trigger] scores[v] as int,
            inverse_gain(gain(query)),
            bias,
            index.scales[v],
        )
}

/// Magnitudes below 2^24 are as many units.
proof fn lemma_small_units(x: Binary32)
    requires
        x.magnitude() < SIGNIFICANDS,
    ensures
        x.units() == x.magnitude(),
{
    lemma2_to64();
    assert(x.exponent() == 0 && x.significand() == x.magnitude());
    assert(x.significand() * 1 == x.significand());
}

/// A number with its magnitude doubled has twice the units.
proof fn lemma_doubled_units(x: Binary32, m: nat)
    requires
        has_double(x),
        m == if x.magnitude() < IMPLICIT {
            2 * x.magnitude()
        } else {
            x.magnitude() + IMPLICIT
        },
    ensures
        signed(x.negative(), m).magnitude() == m,
        signed(x.negative(), m).negative() == x.negative(),
        signed(x.negative(), m).units() == 2 * x.units(),
{
    let y = signed(x.negative(), m);
    assert(y.magnitude() == m && y.negative() == x.negative());
    if x.magnitude() >= IMPLICIT {
        lemma_pow2_unfold((x.exponent() + 1) as nat);
        assert(y.exponent() == x.exponent() + 1);
        assert(y.significand() == x.significand());
        assert(y.significand() * (2 * pow2(x.exponent())) == 2 * (x.significand() * pow2(
            x.exponent(),
        ))) by (nonlinear_arith)
            requires
                y.significand() == x.significand(),
        ;
    } else {
        lemma_small_units(x);
        lemma_small_units(y);
    }
}

/// Doubling is exact.
pub proof fn lemma_twice(x: Binary32)
    requires
        has_double(x),
    ensures
        twice(x).finite(),
        twice(x).negative() == x.negative(),
        twice(x).units() == 2 * x.units(),
        x.magnitude() < IMPLICIT ==> twice(x).magnitude() == 2 * x.magnitude(),
        x.magnitude() >= IMPLICIT ==> twice(x).magnitude() == x.magnitude() + IMPLICIT,
{
    let two = Binary32 { bits: TWO };
    let one = pow2(UNIT_EXPONENT as nat);
    let m = if x.magnitude() < IMPLICIT {
        (2 * x.magnitude()) as nat
    } else {
        (x.magnitude() + IMPLICIT) as nat
    };
    let y = signed(x.negative(), m);
    lemma_doubled_units(x, m);
    lemma_nearest_exact(y);
    lemma2_to64();
    lemma_pow2_pos(UNIT_EXPONENT as nat);
    lemma_pow2_adds(23, 127);
    lemma_pow2_unfold(150);
    assert(two.units() == 2 * one);
    assert((two.units() * x.units()) * 1 == y.units() * one) by (nonlinear_arith)
        requires
            two.units() == 2 * one,
            y.units() == 2 * x.units(),
    ;
    lemma_nearest_of_equal(two.units() * x.units(), one, y.units(), 1);
    assert(twice(x) == y);
}

/// Doubling keeps the order.
pub proof fn lemma_twice_keeps_order(a: Binary32, b: Binary32)
    requires
        has_double(a),
        has_double(b),
    ensures
        a.order() < b.order() <==> twice(a).order() < twice(b).order(),
        a.order() == b.order() <==> twice(a).order() == twice(b).order(),
{
    lemma_twice(a);
    lemma_twice(b);
}

/// The order of factors does not matter.
pub proof fn lemma_product_commutes(a: Binary32, b: Binary32)
    ensures
        product(a, b) == product(b, a),
{
    assert(a.units() * b.units() == b.units() * a.units()) by (nonlinear_arith);
}

/// A product in range doubles with a factor.
pub proof fn lemma_twice_product(a: Binary32, b: Binary32)
    requires
        has_double(b),
        product_in_range(a, b),
    ensures
        product(a, twice(b)) == twice(product(a, b)),
{
    let one = pow2(UNIT_EXPONENT as nat);
    let n = a.units() * b.units();
    lemma_pow2_pos(UNIT_EXPONENT as nat);
    lemma_twice(b);
    lemma_twice(product(a, b));
    lemma_magnitude_fields(a);
    lemma_magnitude_fields(b);
    assert(a.units() * twice(b).units() == 2 * n) by (nonlinear_arith)
        requires
            twice(b).units() == 2 * b.units(),
            n == a.units() * b.units(),
    ;
    if a.zero() || b.zero() {
        assert(n == 0) by (nonlinear_arith)
            requires
                n == a.units() * b.units(),
                a.units() == 0 || b.units() == 0,
        ;
        lemma_nearest_zero(one);
    } else {
        assert(product(a, b).magnitude() == nearest(n, one));
        lemma_nearest_doubles(n, one);
    }
    assert(product(a, twice(b)).magnitude() == twice(product(a, b)).magnitude());
}

/// A sum doubles with its terms.
proof fn lemma_twice_sum(a: Binary32, b: Binary32)
    requires
        has_double(a),
        has_double(b),
        has_double(sum(a, b)),
    ensures
        sum(twice(a), twice(b)) == twice(sum(a, b)),
{
    let exact = a.value() + b.value();
    lemma_twice(a);
    lemma_twice(b);
    lemma_twice(sum(a, b));
    assert(twice(a).value() + twice(b).value() == 2 * exact);
    if exact != 0 {
        let n = if exact < 0 {
            (-exact) as nat
        } else {
            exact as nat
        };
        assert(sum(a, b).magnitude() == nearest(n, 1));
        if n >= IMPLICIT {
            lemma_nearest_doubles(n, 1);
        } else {
            let x = signed(false, n);
            lemma_small_units(x);
            lemma_nearest_exact(x);
            lemma_twice(x);
            lemma_nearest_exact(twice(x));
        }
        assert(sum(twice(a), twice(b)).magnitude() == twice(sum(a, b)).magnitude());
    }
}

/// A rank in range doubles with the scale and the bias.
pub proof fn lemma_twice_rank(score: int, scale: Binary32, bias: Binary32, weight: Binary32)
    requires
        rank_in_range(score, scale, bias, weight),
    ensures
        rank(score, twice(scale), twice(bias), weight) == twice(
            rank(score, scale, bias, weight),
        ),
        has_double(rank(score, scale, bias, weight)),
{
    let scaled = product(integer(score), scale);
    let biased = sum(scaled, bias);
    lemma_twice_product(integer(score), scale);
    lemma_twice_sum(scaled, bias);
    lemma_product_commutes(biased, weight);
    lemma_product_commutes(twice(biased), weight);
    assert(product_in_range(weight, biased)) by {
        assert(weight.units() * biased.units() == biased.units() * weight.units())
            by (nonlinear_arith);
    }
    lemma_twice_product(weight, biased);
}

/// A quotient halves where its divisor doubles, while it stays in range.
proof fn lemma_twice_quotient(a: Binary32, b: Binary32)
    requires
        a.finite(),
        !b.zero(),
        has_double(b),
        IMPLICIT * (2 * b.units()) <= a.units() * pow2(UNIT_EXPONENT as nat),
        has_double(quotient(a, twice(b))),
    ensures
        quotient(a, b) == twice(quotient(a, twice(b))),
        quotient(a, twice(b)).magnitude() >= IMPLICIT,
{
    let n = a.units() * pow2(UNIT_EXPONENT as nat);
    let d = twice(b).units();
    lemma_magnitude_fields(a);
    lemma_magnitude_fields(b);
    lemma_twice(b);
    lemma_magnitude_fields(twice(b));
    assert(a.units() > 0) by (nonlinear_arith)
        requires
            n == a.units() * pow2(UNIT_EXPONENT as nat),
            n > 0,
    ;
    let half = quotient(a, twice(b));
    assert(half.magnitude() == nearest(n, d));
    lemma_nearest_doubles(n, d);
    assert((2 * n) * b.units() == n * d) by (nonlinear_arith)
        requires
            d == 2 * b.units(),
    ;
    lemma_nearest_of_equal(2 * n, d, n, b.units());
    lemma_twice(half);
    assert(quotient(a, b).magnitude() == twice(half).magnitude());
}

/// The power of two that is `2^(e + 23)` units.
spec fn power(e: nat) -> Binary32 {
    signed(false, ((e + 1) * IMPLICIT) as nat)
}

proof fn lemma_power(e: nat)
    requires
        e <= 253,
    ensures
        power(e).magnitude() == (e + 1) * IMPLICIT,
        power(e).units() == pow2(e + 23),
{
    lemma2_to64();
    lemma_pow2_adds(23, e);
    assert(power(e).magnitude() == (e + 1) * IMPLICIT);
    assert(power(e).exponent() == e && power(e).significand() == IMPLICIT);
}

/// What is no more than a power of two does not round to more.
proof fn lemma_nearest_at_most(n: nat, d: nat, e: nat)
    requires
        e <= 253,
        d > 0,
        n <= pow2(e + 23) * d,
    ensures
        nearest(n, d) <= (e + 1) * IMPLICIT,
{
    lemma_power(e);
    lemma_nearest_exact(power(e));
    lemma_nearest_monotone(n, d, power(e).units(), 1);
}

/// Numbers between two powers of two have units between theirs.
proof fn lemma_units_between(x: Binary32, low: nat, high: nat)
    requires
        low <= 253,
        high <= 253,
        (low + 1) * IMPLICIT <= x.magnitude() <= (high + 1) * IMPLICIT,
    ensures
        pow2(low + 23) <= x.units() <= pow2(high + 23),
{
    lemma_power(low);
    lemma_power(high);
    lemma_units_monotone(power(low), x);
    lemma_units_monotone(x, power(high));
}

/// The units of 127.
pub proof fn lemma_level_scale_units()
    ensures
        (Binary32 { bits: LEVEL_SCALE }).units() == 127 * pow2(UNIT_EXPONENT as nat),
{
    let x = Binary32 { bits: LEVEL_SCALE };
    lemma2_to64();
    lemma_pow2_adds(17, 132);
    assert(x.exponent() == 132 && x.significand() == 0xfe_0000);
    assert(0xfe_0000 * pow2(132) == 127 * (0x2_0000 * pow2(132)));
}

/// The units of 1.
pub proof fn lemma_one_units()
    ensures
        (Binary32 { bits: ONE }).units() == pow2(UNIT_EXPONENT as nat),
{
    lemma_power(126);
    assert(power(126) == Binary32 { bits: ONE });
}

/// The largest absolute value doubles with the row.
proof fn lemma_twice_largest(row: Seq<Binary32>)
    requires
        forall|d: int| 0 <= d < row.len() ==> has_double(#[trigger] row[d]),
    ensures
        has_double(largest_magnitude(row)),
        !largest_magnitude(row).negative(),
        largest_magnitude(row.map_values(|x: Binary32| twice(x))) == twice(largest_magnitude(row)),
    decreases row.len(),
{
    let doubled = row.map_values(|x: Binary32| twice(x));
    if row.len() == 0 {
        lemma_twice(Binary32 { bits: 0 });
    } else {
        let x = row.last();
        let rest = largest_magnitude(row.drop_last());
        lemma_twice_largest(row.drop_last());
        assert(doubled.drop_last() =~= row.drop_last().map_values(|x: Binary32| twice(x)));
        assert(has_double(row[row.len() - 1]));
        lemma_twice(x);
        lemma_twice(x.absolute());
        lemma_twice(rest);
        assert(twice(x).absolute() == twice(x.absolute()));
        lemma_twice_keeps_order(rest, x.absolute());
    }
}

/// The gain of a row that is more than negligible halves where the row
/// doubles.
proof fn lemma_gain_halves(row: Seq<Binary32>)
    requires
        forall|d: int| 0 <= d < row.len() ==> has_double(#[trigger] row[d]),
        (Binary32 { bits: NEGLIGIBLE }).less(largest_magnitude(row)),
    ensures
        ({
            let half = gain(row.map_values(|x: Binary32| twice(x)));
            &&& gain(row) == twice(half)
            &&& has_double(half)
            &&& IMPLICIT <= half.magnitude() <= 173 * IMPLICIT
            &&& !half.negative()
        }),
{
    let scale = Binary32 { bits: LEVEL_SCALE };
    let least = Binary32 { bits: NEGLIGIBLE };
    let largest = largest_magnitude(row);
    let one = pow2(UNIT_EXPONENT as nat);
    lemma_twice_largest(row);
    lemma_twice(largest);
    lemma_level_scale_units();
    // The largest value has 2^109 units or more, and 2^276 at the most.
    lemma_units_between(largest, 86, 253);
    assert(least.less(twice(largest)));
    lemma_pow2_pos(UNIT_EXPONENT as nat);
    lemma2_to64();
    lemma_pow2_adds(149, 149);
    lemma_pow2_adds(23, 276);
    lemma_pow2_unfold(300);
    lemma_pow2_unfold(299);
    let n = scale.units() * one;
    assert(n == 127 * pow2(298)) by (nonlinear_arith)
        requires
            n == (127 * one) * one,
            one * one == pow2(298),
    ;
    assert(IMPLICIT * (2 * largest.units()) <= n);
    lemma_pow2_adds(110, 188);
    lemma_pow2_adds(7, 188);
    lemma_pow2_unfold(110);
    lemma_pow2_pos(110);
    let d = twice(largest).units();
    assert(n <= pow2(195) * d) by (nonlinear_arith)
        requires
            n == 127 * (pow2(110) * pow2(188)),
            pow2(195) == 128 * pow2(188),
            d >= pow2(110),
    ;
    lemma_nearest_at_most(n, d, 172);
    lemma_magnitude_fields(twice(largest));
    assert(quotient(scale, twice(largest)).magnitude() == nearest(n, d));
    lemma_twice_quotient(scale, largest);
}

/// The factor that takes a score back to the scale of the coordinates doubles
/// with a row that is more than negligible.
proof fn lemma_twice_inverse_gain(row: Seq<Binary32>)
    requires
        forall|d: int| 0 <= d < row.len() ==> has_double(#[trigger] row[d]),
        (Binary32 { bits: NEGLIGIBLE }).less(largest_magnitude(row)),
    ensures
        inverse_gain(gain(row.map_values(|x: Binary32| twice(x)))) == twice(
            inverse_gain(gain(row)),
        ),
{
    let unit = Binary32 { bits: ONE };
    let scale = Binary32 { bits: LEVEL_SCALE };
    let half = gain(row.map_values(|x: Binary32| twice(x)));
    let one = pow2(UNIT_EXPONENT as nat);
    lemma_gain_halves(row);
    lemma_twice(half);
    lemma_level_scale_units();
    lemma_one_units();
    lemma_pow2_pos(UNIT_EXPONENT as nat);
    lemma2_to64();
    // The halved gain has between 2^23 and 2^195 units.
    lemma_units_between(half, 0, 172);
    let n = scale.units() * half.units();
    assert(IMPLICIT * one <= n) by (nonlinear_arith)
        requires
            n == (127 * one) * half.units(),
            half.units() >= IMPLICIT,
    ;
    lemma_pow2_adds(7, 195);
    assert(n <= pow2(202) * one) by (nonlinear_arith)
        requires
            n == (127 * one) * half.units(),
            half.units() <= pow2(195),
            pow2(202) == 128 * pow2(195),
    ;
    lemma_nearest_at_most(n, one, 179);
    lemma_product_commutes(half, scale);
    lemma_product_commutes(twice(half), scale);
    let p = product(half, scale);
    assert(p.magnitude() == nearest(n, one));
    lemma_nearest_doubles(n, one);
    lemma_twice_product(scale, half);
    assert(product(gain(row), scale) == twice(p));
    // The halved product has between 2^23 and 2^202 units.
    lemma_units_between(p, 0, 179);
    lemma_twice(p);
    lemma_magnitude_fields(twice(p));
    let m = unit.units() * one;
    let d = twice(p).units();
    lemma_pow2_adds(149, 149);
    lemma_pow2_adds(23, 203);
    lemma_pow2_unfold(203);
    lemma_pow2_strictly_increases(226, 298);
    assert(IMPLICIT * (2 * p.units()) <= m);
    lemma_pow2_adds(24, 274);
    assert(m <= pow2(274) * d) by (nonlinear_arith)
        requires
            m == 0x100_0000 * pow2(274),
            d >= 0x100_0000,
    ;
    lemma_nearest_at_most(m, d, 251);
    assert(quotient(unit, twice(p)).magnitude() == nearest(m, d));
    lemma_twice_quotient(unit, p);
}

/// A row that is more than negligible has the same levels as its double.
proof fn lemma_twice_levels(row: Seq<Binary32>)
    requires
        forall|d: int| 0 <= d < row.len() ==> has_double(#[trigger] row[d]),
        (Binary32 { bits: NEGLIGIBLE }).less(largest_magnitude(row)),
    ensures
        row_levels(row.map_values(|x: Binary32| twice(x))) == row_levels(row),
{
    let doubled = row.map_values(|x: Binary32| twice(x));
    let half = gain(doubled);
    lemma_gain_halves(row);
    lemma_twice(half);
    assert forall|d: int| 0 <= d < row.len() implies row_levels(doubled)[d] == row_levels(
        row,
    )[d] by {
        let x = row[d];
        lemma_twice(x);
        assert(twice(x).units() * half.units() == x.units() * twice(half).units())
            by (nonlinear_arith)
            requires
                twice(x).units() == 2 * x.units(),
                twice(half).units() == 2 * half.units(),
        ;
        assert(product(twice(x), half) == product(x, twice(half)));
    }
    assert(row_levels(doubled) =~= row_levels(row));
}

/// Ranks in the same order fill the slots alike.
proof fn lemma_held_alike(ranks: Seq<Binary32>, others: Seq<Binary32>, k: nat, m: nat)
    requires
        ranks.len() == others.len(),
        m <= ranks.len(),
        forall|v: int| 0 <= v < ranks.len() ==> (#[trigger] ranks[v]).nan() == others[v].nan(),
        forall|v: int, w: int|
            0 <= v < ranks.len() && 0 <= w < ranks.len() ==> (#[trigger] ranks[v]).less(
                #[trigger] ranks[w],
            ) == others[v].less(others[w]),
    ensures
        held(ranks, k, m) == held(others, k, m),
    decreases m,
{
    if 0 < k < m {
        let before = held(ranks, k, (m - 1) as nat);
        lemma_held_alike(ranks, others, k, (m - 1) as nat);
        lemma_held_len(ranks, k, (m - 1) as nat);
        lemma_held_places(ranks, k, (m - 1) as nat);
        let xs = ranks_at(ranks, before);
        let ys = ranks_at(others, before);
        lemma_weakest_exists(xs);
        lemma_weakest_exists(ys);
        let w = weakest(xs);
        assert forall|i: int, j: int| 0 <= i < xs.len() && 0 <= j < xs.len() implies (
        #[trigger] xs[i]).less(#[trigger] xs[j]) == ys[i].less(ys[j]) by {
            assert(ranks[before[i]].less(ranks[before[j]]) == others[before[i]].less(
                others[before[j]],
            ));
        }
        assert forall|i: int| 0 <= i < xs.len() implies (#[trigger] xs[i]).nan() == ys[i].nan() by {
            assert(ranks[before[i]].nan() == others[before[i]].nan());
        }
        assert(first_least(ys, w)) by {
            if !ys[0].nan() {
                assert(xs[0].nan() == ys[0].nan());
                assert(xs[w].nan() == ys[w].nan());
                assert forall|j: int| 0 <= j < ys.len() implies !(#[trigger] ys[j]).less(ys[w]) by {
                    assert(!xs[j].less(xs[w]));
                }
                assert forall|j: int| 0 <= j < w implies (#[trigger] ys[j]).nan() || ys[w].less(
                    ys[j],
                ) by {
                    assert(xs[j].nan() || xs[w].less(xs[j]));
                }
            }
        }
        lemma_first_least_unique(ys, w, weakest(ys));
        assert(ranks[before[w]].less(ranks[m - 1]) == others[before[w]].less(others[m - 1]));
    }
}

/// Doubling the scale and the bias of a row doubles every rank listed and
/// keeps the listing, while no rank leaves the range.
pub proof fn law_doubled_scale_doubles_ranking(
    row: Seq<i32>,
    weights: Seq<Binary32>,
    scale: Binary32,
    bias: Binary32,
    k: nat,
    scores: Seq<Binary32>,
    indices: Seq<i64>,
    doubled_scores: Seq<Binary32>,
    doubled_indices: Seq<i64>,
)
    requires
        forall|v: int|
            0 <= v < row.len() ==> rank_in_range(
                #[trigger] row[v] as int,
                scale,
                bias,
                weights[v],
            ),
        is_ranking(row_ranks(row, weights, scale, bias), k, scores, indices),
        is_ranking(
            row_ranks(row, weights, twice(scale), twice(bias)),
            k,
            doubled_scores,
            doubled_indices,
        ),
    ensures
        doubled_indices == indices,
        doubled_scores == scores.map_values(|x: Binary32| twice(x)),
{
    let ranks = row_ranks(row, weights, scale, bias);
    let doubled = row_ranks(row, weights, twice(scale), twice(bias));
    let expected = scores.map_values(|x: Binary32| twice(x));
    let places = indices.map_values(|v: i64| v as int);
    assert forall|v: int| 0 <= v < row.len() implies #[trigger] doubled[v] == twice(ranks[v])
        && has_double(ranks[v]) by {
        assert(rank_in_range(row[v] as int, scale, bias, weights[v]));
        lemma_twice_rank(row[v] as int, scale, bias, weights[v]);
    }
    assert forall|v: int| 0 <= v < ranks.len() implies (#[trigger] ranks[v]).nan()
        == doubled[v].nan() by {
        assert(doubled[v] == twice(ranks[v]));
        lemma_twice(ranks[v]);
    }
    assert forall|v: int, w: int| 0 <= v < ranks.len() && 0 <= w < ranks.len() implies (
    #[trigger] ranks[v]).less(#[trigger] ranks[w]) == doubled[v].less(doubled[w]) by {
        assert(doubled[v] == twice(ranks[v]) && doubled[w] == twice(ranks[w]));
        lemma_twice(ranks[v]);
        lemma_twice(ranks[w]);
        lemma_twice_keeps_order(ranks[v], ranks[w]);
    }
    lemma_held_alike(ranks, doubled, k, ranks.len());
    law_ranking_lists_distinct_places(ranks, k, scores, indices);
    assert forall|j: int| 0 <= j < scores.len() implies #[trigger] scores[j] == ranks[places[j]]
        && has_double(scores[j]) && expected[j] == doubled[places[j]] by {
        assert(places[j] == indices[j] && 0 <= indices[j] < ranks.len());
        assert(doubled[places[j]] == twice(ranks[places[j]]));
    }
    assert(expected =~= ranks_at(doubled, places));
    assert forall|i: int, j: int| 0 <= i <= j < expected.len() implies descent(
        #[trigger] expected[i],
    ) < descent(#[trigger] expected[j]) || (descent(expected[i]) == descent(expected[j])
        && slot_of(doubled, k, places[i]) <= slot_of(doubled, k, places[j])) by {
        assert(has_double(scores[i]) && has_double(scores[j]));
        lemma_twice(scores[i]);
        lemma_twice(scores[j]);
        lemma_twice_keeps_order(scores[i], scores[j]);
    }
    assert(is_ranking(doubled, k, expected, indices));
    law_rankings_are_settled(
        doubled,
        k,
        doubled_scores,
        doubled_indices,
        expected,
        indices,
    );
}

/// Doubling every query doubles every rank listed and keeps the listing.  The
/// biases double with the queries; those of an index without calibration are
/// zero, and stay so.
pub proof fn law_doubled_queries_double_scores(
    index: IndexView,
    queries: Seq<Binary32>,
    biases: Seq<Binary32>,
    k: nat,
    db: Seq<i8>,
    r: SearchResults,
    doubled: SearchResults,
)
    requires
        index.accepts(queries, biases, k),
        index.finds(queries, biases, k, db, &r),
        index.finds(
            queries.map_values(|x: Binary32| twice(x)),
            biases.map_values(|x: Binary32| twice(x)),
            k,
            db,
            &doubled,
        ),
        forall|q: int|
            0 <= q < r.nq ==> query_in_range(
                index,
                #[trigger] matrix_row(queries, index.dim->0 as int, q),
                biases[q],
                db,
            ),
    ensures
        doubled.nq == r.nq,
        doubled.k == r.k,
        doubled.indices@ == r.indices@,
        doubled.scores@ == r.scores@.map_values(|x: Binary32| twice(x)),
{
    let double = |x: Binary32| twice(x);
    let doubled_queries = queries.map_values(double);
    let doubled_biases = biases.map_values(double);
    if index.dim is Some && r.k > 0 {
        let dim = index.dim->0 as int;
        let n = index.n_vectors;
        let width = r.k as int;
        let expected = r.scores@.map_values(double);
        assert forall|q: int| 0 <= q < r.nq implies #[trigger] matrix_row(
            doubled.indices@,
            width,
            q,
        ) == matrix_row(r.indices@, width, q) && matrix_row(doubled.scores@, width, q)
            == matrix_row(expected, width, q) by {
            let query = matrix_row(queries, dim, q);
            let row = query_scores(query, db, n);
            let scale = inverse_gain(gain(query));
            lemma_row_in_range(q, r.nq as int, dim);
            lemma_row_in_range(q, r.nq as int, width);
            assert(matrix_row(doubled_queries, dim, q) =~= query.map_values(double));
            assert(query_in_range(index, query, biases[q], db));
            lemma_twice_levels(query);
            lemma_twice_inverse_gain(query);
            assert(query_scores(query.map_values(double), db, n) =~= row);
            assert(is_ranking(
                index.query_ranks(query, biases[q], db),
                r.k as nat,
                matrix_row(r.scores@, width, q),
                matrix_row(r.indices@, width, q),
            ));
            assert(is_ranking(
                index.query_ranks(query.map_values(double), twice(biases[q]), db),
                r.k as nat,
                matrix_row(doubled.scores@, width, q),
                matrix_row(doubled.indices@, width, q),
            ));
            law_doubled_scale_doubles_ranking(
                row,
                index.scales,
                scale,
                biases[q],
                r.k as nat,
                matrix_row(r.scores@, width, q),
                matrix_row(r.indices@, width, q),
                matrix_row(doubled.scores@, width, q),
                matrix_row(doubled.indices@, width, q),
            );
            assert(matrix_row(expected, width, q) =~= matrix_row(
                r.scores@,
                width,
                q,
            ).map_values(double));
        }
        assert forall|q: int| 0 <= q < r.nq implies #[trigger] matrix_row(doubled.scores@, width, q)
            == matrix_row(expected, width, q) by {
            assert(matrix_row(doubled.indices@, width, q) == matrix_row(r.indices@, width, q));
        }
        lemma_equal_rows(doubled.indices@, r.indices@, r.nq as int, width);
        lemma_equal_rows(doubled.scores@, expected, r.nq as int, width);
    } else {
        assert(doubled.indices@ =~= r.indices@);
        assert(doubled.scores@ =~= r.scores@.map_values(double));
    }
}

} // verus!
