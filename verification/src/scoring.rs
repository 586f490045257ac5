//! What scores, ranks and rankings say about the entries that they come from.
use crate::binary32::{integer, product, sum, Binary32};
use crate::doubling::{lemma_product_commutes, lemma_twice_product};
use crate::index::query_scores;
use crate::laws::{
    law_ranking_lists_distinct_places, law_ranking_lists_the_best, law_rankings_are_settled,
};
use crate::matrix::{
    cell, inner_product, lemma_cell_in_range, lemma_row_in_range, matrix_column, matrix_row,
    wrapped,
};
use crate::numbers::law_product_is_the_nearest;
use crate::order::{lemma_integer_monotone, lemma_product_monotone, lemma_sum_monotone};
use crate::quantize::row_levels;
use crate::topk::{
    descent, first_least, held, is_ranking, lemma_first_least_unique, lemma_held_len,
    lemma_held_places, lemma_weakest_exists, rank, ranks_at, row_ranks, slot_of, weakest,
};
use vstd::arithmetic::div_mod::lemma_fundamental_div_mod_converse;
use vstd::arithmetic::power2::pow2;
use vstd::math::abs;
use vstd::prelude::*;

verus! {

/// The entries of a matrix lie row by row, one row after the other.
pub proof fn law_entries_lie_row_by_row<T>(
    entries: Seq<T>,
    height: nat,
    width: int,
    i: int,
    j: int,
)
    requires
        entries.len() == height * width,
        0 <= i < height,
        0 <= j < width,
    ensures
        cell(entries, width, i, j) == entries[i * width + j],
        matrix_row(entries, width, i).len() == width,
        matrix_row(entries, width, i)[j] == entries[i * width + j],
        matrix_column(entries, height, width, j).len() == height,
        matrix_column(entries, height, width, j)[i] == entries[i * width + j],
{
    lemma_row_in_range(i, height as int, width);
}

/// 32 bits keep an integer up to a multiple of 2^32.
pub proof fn law_wrapping_keeps_the_low_bits(x: int)
    ensures
        -0x8000_0000 <= wrapped(x) <= 0x7fff_ffff,
        (wrapped(x) - x) % 0x1_0000_0000 == 0,
{
}

/// An inner product changes with one coordinate by the change times the other
/// side's coordinate there.
pub proof fn law_inner_product_is_linear(a: Seq<i8>, b: Seq<i8>, d: int, x: i8)
    requires
        a.len() == b.len(),
        0 <= d < a.len(),
    ensures
        inner_product(a.update(d, x), b) == inner_product(a, b) + (x - a[d]) * b[d],
        inner_product(b, a.update(d, x)) == inner_product(b, a) + b[d] * (x - a[d]),
    decreases a.len(),
{
    let c = a.update(d, x);
    if d == a.len() - 1 {
        assert(c.drop_last() =~= a.drop_last());
        assert((x - a[d]) * b[d] == x * b[d] - a[d] * b[d] && b[d] * (x - a[d]) == b[d] * x - b[d]
            * a[d]) by (nonlinear_arith);
    } else {
        law_inner_product_is_linear(a.drop_last(), b.drop_last(), d, x);
        assert(c.drop_last() =~= a.drop_last().update(d, x));
        assert(c.last() == a.last());
    }
}

/// The inner product with zeros is zero.
pub proof fn law_inner_product_with_zeros_is_zero(a: Seq<i8>, b: Seq<i8>)
    requires
        a.len() == b.len(),
        forall|d: int| 0 <= d < b.len() ==> #[trigger] b[d] == 0,
    ensures
        inner_product(a, b) == 0,
        inner_product(b, a) == 0,
    decreases a.len(),
{
    if a.len() > 0 {
        law_inner_product_with_zeros_is_zero(a.drop_last(), b.drop_last());
        assert(b[b.len() - 1] == 0);
        assert(a.last() * b.last() == 0 && b.last() * a.last() == 0) by (nonlinear_arith)
            requires
                b.last() == 0,
        ;
    }
}

/// What differs by a multiple of 2^32 from what differs by another does so too.
proof fn lemma_congruent(a: int, b: int, x: int, y: int)
    requires
        (a - x) % 0x1_0000_0000 == 0,
        (b - y) % 0x1_0000_0000 == 0,
    ensures
        ((a - b) - (x - y)) % 0x1_0000_0000 == 0,
{
}

/// A vector's score changes with one of its bytes by the change times the query's
/// level there, up to a multiple of 2^32, and no other vector's score changes.
/// (Entry `d * n + v` is that of vector `v` at coordinate `d`.)
pub proof fn law_scores_are_linear_in_the_bytes(
    query: Seq<Binary32>,
    db: Seq<i8>,
    n: nat,
    v: int,
    d: int,
    x: i8,
)
    requires
        db.len() == query.len() * n,
        0 <= v < n,
        0 <= d < query.len(),
    ensures
        ({
            let scores = query_scores(query, db, n);
            let changed = query_scores(query, db.update(d * n + v, x), n);
            &&& scores.len() == n
            &&& changed.len() == n
            &&& (changed[v] - scores[v] - row_levels(query)[d] * (x - db[d * n + v]))
                % 0x1_0000_0000 == 0
            &&& forall|u: int| 0 <= u < n && u != v ==> #[trigger] changed[u] == scores[u]
        }),
{
    let w = n as int;
    let other = db.update(d * n + v, x);
    let levels = row_levels(query);
    let before = matrix_column(db, query.len(), w, v);
    let after = matrix_column(other, query.len(), w, v);
    lemma_cell_in_range(d, v, query.len() as int, w);
    assert forall|u: int, e: int| 0 <= u < n && 0 <= e < query.len() && (u != v || e
        != d) implies #[trigger] cell(other, w, e, u) == cell(db, w, e, u) by {
        lemma_cell_in_range(e, u, query.len() as int, w);
        if e * w + u == d * w + v {
            lemma_fundamental_div_mod_converse(e * w + u, w, e, u);
            lemma_fundamental_div_mod_converse(d * w + v, w, d, v);
        }
    }
    assert(after =~= before.update(d, x)) by {
        assert forall|e: int| 0 <= e < query.len() implies after[e] == before.update(d, x)[e] by {
            if e != d {
                assert(cell(other, w, e, v) == cell(db, w, e, v));
            }
        }
    }
    law_inner_product_is_linear(before, levels, d, x);
    let a = inner_product(levels, before);
    let b = inner_product(levels, after);
    law_wrapping_keeps_the_low_bits(a);
    law_wrapping_keeps_the_low_bits(b);
    lemma_congruent(wrapped(b), wrapped(a), b, a);
    assert forall|u: int| 0 <= u < n && u != v implies #[trigger] query_scores(query, other, n)[u]
        == query_scores(query, db, n)[u] by {
        assert forall|e: int| 0 <= e < query.len() implies matrix_column(
            other,
            query.len(),
            w,
            u,
        )[e] == matrix_column(db, query.len(), w, u)[e] by {
            assert(cell(other, w, e, u) == cell(db, w, e, u));
        }
        assert(matrix_column(other, query.len(), w, u) =~= matrix_column(db, query.len(), w, u));
    }
}

/// A vector of zero bytes scores zero.
pub proof fn law_zero_vectors_score_zero(query: Seq<Binary32>, db: Seq<i8>, n: nat, v: int)
    requires
        db.len() == query.len() * n,
        0 <= v < n,
        forall|d: int| 0 <= d < query.len() ==> db[#[trigger] (d * n) + v] == 0,
    ensures
        query_scores(query, db, n)[v] == 0,
{
    let column = matrix_column(db, query.len(), n as int, v);
    assert forall|d: int| 0 <= d < column.len() implies #[trigger] column[d] == 0 by {
        assert(db[(d * n) + v] == 0);
    }
    law_inner_product_with_zeros_is_zero(row_levels(query), column);
}

/// The score of a vector is the inner product of its bytes with the levels of the
/// query, up to a multiple of 2^32.
pub proof fn law_score_is_the_inner_product(query: Seq<Binary32>, db: Seq<i8>, n: nat, v: int)
    requires
        db.len() == query.len() * n,
        0 <= v < n,
    ensures
        (query_scores(query, db, n)[v] - inner_product(
            row_levels(query),
            Seq::new(query.len(), |d: int| db[d * n + v]),
        )) % 0x1_0000_0000 == 0,
{
    let column = matrix_column(db, query.len(), n as int, v);
    assert(column =~= Seq::new(query.len(), |d: int| db[d * n + v]));
    law_wrapping_keeps_the_low_bits(inner_product(row_levels(query), column));
}

/// A rank is the score times the scale, plus the bias, times the weight, each step
/// rounded.
pub proof fn law_rank_is_the_weighted_score(
    score: i32,
    scale: Binary32,
    bias: Binary32,
    weight: Binary32,
)
    ensures
        rank(score as int, scale, bias, weight) == product(
            sum(product(integer(score as int), scale), bias),
            weight,
        ),
{
}

/// A rank is the number nearest to the weight times the biased score.
pub proof fn law_rank_is_nearest_to_the_weighted_score(
    score: i32,
    scale: Binary32,
    bias: Binary32,
    weight: Binary32,
    c: Binary32,
)
    requires
        sum(product(integer(score as int), scale), bias).finite(),
        weight.finite(),
        c.finite(),
    ensures
        ({
            let biased = sum(product(integer(score as int), scale), bias);
            let r = rank(score as int, scale, bias, weight);
            let one = pow2(149) as int;
            let exact = biased.value() * weight.value();
            &&& !r.nan()
            &&& r.infinite() <==> 2 * abs(exact) >= 0x1ff_ffff * (pow2(253) * one)
            &&& r.finite() ==> abs(r.value() * one - exact) <= abs(c.value() * one - exact)
        }),
{
    law_product_is_the_nearest(sum(product(integer(score as int), scale), bias), weight, c);
}

/// A rank doubles with the weight, where neither overflows nor underflows.
pub proof fn law_rank_doubles_with_the_weight(
    score: i32,
    scale: Binary32,
    bias: Binary32,
    weight: Binary32,
)
    requires
        ({
            let biased = sum(product(integer(score as int), scale), bias);
            &&& biased.finite()
            &&& weight.magnitude() + 0x80_0000 < 0x7f80_0000
            &&& biased.zero() || weight.zero() || 0x80_0000 * pow2(149) <= biased.units()
                * weight.units()
            &&& rank(score as int, scale, bias, weight).magnitude() + 0x80_0000 < 0x7f80_0000
        }),
    ensures
        ({
            let two = Binary32 { bits: 0x4000_0000 };
            rank(score as int, scale, bias, product(two, weight)) == product(
                two,
                rank(score as int, scale, bias, weight),
            )
        }),
{
    lemma_twice_product(sum(product(integer(score as int), scale), bias), weight);
}

/// Of two vectors with the same biased score, not negative, the one of the greater
/// weight does not get the smaller rank.
pub proof fn law_rank_grows_with_the_weight(
    score: i32,
    scale: Binary32,
    bias: Binary32,
    weight: Binary32,
    heavier: Binary32,
)
    requires
        !sum(product(integer(score as int), scale), bias).negative(),
        !heavier.less(weight),
        !weight.nan(),
        !heavier.nan(),
    ensures
        !rank(score as int, scale, bias, heavier).less(rank(score as int, scale, bias, weight)),
{
    let biased = sum(product(integer(score as int), scale), bias);
    lemma_product_commutes(biased, weight);
    lemma_product_commutes(biased, heavier);
    lemma_product_monotone(weight, heavier, biased);
}

/// Of two vectors of the same weight, not negative, under a scale that is not
/// negative, the one with the greater score does not get the smaller rank.
pub proof fn law_rank_grows_with_the_score(
    score: i32,
    greater: i32,
    scale: Binary32,
    bias: Binary32,
    weight: Binary32,
)
    requires
        score <= greater,
        !scale.negative(),
        !weight.negative(),
    ensures
        !rank(greater as int, scale, bias, weight).less(rank(score as int, scale, bias, weight)),
{
    lemma_integer_monotone(score as int, greater as int);
    let a = integer(score as int);
    let b = integer(greater as int);
    lemma_product_monotone(a, b, scale);
    let pa = product(a, scale);
    let pb = product(b, scale);
    if !pa.nan() && !pb.nan() {
        lemma_sum_monotone(pa, pb, bias);
        let sa = sum(pa, bias);
        let sb = sum(pb, bias);
        if !sa.nan() && !sb.nan() {
            lemma_product_monotone(sa, sb, weight);
        }
    }
}

/// The ranking of a row lists as many places as there are, up to `k`, each once
/// and with the rank of its own score and weight, from the greatest down, NaN at
/// the end.  Unless a rank is NaN, no place left out has a greater rank than one
/// listed.
pub proof fn law_row_ranking_lists_the_best(
    row: Seq<i32>,
    weights: Seq<Binary32>,
    scale: Binary32,
    bias: Binary32,
    k: nat,
    scores: Seq<Binary32>,
    indices: Seq<i64>,
)
    requires
        is_ranking(row_ranks(row, weights, scale, bias), k, scores, indices),
    ensures
        scores.len() == indices.len(),
        indices.len() == if k < row.len() {
            k
        } else {
            row.len()
        },
        forall|i: int, j: int|
            0 <= i < j < indices.len() ==> #[trigger] indices[i] != #[trigger] indices[j],
        forall|j: int| 0 <= j < indices.len() ==> 0 <= #[trigger] indices[j] < row.len(),
        forall|j: int|
            0 <= j < indices.len() ==> #[trigger] scores[j] == product(
                sum(product(integer(row[indices[j] as int] as int), scale), bias),
                weights[indices[j] as int],
            ),
        forall|i: int, j: int|
            0 <= i <= j < scores.len() ==> !(#[trigger] scores[i]).less(#[trigger] scores[j]) && (
            scores[i].nan() ==> scores[j].nan()),
        (forall|v: int|
            0 <= v < row.len() ==> !product(
                sum(product(integer(#[trigger] row[v] as int), scale), bias),
                weights[v],
            ).nan()) ==> forall|v: i64, j: int|
            0 <= v < row.len() && !indices.contains(v) && 0 <= j < scores.len() ==> !(
            #[trigger] scores[j]).less(
                product(
                    sum(product(integer(#[trigger] row[v as int] as int), scale), bias),
                    weights[v as int],
                ),
            ),
{
    let ranks = row_ranks(row, weights, scale, bias);
    law_ranking_lists_distinct_places(ranks, k, scores, indices);
    assert forall|i: int, j: int| 0 <= i <= j < scores.len() implies !(#[trigger] scores[i]).less(
        #[trigger] scores[j],
    ) && (scores[i].nan() ==> scores[j].nan()) by {
        assert(descent(scores[i]) <= descent(scores[j]));
    }
    if forall|v: int|
        0 <= v < row.len() ==> !product(
            sum(product(integer(#[trigger] row[v] as int), scale), bias),
            weights[v],
        ).nan() {
        assert forall|v: int| 0 <= v < ranks.len() implies !(#[trigger] ranks[v]).nan() by {
            assert(!product(
                sum(product(integer(row[v] as int), scale), bias),
                weights[v],
            ).nan());
        }
        law_ranking_lists_the_best(ranks, k, scores, indices);
        assert forall|v: i64, j: int|
            0 <= v < row.len() && !indices.contains(v) && 0 <= j < scores.len() implies !(
        #[trigger] scores[j]).less(
            product(
                sum(product(integer(#[trigger] row[v as int] as int), scale), bias),
                weights[v as int],
            ),
        ) by {
            assert(!scores[j].less(ranks[v as int]));
        }
    }
}

/// With one weight for all, and neither it nor the scale negative, the scores
/// listed are the greatest: one left out is greater than one listed only where
/// rounding made their ranks equal.
pub proof fn law_equal_weights_list_the_greatest_scores(
    row: Seq<i32>,
    weights: Seq<Binary32>,
    weight: Binary32,
    scale: Binary32,
    bias: Binary32,
    k: nat,
    scores: Seq<Binary32>,
    indices: Seq<i64>,
    v: i64,
    j: int,
)
    requires
        is_ranking(row_ranks(row, weights, scale, bias), k, scores, indices),
        forall|u: int| 0 <= u < row.len() ==> #[trigger] weights[u] == weight,
        !weight.negative(),
        !scale.negative(),
        forall|u: int|
            0 <= u < row.len() ==> !product(
                sum(product(integer(#[trigger] row[u] as int), scale), bias),
                weight,
            ).nan(),
        0 <= v < row.len(),
        !indices.contains(v),
        0 <= j < indices.len(),
        row[v as int] > row[indices[j] as int],
    ensures
        product(
            sum(product(integer(row[v as int] as int), scale), bias),
            weight,
        ).order() == scores[j].order(),
{
    law_row_ranking_lists_the_best(row, weights, scale, bias, k, scores, indices);
    let i = indices[j] as int;
    assert(weights[i] == weight && weights[v as int] == weight);
    assert forall|u: int| 0 <= u < row.len() implies !product(
        sum(product(integer(#[trigger] row[u] as int), scale), bias),
        weights[u],
    ).nan() by {
        assert(weights[u] == weight);
    }
    law_rank_grows_with_the_score(row[i], row[v as int], scale, bias, weight);
    law_rank_is_the_weighted_score(row[i], scale, bias, weight);
    law_rank_is_the_weighted_score(row[v as int], scale, bias, weight);
    assert(scores[j] == product(sum(product(integer(row[i] as int), scale), bias), weights[i]));
    assert(!scores[j].less(
        product(sum(product(integer(row[v as int] as int), scale), bias), weights[v as int]),
    ));
}

/// The first of the least: none is less, and all before it are greater, NaN left
/// aside; a NaN at the front counts as the least.
pub proof fn law_weakest_is_the_first_of_the_least(xs: Seq<Binary32>, i: int)
    requires
        xs.len() > 0,
    ensures
        first_least(xs, i) <==> i == weakest(xs),
        0 <= weakest(xs) < xs.len(),
        xs[0].nan() ==> weakest(xs) == 0,
        !xs[0].nan() ==> !xs[weakest(xs)].nan(),
        !xs[0].nan() ==> forall|j: int|
            0 <= j < xs.len() ==> !(#[trigger] xs[j]).less(xs[weakest(xs)]),
        !xs[0].nan() ==> forall|j: int|
            0 <= j < weakest(xs) ==> (#[trigger] xs[j]).nan() || xs[weakest(xs)].less(xs[j]),
{
    lemma_weakest_exists(xs);
    if first_least(xs, i) {
        lemma_first_least_unique(xs, i, weakest(xs));
    }
}

/// The slots fill up with the first `k` places in their order.  After that, a place
/// of greater rank than the first of the least held takes its slot, and any other
/// changes nothing.
pub proof fn law_slots_change_by_one_place(ranks: Seq<Binary32>, k: nat, m: nat)
    requires
        k > 0,
        m < ranks.len(),
    ensures
        ({
            let before = held(ranks, k, m);
            let after = held(ranks, k, m + 1);
            &&& m < k ==> before.len() == m && after == before.push(m as int)
            &&& m >= k ==> exists|w: int|
                {
                    &&& before.len() == k
                    &&& 0 <= w < k
                    &&& ranks[before[0]].nan() ==> w == 0
                    &&& !ranks[before[0]].nan() ==> !ranks[before[w]].nan() && forall|s: int|
                        0 <= s < k ==> !ranks[#[trigger] before[s]].less(ranks[before[w]]) && (s < w
                            ==> ranks[before[s]].nan() || ranks[before[w]].less(ranks[before[s]]))
                    &&& after == if ranks[#[trigger] before[w]].less(ranks[m as int]) {
                        before.update(w, m as int)
                    } else {
                        before
                    }
                }
        }),
{
    let before = held(ranks, k, m);
    let after = held(ranks, k, m + 1);
    lemma_held_len(ranks, k, m);
    if m < k {
        assert(after =~= before.push(m as int));
    } else {
        let values = ranks_at(ranks, before);
        let w = weakest(values);
        law_weakest_is_the_first_of_the_least(values, w);
        assert(values[w] == ranks[before[w]]);
        assert forall|s: int| !ranks[before[0]].nan() && 0 <= s < k implies !ranks[
            #[trigger] before[s]].less(ranks[before[w]]) && (s < w ==> ranks[before[s]].nan()
            || ranks[before[w]].less(ranks[before[s]])) by {
            assert(values[s] == ranks[before[s]]);
        }
    }
}

/// Before the first rank no slot is filled, and without slots none ever is.
pub proof fn law_slots_start_empty(ranks: Seq<Binary32>, k: nat, m: nat)
    ensures
        held(ranks, k, 0).len() == 0,
        held(ranks, 0, m).len() == 0,
{
}

/// A rank added at the end does not change what the slots held before.
proof fn lemma_held_before_end(ranks: Seq<Binary32>, x: Binary32, k: nat, m: nat)
    requires
        m <= ranks.len(),
    ensures
        held(ranks.push(x), k, m) == held(ranks, k, m),
    decreases m,
{
    if 0 < k < m {
        let before = held(ranks, k, (m - 1) as nat);
        lemma_held_before_end(ranks, x, k, (m - 1) as nat);
        lemma_held_len(ranks, k, (m - 1) as nat);
        lemma_held_places(ranks, k, (m - 1) as nat);
        lemma_weakest_exists(ranks_at(ranks, before));
        assert(ranks_at(ranks.push(x), before) =~= ranks_at(ranks, before));
    }
}

/// One more rank, no greater than any listed, changes nothing in a full listing
/// without NaN.
pub proof fn law_no_better_rank_changes_nothing(
    ranks: Seq<Binary32>,
    x: Binary32,
    k: nat,
    scores: Seq<Binary32>,
    indices: Seq<i64>,
    longer_scores: Seq<Binary32>,
    longer_indices: Seq<i64>,
)
    requires
        k <= ranks.len(),
        forall|v: int| 0 <= v < ranks.len() ==> !(#[trigger] ranks[v]).nan(),
        is_ranking(ranks, k, scores, indices),
        is_ranking(ranks.push(x), k, longer_scores, longer_indices),
        forall|j: int| 0 <= j < scores.len() ==> !(#[trigger] scores[j]).less(x),
    ensures
        longer_scores == scores,
        longer_indices == indices,
{
    broadcast use vstd::seq_lib::group_to_multiset_ensures;

    let longer = ranks.push(x);
    let n = ranks.len();
    let kept = held(ranks, k, n);
    let places = indices.map_values(|v: i64| v as int);
    law_ranking_lists_distinct_places(ranks, k, scores, indices);
    lemma_held_before_end(ranks, x, k, n);
    lemma_held_len(ranks, k, n);
    lemma_held_places(ranks, k, n);
    if k > 0 {
        let values = ranks_at(ranks, kept);
        assert(ranks_at(longer, kept) =~= values);
        lemma_weakest_exists(values);
        let w = weakest(values);
        assert(kept.contains(kept[w]));
        assert(places.to_multiset().count(kept[w]) > 0);
        assert(places.contains(kept[w]));
        let j = choose|j: int| 0 <= j < places.len() && places[j] == kept[w];
        assert(indices[j] == kept[w]);
        assert(scores[j] == ranks[indices[j] as int]);
        assert(!scores[j].less(x));
        assert(longer[kept[w]] == ranks[kept[w]]);
        assert(longer[n as int] == x);
    }
    assert(held(longer, k, longer.len()) == kept);
    assert forall|j: int| 0 <= j < places.len() implies #[trigger] longer[places[j]]
        == ranks[places[j]] by {
        assert(0 <= indices[j] < ranks.len());
    }
    assert(ranks_at(longer, places) =~= ranks_at(ranks, places));
    assert(is_ranking(longer, k, scores, indices));
    law_rankings_are_settled(longer, k, longer_scores, longer_indices, scores, indices);
}

/// Places of equal rank are listed in the order of the slots that hold them.
pub proof fn law_equal_ranks_come_by_slot(
    ranks: Seq<Binary32>,
    k: nat,
    scores: Seq<Binary32>,
    indices: Seq<i64>,
    i: int,
    j: int,
)
    requires
        is_ranking(ranks, k, scores, indices),
        0 <= i < j < indices.len(),
        scores[i].order() == scores[j].order(),
        !scores[i].nan(),
        !scores[j].nan(),
    ensures
        exists|a: int, b: int|
            0 <= a < b < held(ranks, k, ranks.len()).len() && #[trigger] held(
                ranks,
                k,
                ranks.len(),
            )[a] == indices[i] && #[trigger] held(ranks, k, ranks.len())[b] == indices[j],
{
    broadcast use vstd::seq_lib::group_to_multiset_ensures;

    let kept = held(ranks, k, ranks.len());
    let places = indices.map_values(|v: i64| v as int);
    law_ranking_lists_distinct_places(ranks, k, scores, indices);
    assert(places.contains(places[i]) && places.contains(places[j]));
    assert(kept.to_multiset().count(places[i]) > 0 && kept.to_multiset().count(places[j]) > 0);
    assert(kept.contains(places[i]) && kept.contains(places[j]));
    let a = slot_of(ranks, k, places[i]);
    let b = slot_of(ranks, k, places[j]);
    assert(descent(scores[i]) == descent(scores[j]));
    assert(kept[a] == places[i] && kept[b] == places[j]);
    assert(indices[i] != indices[j]);
}

} // verus!
