//! What holds of the library as a whole.
use crate::binary32::{
    integer, lemma_magnitude_fields, product, signed, sum, Binary32, UNIT_EXPONENT,
};
use crate::index::{query_scores, IndexView, SearchResults};
use crate::matrix::{
    cell, inner_product, lemma_cell_in_range, lemma_cell_of_row, lemma_equal_rows,
    lemma_row_in_range, matrix_column, matrix_row,
};
use crate::order::{
    lemma_integer_monotone, lemma_nearest_exact, lemma_nearest_zero, lemma_product_monotone,
    lemma_sum_monotone,
};
use crate::quantize::{
    gain, half_up, inverse_gain, largest_magnitude, level, row_levels, LEVEL_SCALE, MAX_LEVEL,
    NEGLIGIBLE,
};
use crate::topk::{
    descent, held, is_ranking, lemma_held_len, lemma_held_places, lemma_mapped_multisets,
    lemma_ranking_len, lemma_weakest_exists, rank, ranks_at, slot_of, weakest,
};
use vstd::arithmetic::div_mod::{
    lemma_fundamental_div_mod, lemma_fundamental_div_mod_converse, lemma_mod_breakdown,
    lemma_small_mod,
};
use vstd::arithmetic::mul::lemma_mul_is_commutative;
use vstd::arithmetic::power2::{lemma2_to64, lemma_pow2_pos, lemma_pow2_unfold, pow2};
use vstd::math::min;
use vstd::prelude::*;

verus! {

/// Whether no rank is NaN.
pub open spec fn comparable(ranks: Seq<Binary32>) -> bool {
    forall|v: int| 0 <= v < ranks.len() ==> !(#[trigger] ranks[v]).nan()
}

/// No rank seen but not held is greater than one held.
proof fn lemma_held_best(ranks: Seq<Binary32>, k: nat, m: nat, v: int, s: int)
    requires
        m <= ranks.len(),
        comparable(ranks),
        0 <= v < m,
        !held(ranks, k, m).contains(v),
        0 <= s < held(ranks, k, m).len(),
    ensures
        !ranks[held(ranks, k, m)[s]].less(ranks[v]),
    decreases m,
{
    let now = held(ranks, k, m);
    if m <= k {
        assert(now[v] == v);
    } else {
        let before = held(ranks, k, (m - 1) as nat);
        let w = weakest(ranks_at(ranks, before));
        lemma_held_places(ranks, k, (m - 1) as nat);
        lemma_held_places(ranks, k, m);
        lemma_held_len(ranks, k, (m - 1) as nat);
        lemma_weakest_exists(ranks_at(ranks, before));
        let values = ranks_at(ranks, before);
        assert(!values[0].nan());
        assert(!values[s].less(values[w]));
        if ranks[before[w]].less(ranks[m - 1]) {
            assert(now == before.update(w, m - 1));
            assert(now[w] == m - 1);
            if v == before[w] {
                assert(!ranks[before[s]].less(ranks[v]));
            } else {
                assert(!before.contains(v)) by {
                    if before.contains(v) {
                        let i = choose|i: int| 0 <= i < before.len() && before[i] == v;
                        assert(now[i] == v);
                    }
                }
                lemma_held_best(ranks, k, (m - 1) as nat, v, s);
                lemma_held_best(ranks, k, (m - 1) as nat, v, w);
            }
        } else if v < m - 1 {
            lemma_held_best(ranks, k, (m - 1) as nat, v, s);
        }
    }
}

/// A ranking lists different places, and as many as there are, up to `k`.
pub proof fn law_ranking_lists_distinct_places(
    ranks: Seq<Binary32>,
    k: nat,
    scores: Seq<Binary32>,
    indices: Seq<i64>,
)
    requires
        is_ranking(ranks, k, scores, indices),
    ensures
        scores.len() == indices.len(),
        indices.len() == min(k as int, ranks.len() as int),
        indices.no_duplicates(),
        forall|j: int| 0 <= j < indices.len() ==> 0 <= #[trigger] indices[j] < ranks.len(),
        forall|j: int|
            0 <= j < indices.len() ==> #[trigger] scores[j] == ranks[indices[j] as int],
{
    broadcast use vstd::seq_lib::group_to_multiset_ensures;

    let places = indices.map_values(|v: i64| v as int);
    let kept = held(ranks, k, ranks.len());
    lemma_ranking_len(ranks, k, scores, indices);
    lemma_held_places(ranks, k, ranks.len());
    kept.lemma_multiset_has_no_duplicates();
    places.lemma_multiset_has_no_duplicates_conv();
    assert forall|i: int, j: int| 0 <= i < indices.len() && 0 <= j < indices.len() && i
        != j implies indices[i] != indices[j] by {
        assert(places[i] != places[j]);
    }
    assert forall|j: int| 0 <= j < indices.len() implies 0 <= #[trigger] indices[j]
        < ranks.len() by {
        assert(places[j] == indices[j]);
        assert(places.contains(places[j]));
        assert(kept.to_multiset().count(places[j]) > 0);
        assert(kept.contains(places[j]));
    }
}

/// Unless a rank is NaN, a ranking lists the best: none that it leaves out is
/// greater than one that it lists, and none listed later is greater than one
/// listed before.
pub proof fn law_ranking_lists_the_best(
    ranks: Seq<Binary32>,
    k: nat,
    scores: Seq<Binary32>,
    indices: Seq<i64>,
)
    requires
        is_ranking(ranks, k, scores, indices),
        comparable(ranks),
    ensures
        forall|v: i64, j: int|
            0 <= v < ranks.len() && !indices.contains(v) && 0 <= j < scores.len()
                ==> !(#[trigger] scores[j]).less(#[trigger] ranks[v as int]),
        forall|i: int, j: int|
            0 <= i <= j < scores.len() ==> !(#[trigger] scores[i]).less(#[trigger] scores[j]),
{
    broadcast use vstd::seq_lib::group_to_multiset_ensures;

    let places = indices.map_values(|v: i64| v as int);
    let kept = held(ranks, k, ranks.len());
    law_ranking_lists_distinct_places(ranks, k, scores, indices);
    assert forall|v: i64, j: int|
        0 <= v < ranks.len() && !indices.contains(v) && 0 <= j < scores.len() implies !(
    #[trigger] scores[j]).less(#[trigger] ranks[v as int]) by {
        assert(!kept.contains(v as int)) by {
            if kept.contains(v as int) {
                assert(places.to_multiset().count(v as int) > 0);
                assert(places.contains(v as int));
                let i = choose|i: int| 0 <= i < places.len() && places[i] == v as int;
                assert(indices[i] == v);
            }
        }
        assert(places[j] == indices[j]);
        assert(places.contains(places[j]));
        assert(kept.to_multiset().count(places[j]) > 0);
        let s = choose|s: int| 0 <= s < kept.len() && kept[s] == places[j];
        lemma_held_best(ranks, k, ranks.len(), v as int, s);
    }
    assert forall|i: int, j: int| 0 <= i <= j < scores.len() implies !(#[trigger] scores[i]).less(
        #[trigger] scores[j],
    ) by {
        assert(descent(scores[i]) <= descent(scores[j]));
    }
}

/// Lexicographic order of pairs.
spec fn ordered(a: (int, int), b: (int, int)) -> bool {
    a.0 < b.0 || (a.0 == b.0 && a.1 <= b.1)
}

/// Ascending sequences of pairs with the same elements are equal.
proof fn lemma_sorted_unique(a: Seq<(int, int)>, b: Seq<(int, int)>)
    requires
        a.to_multiset() == b.to_multiset(),
        forall|i: int, j: int| 0 <= i <= j < a.len() ==> ordered(#[trigger] a[i], #[trigger] a[j]),
        forall|i: int, j: int| 0 <= i <= j < b.len() ==> ordered(#[trigger] b[i], #[trigger] b[j]),
    ensures
        a == b,
    decreases a.len(),
{
    broadcast use vstd::seq_lib::group_to_multiset_ensures;

    assert(a.len() == a.to_multiset().len());
    assert(b.len() == b.to_multiset().len());
    if a.len() == 0 {
        assert(a =~= b);
    } else {
        let x = a.last();
        let y = b.last();
        assert(a.contains(x) && b.contains(y));
        assert(b.to_multiset().count(x) > 0 && a.to_multiset().count(y) > 0);
        assert(b.contains(x) && a.contains(y));
        assert(x == y);
        let a1 = a.drop_last();
        let b1 = b.drop_last();
        assert(a1.push(x) =~= a && b1.push(x) =~= b);
        assert(a.to_multiset() =~= a1.to_multiset().insert(x));
        assert(b.to_multiset() =~= b1.to_multiset().insert(x));
        assert(a1.to_multiset() =~= a.to_multiset().remove(x));
        assert(b1.to_multiset() =~= b.to_multiset().remove(x));
        lemma_sorted_unique(a1, b1);
    }
}

/// A ranking is settled by the ranks and `k`: two rankings of the same ranks
/// list the same places in the same order, with the same ranks.
pub proof fn law_rankings_are_settled(
    ranks: Seq<Binary32>,
    k: nat,
    scores: Seq<Binary32>,
    indices: Seq<i64>,
    other_scores: Seq<Binary32>,
    other_indices: Seq<i64>,
)
    requires
        is_ranking(ranks, k, scores, indices),
        is_ranking(ranks, k, other_scores, other_indices),
    ensures
        scores == other_scores,
        indices == other_indices,
{
    broadcast use vstd::seq_lib::group_to_multiset_ensures;

    let kept = held(ranks, k, ranks.len());
    let f = |v: int| (descent(ranks[v]), slot_of(ranks, k, v));
    let places = indices.map_values(|v: i64| v as int);
    let other_places = other_indices.map_values(|v: i64| v as int);
    lemma_mapped_multisets(places, other_places, f);
    let a = places.map_values(f);
    let b = other_places.map_values(f);
    assert(forall|j: int| 0 <= j < a.len() ==> (#[trigger] a[j]).0 == descent(scores[j]));
    assert(forall|j: int| 0 <= j < b.len() ==> (#[trigger] b[j]).0 == descent(other_scores[j]));
    lemma_sorted_unique(a, b);
    assert forall|j: int| 0 <= j < places.len() implies places[j] == other_places[j] by {
        assert(a[j] == b[j]);
        assert(places.contains(places[j]) && other_places.contains(other_places[j]));
        assert(kept.to_multiset().count(places[j]) > 0);
        assert(kept.to_multiset().count(other_places[j]) > 0);
        assert(kept.contains(places[j]) && kept.contains(other_places[j]));
        assert(kept[kept.index_of(places[j])] == places[j]);
    }
    assert(places.len() == a.len() && other_places.len() == b.len());
    assert forall|j: int| 0 <= j < indices.len() implies indices[j] == other_indices[j] by {
        assert(places[j] == other_places[j]);
    }
    assert(indices =~= other_indices);
}

/// Each query of a search gets the numbers of different vectors.  Unless a
/// rank is NaN they are the best: no vector left out has a greater rank than
/// one listed, and none listed later than one before.
pub proof fn law_search_lists_the_best(
    index: IndexView,
    queries: Seq<Binary32>,
    biases: Seq<Binary32>,
    k: nat,
    db: Seq<i8>,
    r: SearchResults,
    q: int,
)
    requires
        index.well_formed(),
        index.accepts(queries, biases, k),
        index.finds(queries, biases, k, db, &r),
        r.k > 0,
        0 <= q < r.nq,
    ensures
        ({
            let dim = index.dim->0 as int;
            let ranks = index.query_ranks(matrix_row(queries, dim, q), biases[q], db);
            let scores = matrix_row(r.scores@, r.k as int, q);
            let indices = matrix_row(r.indices@, r.k as int, q);
            &&& r.k == min(k as int, index.n_vectors as int)
            &&& scores.len() == r.k && indices.len() == r.k
            &&& indices.no_duplicates()
            &&& forall|j: int|
                0 <= j < r.k ==> 0 <= #[trigger] indices[j] < index.n_vectors && scores[j]
                    == ranks[indices[j] as int]
            &&& comparable(ranks) ==> forall|v: i64, j: int|
                0 <= v < index.n_vectors && !indices.contains(v) && 0 <= j < r.k ==> !(
                #[trigger] scores[j]).less(#[trigger] ranks[v as int])
            &&& comparable(ranks) ==> forall|i: int, j: int|
                0 <= i <= j < r.k ==> !(#[trigger] scores[i]).less(#[trigger] scores[j])
        }),
{
    let dim = index.dim->0 as int;
    let ranks = index.query_ranks(matrix_row(queries, dim, q), biases[q], db);
    let scores = matrix_row(r.scores@, r.k as int, q);
    let indices = matrix_row(r.indices@, r.k as int, q);
    assert(index.dim is Some);
    assert(is_ranking(ranks, r.k as nat, scores, indices));
    law_ranking_lists_distinct_places(ranks, r.k as nat, scores, indices);
    assert forall|j: int| 0 <= j < r.k implies 0 <= #[trigger] indices[j] < index.n_vectors
        && scores[j] == ranks[indices[j] as int] by {
        assert(scores[j] == ranks[indices[j] as int]);
    }
    if comparable(ranks) {
        law_ranking_lists_the_best(ranks, r.k as nat, scores, indices);
    }
}

/// What a query finds does not depend on the other queries of its batch: the
/// same query with the same bias gets the same ranks and the same vectors, in
/// the same order, in any batch.
pub proof fn law_search_treats_queries_alone(
    index: IndexView,
    k: nat,
    db: Seq<i8>,
    queries: Seq<Binary32>,
    biases: Seq<Binary32>,
    r: SearchResults,
    q: int,
    other_queries: Seq<Binary32>,
    other_biases: Seq<Binary32>,
    other_r: SearchResults,
    other_q: int,
)
    requires
        index.finds(queries, biases, k, db, &r),
        index.finds(other_queries, other_biases, k, db, &other_r),
        0 <= q < r.nq,
        0 <= other_q < other_r.nq,
        biases[q] == other_biases[other_q],
        matrix_row(queries, index.dim->0 as int, q) == matrix_row(
            other_queries,
            index.dim->0 as int,
            other_q,
        ),
    ensures
        r.k == other_r.k,
        r.k > 0 ==> {
            let k = r.k as int;
            &&& matrix_row(r.scores@, k, q) == matrix_row(other_r.scores@, k, other_q)
            &&& matrix_row(r.indices@, k, q) == matrix_row(other_r.indices@, k, other_q)
        },
{
    let dim = index.dim->0 as int;
    if r.k > 0 {
        let ranks = index.query_ranks(matrix_row(queries, dim, q), biases[q], db);
        let scores = matrix_row(r.scores@, r.k as int, q);
        let indices = matrix_row(r.indices@, r.k as int, q);
        let other_scores = matrix_row(other_r.scores@, r.k as int, other_q);
        let other_indices = matrix_row(other_r.indices@, r.k as int, other_q);
        assert(is_ranking(ranks, r.k as nat, scores, indices));
        assert(is_ranking(ranks, r.k as nat, other_scores, other_indices));
        law_rankings_are_settled(
            ranks,
            r.k as nat,
            scores,
            indices,
            other_scores,
            other_indices,
        );
    }
}

/// A query of a batch gets what a search for it alone finds: that search has
/// one query and as many vectors to list, and lists the ranks and the vectors
/// of the batch's row.
pub proof fn law_single_query_finds_its_row(
    index: IndexView,
    k: nat,
    db: Seq<i8>,
    queries: Seq<Binary32>,
    biases: Seq<Binary32>,
    r: SearchResults,
    q: int,
    single: SearchResults,
)
    requires
        index.accepts(queries, biases, k),
        index.finds(queries, biases, k, db, &r),
        0 <= q < r.nq,
        index.finds(
            matrix_row(queries, index.dim->0 as int, q),
            matrix_row(biases, 1, q),
            k,
            db,
            &single,
        ),
    ensures
        single.nq == 1,
        single.k == r.k,
        r.k == 0 ==> single.scores@.len() == 0 && single.indices@.len() == 0,
        r.k > 0 ==> single.scores@ == matrix_row(r.scores@, r.k as int, q),
        r.k > 0 ==> single.indices@ == matrix_row(r.indices@, r.k as int, q),
{
    let dim = index.dim->0 as int;
    let query = matrix_row(queries, dim, q);
    let bias = matrix_row(biases, 1, q);
    lemma_row_in_range(q, r.nq as int, dim);
    lemma_row_in_range(q, r.nq as int, 1);
    lemma_fundamental_div_mod_converse(dim, dim, 1, 0);
    assert(query.len() == dim && bias.len() == 1);
    assert(bias[0] == biases[q]);
    assert(matrix_row(query, dim, 0) =~= query);
    law_search_treats_queries_alone(index, k, db, queries, biases, r, q, query, bias, single, 0);
    if r.k > 0 {
        let width = r.k as int;
        assert(matrix_row(single.scores@, width, 0) =~= single.scores@);
        assert(matrix_row(single.indices@, width, 0) =~= single.indices@);
    }
}

/// The same search, made twice, finds the same.
pub proof fn law_searches_are_repeatable(
    index: IndexView,
    queries: Seq<Binary32>,
    biases: Seq<Binary32>,
    k: nat,
    db: Seq<i8>,
    r: SearchResults,
    again: SearchResults,
)
    requires
        index.finds(queries, biases, k, db, &r),
        index.finds(queries, biases, k, db, &again),
    ensures
        r.nq == again.nq,
        r.k == again.k,
        r.scores@ == again.scores@,
        r.indices@ == again.indices@,
{
    if index.dim is Some && r.k > 0 {
        let width = r.k as int;
        assert forall|q: int| 0 <= q < r.nq implies #[trigger] matrix_row(r.scores@, width, q)
            == matrix_row(again.scores@, width, q) by {
            law_search_treats_queries_alone(
                index,
                k,
                db,
                queries,
                biases,
                r,
                q,
                queries,
                biases,
                again,
                q,
            );
        }
        assert forall|q: int| 0 <= q < r.nq implies #[trigger] matrix_row(r.indices@, width, q)
            == matrix_row(again.indices@, width, q) by {
            law_search_treats_queries_alone(
                index,
                k,
                db,
                queries,
                biases,
                r,
                q,
                queries,
                biases,
                again,
                q,
            );
        }
        lemma_equal_rows(r.scores@, again.scores@, r.nq as int, width);
        lemma_equal_rows(r.indices@, again.indices@, r.nq as int, width);
    } else {
        assert(r.scores@ =~= again.scores@);
        assert(r.indices@ =~= again.indices@);
    }
}

/// A search that reconstructs the index finds what its two parts find: a
/// reconstruction, and a search against it.
pub proof fn law_search_is_its_parts(
    index: IndexView,
    queries: Seq<Binary32>,
    biases: Seq<Binary32>,
    k: nat,
    whole: SearchResults,
    db: Seq<i8>,
    parts: SearchResults,
)
    requires
        index.finds(queries, biases, k, index.reconstruction(), &whole),
        db == index.reconstruction(),
        index.finds(queries, biases, k, db, &parts),
    ensures
        whole.nq == parts.nq,
        whole.k == parts.k,
        whole.scores@ == parts.scores@,
        whole.indices@ == parts.indices@,
{
    law_searches_are_repeatable(index, queries, biases, k, db, whole, parts);
}

/// No place in a longer listing is better than the same place in another
/// listing of the same ranks.
proof fn lemma_no_better_place(
    ranks: Seq<Binary32>,
    k: nat,
    scores: Seq<Binary32>,
    indices: Seq<i64>,
    other_k: nat,
    other_scores: Seq<Binary32>,
    other_indices: Seq<i64>,
    j: int,
)
    requires
        is_ranking(ranks, k, scores, indices),
        is_ranking(ranks, other_k, other_scores, other_indices),
        comparable(ranks),
        0 <= j < scores.len(),
        j < other_scores.len(),
    ensures
        descent(other_scores[j]) <= descent(scores[j]),
{
    law_ranking_lists_distinct_places(ranks, k, scores, indices);
    law_ranking_lists_distinct_places(ranks, other_k, other_scores, other_indices);
    law_ranking_lists_the_best(ranks, other_k, other_scores, other_indices);
    if descent(scores[j]) < descent(other_scores[j]) {
        let better = indices.take(j + 1);
        let room = other_indices.take(j);
        assert forall|v: i64| #[trigger] better.to_set().contains(v) implies room.to_set().contains(
            v,
        ) by {
            let i = choose|i: int| 0 <= i < better.len() && better[i] == v;
            assert(indices[i] == v && scores[i] == ranks[v as int]);
            assert(descent(scores[i]) <= descent(scores[j]));
            assert(other_scores[j].less(ranks[v as int]));
            assert(other_indices.contains(v));
            let t = choose|t: int| 0 <= t < other_indices.len() && other_indices[t] == v;
            assert(other_scores[t] == ranks[v as int]);
            if t >= j {
                assert(descent(other_scores[j]) <= descent(other_scores[t]));
            }
            assert(room[t] == v);
        }
        better.unique_seq_to_set();
        room.unique_seq_to_set();
        assert(better.to_set().subset_of(room.to_set()));
        vstd::set_lib::lemma_len_subset(better.to_set(), room.to_set());
    }
}

/// What is listed for a lesser `k` is the start of what is listed for a
/// greater one: unless a rank is NaN, the ranks agree in each place, but for
/// the signs of zeros.  (Of places of equal rank, others may be listed.)
pub proof fn law_fewer_are_the_first(
    ranks: Seq<Binary32>,
    k: nat,
    scores: Seq<Binary32>,
    indices: Seq<i64>,
    more: nat,
    more_scores: Seq<Binary32>,
    more_indices: Seq<i64>,
)
    requires
        k <= more,
        is_ranking(ranks, k, scores, indices),
        is_ranking(ranks, more, more_scores, more_indices),
        comparable(ranks),
    ensures
        scores.len() <= more_scores.len(),
        forall|j: int|
            0 <= j < scores.len() ==> (#[trigger] scores[j]).order() == more_scores[j].order(),
        forall|j: int|
            0 <= j < scores.len() && !scores[j].zero() ==> #[trigger] scores[j] == more_scores[j],
{
    law_ranking_lists_distinct_places(ranks, k, scores, indices);
    law_ranking_lists_distinct_places(ranks, more, more_scores, more_indices);
    assert forall|j: int| 0 <= j < scores.len() implies (#[trigger] scores[j]).order()
        == more_scores[j].order() && (scores[j].zero() || scores[j] == more_scores[j]) by {
        lemma_no_better_place(ranks, k, scores, indices, more, more_scores, more_indices, j);
        lemma_no_better_place(ranks, more, more_scores, more_indices, k, scores, indices, j);
        assert(scores[j] == ranks[indices[j] as int]);
        assert(more_scores[j] == ranks[more_indices[j] as int]);
        assert(!scores[j].nan() && !more_scores[j].nan());
    }
}

/// A search for fewer vectors lists the start of what a search for more lists
/// for each query: unless a rank is NaN, the ranks agree in each place, but for
/// the signs of zeros.
pub proof fn law_search_for_fewer_lists_the_first(
    index: IndexView,
    queries: Seq<Binary32>,
    biases: Seq<Binary32>,
    db: Seq<i8>,
    k: nat,
    r: SearchResults,
    more: nat,
    more_r: SearchResults,
    q: int,
    j: int,
)
    requires
        k <= more,
        index.finds(queries, biases, k, db, &r),
        index.finds(queries, biases, more, db, &more_r),
        0 <= q < r.nq,
        0 <= j < r.k,
        comparable(
            index.query_ranks(matrix_row(queries, index.dim->0 as int, q), biases[q], db),
        ),
    ensures
        r.k <= more_r.k,
        ({
            let score = cell(r.scores@, r.k as int, q, j);
            let more_score = cell(more_r.scores@, more_r.k as int, q, j);
            &&& score.order() == more_score.order()
            &&& !score.zero() ==> score == more_score
        }),
{
    let ranks = index.query_ranks(matrix_row(queries, index.dim->0 as int, q), biases[q], db);
    let scores = matrix_row(r.scores@, r.k as int, q);
    let indices = matrix_row(r.indices@, r.k as int, q);
    let more_scores = matrix_row(more_r.scores@, more_r.k as int, q);
    let more_indices = matrix_row(more_r.indices@, more_r.k as int, q);
    assert(is_ranking(ranks, r.k as nat, scores, indices));
    assert(is_ranking(ranks, more_r.k as nat, more_scores, more_indices));
    law_fewer_are_the_first(
        ranks,
        r.k as nat,
        scores,
        indices,
        more_r.k as nat,
        more_scores,
        more_indices,
    );
    lemma_ranking_len(ranks, r.k as nat, scores, indices);
    lemma_cell_of_row(r.scores@, r.nq as int, r.k as int, q, j);
    lemma_cell_of_row(more_r.scores@, r.nq as int, more_r.k as int, q, j);
    assert(scores[j].order() == more_scores[j].order());
}

/// The factors by which a query and its scores are scaled carry no sign.
proof fn lemma_scales_carry_no_sign(query: Seq<Binary32>)
    ensures
        !gain(query).negative(),
        !inverse_gain(gain(query)).negative(),
{
    lemma_largest_carries_no_sign(query);
}

proof fn lemma_largest_carries_no_sign(query: Seq<Binary32>)
    ensures
        !largest_magnitude(query).negative(),
        !largest_magnitude(query).nan(),
    decreases query.len(),
{
    if query.len() > 0 {
        lemma_largest_carries_no_sign(query.drop_last());
    }
}

/// Within one query the scales are constants that leave the order alone: of
/// two vectors of equal weight, the one with the greater integer score does
/// not get the smaller rank.
pub proof fn law_ranks_follow_scores(
    query: Seq<Binary32>,
    bias: Binary32,
    weight: Binary32,
    score: i32,
    greater: i32,
)
    requires
        score <= greater,
        !weight.negative(),
    ensures
        ({
            let scale = inverse_gain(gain(query));
            !rank(greater as int, scale, bias, weight).less(rank(score as int, scale, bias, weight))
        }),
{
    let scale = inverse_gain(gain(query));
    lemma_scales_carry_no_sign(query);
    lemma_integer_monotone(score as int, greater as int);
    let a = integer(score as int);
    let b = integer(greater as int);
    lemma_product_monotone(a, b, scale);
    let pa = product(a, scale);
    let pb = product(b, scale);
    if !pa.nan() && !pb.nan() {
        lemma_sum_monotone(pa, pb, bias);
        let sa = sum(pa, bias);
        let sb = sum(pb, bias);
        if !sa.nan() && !sb.nan() {
            lemma_product_monotone(sa, sb, weight);
        }
    }
}

/// A bias of zero leaves a score as it is, but for the sign of zero.
pub proof fn law_zero_bias_changes_nothing(score: Binary32)
    ensures
        ({
            let biased = sum(score, Binary32 { bits: 0 });
            &&& biased.nan() == score.nan()
            &&& !score.nan() ==> biased.order() == score.order()
            &&& !score.nan() && !score.zero() ==> biased == score
        }),
{
    let zero = Binary32 { bits: 0 };
    lemma_magnitude_fields(zero);
    if score.finite() {
        lemma_magnitude_fields(score);
        lemma_nearest_exact(score);
    }
}

/// Every number becomes a byte between -127 and 127.
pub proof fn law_levels_are_symmetric(x: Binary32)
    ensures
        -MAX_LEVEL <= level(x) <= MAX_LEVEL,
        level(signed(!x.negative(), x.magnitude() as nat)) == -level(x),
{
    let y = signed(!x.negative(), x.magnitude() as nat);
    assert(y.magnitude() == x.magnitude() && y.negative() == !x.negative());
}

/// A number whose nearest integer is a level is no more than one half away
/// from the level that it becomes.
pub proof fn law_levels_are_nearest(x: Binary32)
    requires
        x.finite(),
        half_up(x.units()) <= MAX_LEVEL,
    ensures
        ({
            let one = pow2(UNIT_EXPONENT as nat);
            -one <= 2 * (level(x) * one - x.value()) <= one
        }),
{
    let one = pow2(UNIT_EXPONENT as nat) as int;
    let u = x.units() as int;
    let h = half_up(x.units()) as int;
    lemma_pow2_pos(UNIT_EXPONENT as nat);
    lemma_fundamental_div_mod(2 * u + one, 2 * one);
    let r = (2 * u + one) % (2 * one);
    assert(-one <= 2 * (h * one - u) <= one) by (nonlinear_arith)
        requires
            2 * u + one == (2 * one) * h + r,
            0 <= r < 2 * one,
    ;
    assert((-h) * one == -(h * one)) by (nonlinear_arith);
}

/// A query that is all but zero becomes zeros, and every vector scores zero.
pub proof fn law_negligible_queries_score_zero(query: Seq<Binary32>, db: Seq<i8>, n: nat, v: int)
    requires
        !(Binary32 { bits: NEGLIGIBLE }).less(largest_magnitude(query)),
        0 <= v < n,
    ensures
        forall|d: int| 0 <= d < query.len() ==> #[trigger] row_levels(query)[d] == 0,
        query_scores(query, db, n)[v] == 0,
{
    let zero = Binary32 { bits: 0 };
    lemma_pow2_pos(UNIT_EXPONENT as nat);
    lemma_magnitude_fields(zero);
    lemma_nearest_zero(pow2(UNIT_EXPONENT as nat));
    assert forall|d: int| 0 <= d < query.len() implies #[trigger] row_levels(query)[d] == 0 by {
        let x = query[d];
        let p = product(x, zero);
        assert(x.units() * zero.units() == 0) by (nonlinear_arith)
            requires
                zero.units() == 0,
        ;
        assert(p.nan() || p.zero());
        if p.zero() {
            lemma_magnitude_fields(p);
            let one = pow2(UNIT_EXPONENT as nat) as int;
            lemma_fundamental_div_mod_converse(one, 2 * one, 0, one);
        }
    }
    lemma_zeros_score_zero(row_levels(query), matrix_column(db, query.len(), n as int, v));
}

proof fn lemma_zeros_score_zero(a: Seq<i8>, b: Seq<i8>)
    requires
        forall|d: int| 0 <= d < a.len() ==> #[trigger] a[d] == 0,
    ensures
        inner_product(a, b) == 0,
    decreases a.len(),
{
    if a.len() > 0 {
        lemma_zeros_score_zero(a.drop_last(), b.drop_last());
        assert(a.last() * b.last() == 0) by (nonlinear_arith)
            requires
                a.last() == 0,
        ;
    }
}

/// Where 32 bits have room for the sum of as many products of a level and a
/// byte as there are coordinates (each at most 127 * 128, which is 16256), the
/// scores are the inner products themselves.
pub proof fn law_scores_are_inner_products(query: Seq<Binary32>, db: Seq<i8>, n: nat, v: int)
    requires
        query.len() * 16256 <= i32::MAX,
        0 <= v < n,
    ensures
        query_scores(query, db, n)[v] == inner_product(
            row_levels(query),
            matrix_column(db, query.len(), n as int, v),
        ),
{
    let a = row_levels(query);
    let b = matrix_column(db, query.len(), n as int, v);
    assert forall|d: int| 0 <= d < a.len() implies -127 <= #[trigger] a[d] <= 127 by {
        law_levels_are_symmetric(product(query[d], gain(query)));
    }
    lemma_inner_product_bound(a, b);
    let x = inner_product(a, b);
    lemma_fundamental_div_mod_converse(
        x,
        0x1_0000_0000,
        if x < 0 {
            -1
        } else {
            0
        },
        if x < 0 {
            x + 0x1_0000_0000
        } else {
            x
        },
    );
}

proof fn lemma_inner_product_bound(a: Seq<i8>, b: Seq<i8>)
    requires
        forall|d: int| 0 <= d < a.len() ==> -127 <= #[trigger] a[d] <= 127,
    ensures
        -(a.len() * 16256) <= inner_product(a, b) <= a.len() * 16256,
    decreases a.len(),
{
    if a.len() > 0 {
        lemma_inner_product_bound(a.drop_last(), b.drop_last());
        let x = a.last() as int;
        let y = b.last() as int;
        assert(-127 <= a[a.len() - 1] <= 127);
        assert(-16256 <= x * y <= 16256) by (nonlinear_arith)
            requires
                -127 <= x <= 127,
                -128 <= y <= 127,
        ;
    }
}

/// A code spells the bits that its planes hold: the planes of any codes give
/// those codes back.
pub proof fn law_codes_are_read_back(index: IndexView, v: int, d: int, code: nat)
    requires
        code < pow2(index.bit_width),
        forall|p: nat|
            p < index.bit_width ==> #[trigger] index.code_bit(v, d, p as int) == ((code / pow2(p))
                % 2 == 1),
    ensures
        index.code(v, d) == code,
{
    lemma_low_code(index, v, d, code, index.bit_width);
    lemma_small_mod(code, pow2(index.bit_width));
}

proof fn lemma_low_code(index: IndexView, v: int, d: int, code: nat, bits: nat)
    requires
        bits <= index.bit_width,
        forall|p: nat|
            p < index.bit_width ==> #[trigger] index.code_bit(v, d, p as int) == ((code / pow2(p))
                % 2 == 1),
    ensures
        index.low_code(v, d, bits) == code % pow2(bits),
    decreases bits,
{
    lemma2_to64();
    if bits > 0 {
        let p = (bits - 1) as nat;
        lemma_low_code(index, v, d, code, p);
        lemma_pow2_unfold(bits);
        lemma_pow2_pos(p);
        lemma_mod_breakdown(code as int, pow2(p) as int, 2);
        lemma_mul_is_commutative(pow2(p) as int, 2);
        assert(index.code_bit(v, d, p as int) == ((code / pow2(p)) % 2 == 1));
        assert(pow2(p) * 1 == pow2(p) && pow2(p) * 0 == 0);
    }
}

/// The reconstruction holds, at row `d` and column `v`, the level of the
/// centroid of vector `v` at coordinate `d`, and no byte below -127.
pub proof fn law_reconstruction_is_transposed(index: IndexView, d: int, v: int)
    requires
        index.dim is Some,
        0 <= d < index.dim->0,
        0 <= v < index.n_vectors,
    ensures
        index.reconstruction().len() == index.dim->0 * index.n_vectors,
        cell(index.reconstruction(), index.n_vectors as int, d, v) == index.level_at(v, d),
        -MAX_LEVEL <= index.level_at(v, d) <= MAX_LEVEL,
{
    let n = index.n_vectors as int;
    lemma_cell_in_range(d, v, index.dim->0 as int, n);
    lemma_fundamental_div_mod_converse(d * n + v, n, d, v);
    law_levels_are_symmetric(
        product(
            index.centroids[index.code(v, d) as int],
            Binary32 { bits: LEVEL_SCALE },
        ),
    );
}

} // verus!
