//! Selection of the best `k` of a row of scores.
use crate::binary32::{integer, product, sum, Binary32};
use crate::scoring::law_row_ranking_lists_the_best;
use vstd::prelude::*;

verus! {

/// Whether `xs[i]` is the first of the least numbers of `xs`.  NaN counts only
/// at the front, where it stands for the least.
pub open spec fn first_least(xs: Seq<Binary32>, i: int) -> bool {
    &&& 0 <= i < xs.len()
    &&& if xs[0].nan() {
        i == 0
    } else {
        &&& !xs[i].nan()
        &&& forall|j: int| 0 <= j < xs.len() ==> !(#[trigger] xs[j]).less(xs[i])
        &&& forall|j: int| 0 <= j < i ==> (#[trigger] xs[j]).nan() || xs[i].less(xs[j])
    }
}

/// The place of the first of the least numbers of `xs`.
pub open spec fn weakest(xs: Seq<Binary32>) -> int {
    choose|i: int| first_least(xs, i)
}

/// The ranks that stand at the given places.
pub open spec fn ranks_at(ranks: Seq<Binary32>, places: Seq<int>) -> Seq<Binary32> {
    places.map_values(|v: int| ranks[v])
}

/// The places held in `k` slots after the first `m` ranks.  The first `k` fill
/// the slots in order; a later one that is greater than the least rank held
/// takes its slot, the first one where several are least.
pub open spec fn held(ranks: Seq<Binary32>, k: nat, m: nat) -> Seq<int>
    decreases m,
{
    if k == 0 {
        Seq::empty()
    } else if m <= k {
        Seq::new(m, |i: int| i)
    } else {
        let before = held(ranks, k, (m - 1) as nat);
        let w = weakest(ranks_at(ranks, before));
        if ranks[before[w]].less(ranks[m - 1]) {
            before.update(w, m - 1)
        } else {
            before
        }
    }
}

/// Where a score stands in a list from the greatest down, NaN at the end.
pub open spec fn descent(x: Binary32) -> int {
    if x.nan() {
        0x8000_0000
    } else {
        -x.order()
    }
}

/// The slot that holds a place after all of `ranks`.
pub open spec fn slot_of(ranks: Seq<Binary32>, k: nat, place: int) -> int {
    held(ranks, k, ranks.len()).index_of(place)
}

/// Whether `scores` and `indices` list, from the greatest rank down, the
/// places that the slots hold after all of `ranks`, with the ranks there.
/// Places of equal rank come in the order of their slots.
pub open spec fn is_ranking(
    ranks: Seq<Binary32>,
    k: nat,
    scores: Seq<Binary32>,
    indices: Seq<i64>,
) -> bool {
    let places = indices.map_values(|v: i64| v as int);
    &&& places.to_multiset() == held(ranks, k, ranks.len()).to_multiset()
    &&& scores == ranks_at(ranks, places)
    &&& forall|i: int, j: int|
        0 <= i <= j < scores.len() ==> descent(#[trigger] scores[i]) < descent(
            #[trigger] scores[j],
        ) || (descent(scores[i]) == descent(scores[j]) && slot_of(ranks, k, places[i]) <= slot_of(
            ranks,
            k,
            places[j],
        ))
}

/// The rank of a vector from its integer score: the score on the scale of the
/// coordinates, corrected by the query's bias, times the vector's weight.
pub open spec fn rank(score: int, scale: Binary32, bias: Binary32, weight: Binary32) -> Binary32 {
    product(sum(product(integer(score), scale), bias), weight)
}

/// The ranks of a row of scores.
pub open spec fn row_ranks(
    row: Seq<i32>,
    weights: Seq<Binary32>,
    scale: Binary32,
    bias: Binary32,
) -> Seq<Binary32> {
    Seq::new(row.len(), |v: int| rank(row[v] as int, scale, bias, weights[v]))
}

/// No sequence has two first least places.
pub proof fn lemma_first_least_unique(xs: Seq<Binary32>, i: int, j: int)
    requires
        first_least(xs, i),
        first_least(xs, j),
    ensures
        i == j,
{
    if i < j {
        assert(xs[i].nan() || xs[j].less(xs[i]));
    } else if j < i {
        assert(xs[j].nan() || xs[i].less(xs[j]));
    }
}

/// Every sequence but the empty one has a first least place.
pub proof fn lemma_weakest_exists(xs: Seq<Binary32>)
    requires
        xs.len() > 0,
    ensures
        first_least(xs, weakest(xs)),
    decreases xs.len(),
{
    if xs.len() == 1 || xs[0].nan() {
        assert(first_least(xs, 0));
    } else {
        let rest = xs.drop_last();
        lemma_weakest_exists(rest);
        let w = weakest(rest);
        assert(forall|j: int| 0 <= j < rest.len() ==> rest[j] == xs[j]);
        if xs.last().less(xs[w]) {
            assert(first_least(xs, xs.len() - 1));
        } else {
            assert(first_least(xs, w));
        }
    }
}

/// As many places are held as there are, up to `k`.
pub proof fn lemma_held_len(ranks: Seq<Binary32>, k: nat, m: nat)
    ensures
        held(ranks, k, m).len() == (if m < k {
            m
        } else {
            k
        }),
    decreases m,
{
    if 0 < k < m {
        let before = held(ranks, k, (m - 1) as nat);
        lemma_held_len(ranks, k, (m - 1) as nat);
        lemma_weakest_exists(ranks_at(ranks, before));
    }
}

/// The slots hold different places, all of ranks seen.
pub proof fn lemma_held_places(ranks: Seq<Binary32>, k: nat, m: nat)
    ensures
        held(ranks, k, m).no_duplicates(),
        forall|s: int|
            0 <= s < held(ranks, k, m).len() ==> 0 <= #[trigger] held(ranks, k, m)[s] < m,
    decreases m,
{
    if 0 < k < m {
        let before = held(ranks, k, (m - 1) as nat);
        lemma_held_places(ranks, k, (m - 1) as nat);
        lemma_held_len(ranks, k, (m - 1) as nat);
        lemma_weakest_exists(ranks_at(ranks, before));
    }
}

/// A ranking lists the best `k`, or all where there are fewer.
pub proof fn lemma_ranking_len(
    ranks: Seq<Binary32>,
    k: nat,
    scores: Seq<Binary32>,
    indices: Seq<i64>,
)
    requires
        is_ranking(ranks, k, scores, indices),
    ensures
        scores.len() == indices.len(),
        indices.len() == (if ranks.len() < k {
            ranks.len()
        } else {
            k
        }),
{
    broadcast use vstd::seq_lib::group_to_multiset_ensures;

    let places = indices.map_values(|v: i64| v as int);
    let kept = held(ranks, k, ranks.len());
    lemma_held_len(ranks, k, ranks.len());
    assert(places.len() == places.to_multiset().len());
    assert(kept.len() == kept.to_multiset().len());
}

/// The place and value of the least of `xs`: the first of equals, and NaN only
/// where it stands at the front.
pub fn argmin_f32(xs: &[Binary32]) -> (r: (usize, Binary32))
    requires
        xs@.len() > 0,
    ensures
        first_least(xs@, r.0 as int),
        r.0 == weakest(xs@),
        r.1 == xs@[r.0 as int],
{
    let mut least: usize = 0;
    let mut value: Binary32 = xs[0];
    let mut i: usize = 1;
    while i < xs.len()
        invariant
            1 <= i <= xs@.len(),
            value == xs@[least as int],
            first_least(xs@.take(i as int), least as int),
        decreases xs.len() - i,
    {
        let ghost seen = xs@.take(i as int);
        let ghost now = xs@.take(i + 1);
        proof {
            assert(forall|j: int| 0 <= j < i ==> now[j] == seen[j]);
            assert(now[i as int] == xs@[i as int]);
        }
        if xs[i].is_less(value) {
            value = xs[i];
            least = i;
        }
        i += 1;
    }
    proof {
        assert(xs@.take(i as int) =~= xs@);
        lemma_first_least_unique(xs@, least as int, weakest(xs@));
    }
    (least, value)
}

/// Lexicographic order of pairs.
spec fn precedes(a: (i64, usize), b: (i64, usize)) -> bool {
    a.0 < b.0 || (a.0 == b.0 && a.1 <= b.1)
}

/// Sorts pairs of integers in ascending order, by the first component and then
/// by the second.
///
/// This is `sort_unstable` of slices, on tuples, whose order is lexicographic:
/// afterwards the vector holds the same pairs, none before a smaller one.
#[verifier::external_body]
fn sort_pairs(pairs: &mut Vec<(i64, usize)>)
    ensures
        final(pairs)@.to_multiset() == old(pairs)@.to_multiset(),
        forall|i: int, j: int|
            0 <= i <= j < final(pairs)@.len() ==> precedes(
                #[trigger] final(pairs)@[i],
                #[trigger] final(pairs)@[j],
            ),
{
    pairs.sort_unstable();
}

/// Sequences with the same elements still have the same elements after a
/// function is applied to each.
pub proof fn lemma_mapped_multisets<A, B>(a: Seq<A>, b: Seq<A>, f: spec_fn(A) -> B)
    requires
        a.to_multiset() == b.to_multiset(),
    ensures
        a.map_values(f).to_multiset() == b.map_values(f).to_multiset(),
    decreases a.len(),
{
    broadcast use vstd::seq_lib::group_to_multiset_ensures;

    assert(a.len() == a.to_multiset().len());
    assert(b.len() == b.to_multiset().len());
    if a.len() == 0 {
        assert(a.map_values(f) =~= b.map_values(f));
    } else {
        let x = a.last();
        assert(a.contains(x));
        assert(b.to_multiset().count(x) > 0);
        let i = choose|i: int| 0 <= i < b.len() && b[i] == x;
        let a1 = a.drop_last();
        let b1 = b.remove(i);
        assert(a1.push(x) =~= a);
        assert(a.to_multiset() =~= a1.to_multiset().insert(x));
        assert(b1.to_multiset() =~= b.to_multiset().remove(x));
        assert(a1.to_multiset() =~= b1.to_multiset());
        lemma_mapped_multisets(a1, b1, f);
        assert(a.map_values(f) =~= a1.map_values(f).push(f(x)));
        assert(b1.map_values(f) =~= b.map_values(f).remove(i));
        assert(b.map_values(f)[i] == f(x));
        assert(b.map_values(f).to_multiset() =~= b1.map_values(f).to_multiset().insert(f(x)));
    }
}

/// The rank of a vector from its integer score.
pub fn rank_of(score: i32, scale: Binary32, bias: Binary32, weight: Binary32) -> (r: Binary32)
    ensures
        r == rank(score as int, scale, bias, weight),
        r == product(sum(product(integer(score as int), scale), bias), weight),
{
    Binary32::from_i32(score).times(scale).plus(bias).times(weight)
}

/// The best `k` of one row of scores, or all where there are fewer: their
/// ranks and their places, from the greatest rank down.  Nothing for a `k` of
/// zero.
pub fn top_k_from_row(
    row: &[i32],
    vec_scales: &[Binary32],
    inv_k: Binary32,
    bias: Binary32,
    k: usize,
) -> (r: (Vec<Binary32>, Vec<i64>))
    requires
        row@.len() <= vec_scales@.len(),
        row@.len() <= i64::MAX,
    ensures
        k == 0 ==> r.0@.len() == 0 && r.1@.len() == 0,
        is_ranking(row_ranks(row@, vec_scales@, inv_k, bias), k as nat, r.0@, r.1@),
        r.0@.len() == r.1@.len(),
        r.1@.len() == if k < row@.len() {
            k as nat
        } else {
            row@.len()
        },
        forall|j: int|
            0 <= j < r.1@.len() ==> 0 <= #[trigger] r.1@[j] < row@.len() && r.0@[j] == product(
                sum(product(integer(row@[r.1@[j] as int] as int), inv_k), bias),
                vec_scales@[r.1@[j] as int],
            ),
{
    let ghost ranks = row_ranks(row@, vec_scales@, inv_k, bias);
    if k == 0 {
        let nothing: (Vec<Binary32>, Vec<i64>) = (Vec::new(), Vec::new());
        proof {
            let places = nothing.1@.map_values(|v: i64| v as int);
            assert(places =~= held(ranks, 0, ranks.len()));
            assert(nothing.0@ =~= ranks_at(ranks, places));
        }
        return nothing;
    }
    let mut slot_ranks: Vec<Binary32> = Vec::new();
    let mut slot_places: Vec<usize> = Vec::new();
    let mut least: usize = 0;
    let mut least_rank: Binary32 = Binary32 { bits: 0 };
    let mut v: usize = 0;
    while v < row.len()
        invariant
            k > 0,
            v <= row@.len(),
            row@.len() <= vec_scales@.len(),
            ranks == row_ranks(row@, vec_scales@, inv_k, bias),
            held(ranks, k as nat, v as nat).len() == slot_places@.len(),
            forall|s: int|
                0 <= s < slot_places@.len() ==> #[trigger] slot_places@[s] == held(
                    ranks,
                    k as nat,
                    v as nat,
                )[s],
            slot_ranks@ =~= ranks_at(ranks, held(ranks, k as nat, v as nat)),
            slot_places@.len() == slot_ranks@.len(),
            slot_places@.len() == (if v < k {
                v
            } else {
                k
            }),
            forall|s: int| 0 <= s < slot_places@.len() ==> #[trigger] slot_places@[s] < v,
            slot_ranks@.len() == k ==> least == weakest(slot_ranks@),
            slot_ranks@.len() == k ==> least < k && least_rank == slot_ranks@[least as int],
        decreases row.len() - v,
    {
        let r: Binary32 = rank_of(row[v], inv_k, bias, vec_scales[v]);
        let ghost before = held(ranks, k as nat, v as nat);
        let ghost after = held(ranks, k as nat, (v + 1) as nat);
        assert(r == ranks[v as int]);
        if slot_ranks.len() < k {
            slot_ranks.push(r);
            slot_places.push(v);
            if slot_ranks.len() == k {
                let found: (usize, Binary32) = argmin_f32(slot_ranks.as_slice());
                least = found.0;
                least_rank = found.1;
            }
        } else if least_rank.is_less(r) {
            slot_ranks[least] = r;
            slot_places[least] = v;
            assert(after == before.update(least as int, v as int));
            let found: (usize, Binary32) = argmin_f32(slot_ranks.as_slice());
            least = found.0;
            least_rank = found.1;
        }
        v += 1;
    }
    let ghost kept = held(ranks, k as nat, ranks.len());
    let count: usize = slot_ranks.len();
    let mut pairs: Vec<(i64, usize)> = Vec::new();
    let mut s: usize = 0;
    while s < count
        invariant
            s <= count,
            count == slot_ranks@.len(),
            pairs@ =~= Seq::new(s as nat, |t: int| (descent(slot_ranks@[t]) as i64, t as usize)),
        decreases count - s,
    {
        pairs.push((descent_key(slot_ranks[s]), s));
        s += 1;
    }
    let ghost unsorted = pairs@;
    sort_pairs(&mut pairs);
    proof {
        broadcast use vstd::seq_lib::group_to_multiset_ensures;

        assert(pairs@.len() == pairs@.to_multiset().len());
        assert(unsorted.len() == unsorted.to_multiset().len());
        assert forall|t: int| 0 <= t < pairs@.len() implies (#[trigger] pairs@[t]).1 < count
            && pairs@[t].0 == descent(slot_ranks@[pairs@[t].1 as int]) by {
            assert(pairs@.contains(pairs@[t]));
            assert(unsorted.to_multiset().count(pairs@[t]) > 0);
            assert(unsorted.contains(pairs@[t]));
        }
    }
    let mut scores: Vec<Binary32> = Vec::new();
    let mut indices: Vec<i64> = Vec::new();
    let mut t: usize = 0;
    while t < count
        invariant
            t <= count,
            count == pairs@.len(),
            count == slot_ranks@.len(),
            count == slot_places@.len(),
            row@.len() <= i64::MAX,
            ranks.len() == row@.len(),
            count == kept.len(),
            forall|s: int|
                0 <= s < slot_places@.len() ==> #[trigger] slot_places@[s] == kept[s],
            slot_ranks@ =~= ranks_at(ranks, kept),
            forall|s: int| 0 <= s < slot_places@.len() ==> #[trigger] slot_places@[s] < row@.len(),
            forall|u: int| 0 <= u < pairs@.len() ==> (#[trigger] pairs@[u]).1 < count,
            indices@.len() == t,
            forall|u: int|
                0 <= u < t ==> #[trigger] indices@[u] == kept[pairs@[u].1 as int],
            scores@.len() == t,
            forall|u: int| 0 <= u < t ==> #[trigger] scores@[u] == slot_ranks@[pairs@[u].1 as int],
            forall|u: int| 0 <= u < t ==> #[trigger] scores@[u] == ranks[indices@[u] as int],
        decreases count - t,
    {
        let slot: usize = pairs[t].1;
        assert(slot_places@[slot as int] == kept[slot as int]);
        assert(slot_places@[slot as int] < row@.len());
        scores.push(slot_ranks[slot]);
        indices.push(slot_places[slot] as i64);
        t += 1;
    }
    proof {
        let place = |p: (i64, usize)| kept[p.1 as int];
        let places = indices@.map_values(|v: i64| v as int);
        assert(places =~= pairs@.map_values(place));
        lemma_mapped_multisets(pairs@, unsorted, place);
        assert(unsorted.map_values(place) =~= kept);
        assert(scores@ =~= ranks_at(ranks, places));
        lemma_held_places(ranks, k as nat, ranks.len());
        assert forall|u: int| 0 <= u < pairs@.len() implies slot_of(
            ranks,
            k as nat,
            #[trigger] places[u],
        ) == pairs@[u].1 by {
            assert(kept[pairs@[u].1 as int] == places[u]);
            assert(kept.contains(places[u]));
        }
        assert forall|i: int, j: int| 0 <= i <= j < scores@.len() implies descent(
            #[trigger] scores@[i],
        ) < descent(#[trigger] scores@[j]) || (descent(scores@[i]) == descent(scores@[j])
            && slot_of(ranks, k as nat, places[i]) <= slot_of(ranks, k as nat, places[j])) by {
            assert(precedes(pairs@[i], pairs@[j]));
        }
        law_row_ranking_lists_the_best(
            row@,
            vec_scales@,
            inv_k,
            bias,
            k as nat,
            scores@,
            indices@,
        );
    }
    (scores, indices)
}

/// Where a score stands in a list from the greatest down.
fn descent_key(x: Binary32) -> (key: i64)
    ensures
        key == descent(x),
{
    if x.is_nan() {
        0x8000_0000
    } else {
        -x.order_key()
    }
}

} // verus!
