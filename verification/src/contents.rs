//! What an index holds, in terms of its bytes, and what a search in it lists.
use crate::binary32::{integer, product, sum, Binary32};
use crate::index::{plane_bit, query_scores, IndexView, SearchResults};
use crate::laws::{law_codes_are_read_back, law_reconstruction_is_transposed};
use crate::matrix::{lemma_cell_of_row, lemma_row_in_range, matrix_row};
use crate::quantize::{centroid_level, gain, inverse_gain};
use crate::scoring::law_row_ranking_lists_the_best;
use crate::topk::is_ranking;
use vstd::arithmetic::div_mod::{
    lemma_fundamental_div_mod, lemma_fundamental_div_mod_converse,
};
use vstd::arithmetic::power2::{lemma2_to64, lemma_pow2_adds, lemma_pow2_pos, pow2};
use vstd::bits::lemma_u8_shr_is_div;
use vstd::prelude::*;

verus! {

/// The parts of an index fit together where its codes have eight bits at most and,
/// once the number of coordinates is settled, eight of them make a byte, every
/// vector has all its planes and a weight, and there is a centroid for every code.
pub proof fn law_parts_fit_together(index: IndexView)
    ensures
        index.dim is None ==> (index.well_formed() <==> index.bit_width <= 8),
        index.dim is Some ==> (index.well_formed() <==> {
            &&& index.bit_width <= 8
            &&& index.dim->0 % 8 == 0
            &&& index.packed_codes.len() == index.n_vectors * (index.bit_width * (index.dim->0 / 8))
            &&& index.scales.len() == index.n_vectors
            &&& index.n_vectors == 0 || index.centroids.len() >= pow2(index.bit_width)
        }),
{
}

/// The bit of a byte that a mask of one bit picks out.
proof fn lemma_masked_bit(byte: u8, s: u8)
    requires
        s < 8,
    ensures
        byte & (1u8 << s) != 0 <==> (byte as nat / pow2(s as nat)) % 2 == 1,
{
    lemma_u8_shr_is_div(byte, s);
    assert((byte & (1u8 << s) != 0) == ((byte >> s) % 2 == 1)) by (bit_vector)
        requires
            s < 8,
    ;
}

/// Coordinate `d` is the bit of its byte that has `7 - d % 8` below it.
pub proof fn law_coordinates_start_at_the_top_bit(byte: u8, d: int)
    requires
        d >= 0,
    ensures
        plane_bit(byte, d) <==> (byte as nat / pow2((7 - d % 8) as nat)) % 2 == 1,
{
    let s = (7 - d % 8) as u8;
    lemma_masked_bit(byte, s);
    assert(1u8 << (7 - d % 8) == 1u8 << s);
}

/// Bits below the highest are those of the number without it.
proof fn lemma_low_bits(low: nat, p: nat, bits: nat)
    requires
        p < bits,
    ensures
        ((low + pow2(bits)) / pow2(p)) % 2 == (low / pow2(p)) % 2,
{
    let w = pow2(p) as int;
    let h = pow2((bits - p - 1) as nat) as int;
    lemma2_to64();
    lemma_pow2_pos(p);
    lemma_pow2_adds(p, (bits - p) as nat);
    lemma_pow2_adds(1, (bits - p - 1) as nat);
    let q = low as int / w;
    let r = low as int % w;
    lemma_fundamental_div_mod(low as int, w);
    assert(low + pow2(bits) == (q + 2 * h) * w + r) by (nonlinear_arith)
        requires
            low == w * q + r,
            pow2(bits) == w * (2 * h),
    ;
    lemma_fundamental_div_mod_converse((low + pow2(bits)) as int, w, q + 2 * h, r);
}

proof fn lemma_low_code_bits(index: IndexView, v: int, d: int, bits: nat, p: nat)
    requires
        p < bits,
    ensures
        index.low_code(v, d, bits) < pow2(bits),
        (index.low_code(v, d, bits) / pow2(p)) % 2 == 1 <==> index.code_bit(v, d, p as int),
    decreases bits,
{
    lemma2_to64();
    let b = (bits - 1) as nat;
    let low = index.low_code(v, d, b);
    lemma_pow2_pos(b);
    lemma_pow2_adds(1, b);
    if p < b {
        lemma_low_code_bits(index, v, d, b, p);
        lemma_low_bits(low, p, b);
    } else {
        if b > 0 {
            lemma_low_code_bits(index, v, d, b, 0);
        }
        assert(low < pow2(b));
        let w = pow2(b) as int;
        if index.code_bit(v, d, b as int) {
            lemma_fundamental_div_mod_converse((low + pow2(b)) as int, w, 1, low as int);
        } else {
            lemma_fundamental_div_mod_converse(low as int, w, 0, low as int);
        }
    }
}

/// A code spells the bits that its planes hold: bit `p` of the code of vector `v`
/// at coordinate `d` is bit `7 - d % 8` of the byte that comes after those of the
/// vectors before, those of the lower bits, and those of the coordinates before.
pub proof fn law_codes_spell_the_packed_bits(index: IndexView, v: int, d: int, p: nat)
    requires
        index.dim is Some,
        0 <= d < index.dim->0,
        p < index.bit_width,
    ensures
        index.code(v, d) < pow2(index.bit_width),
        (index.code(v, d) / pow2(p)) % 2 == (index.packed_codes[v * (index.bit_width * (
        index.dim->0 / 8)) + p * (index.dim->0 / 8) + d / 8] as nat / pow2((7 - d % 8) as nat)) % 2,
{
    let plane = index.dim->0 as int / 8;
    let byte = index.packed_codes[v * (index.bit_width * plane) + p * plane + d / 8];
    law_coordinates_start_at_the_top_bit(byte, d);
    lemma_low_code_bits(index, v, d, index.bit_width, p);
    lemma_pow2_pos(p);
    lemma_pow2_pos((7 - d % 8) as nat);
}

/// Reading inverts packing: where the planes of a vector hold, at its byte and bit,
/// the bits of a code, that code is read.
pub proof fn law_packed_codes_are_read_back(index: IndexView, v: int, d: int, code: nat)
    requires
        index.dim is Some,
        0 <= d < index.dim->0,
        code < pow2(index.bit_width),
        forall|p: nat|
            p < index.bit_width ==> (index.packed_codes[v * (index.bit_width * (index.dim->0 / 8))
                + p * (index.dim->0 / 8) + d / 8] as nat / pow2((7 - d % 8) as nat)) % 2 == (code
                / #[trigger] pow2(p)) % 2,
    ensures
        index.code(v, d) == code,
{
    let plane = index.dim->0 as int / 8;
    assert forall|p: nat| p < index.bit_width implies #[trigger] index.code_bit(v, d, p as int) == (
    (code / pow2(p)) % 2 == 1) by {
        let byte = index.packed_codes[v * (index.bit_width * plane) + p * plane + d / 8];
        law_coordinates_start_at_the_top_bit(byte, d);
        lemma_pow2_pos(p);
        assert((code / pow2(p)) % 2 == (byte as nat / pow2((7 - d % 8) as nat)) % 2);
    }
    law_codes_are_read_back(index, v, d, code);
}

/// The reconstruction of packed codes: entry `d * n + v` is the level of the
/// centroid of the code that the planes of vector `v` hold at coordinate `d`.
pub proof fn law_packed_codes_are_reconstructed(index: IndexView, v: int, d: int, code: nat)
    requires
        index.dim is Some,
        0 <= v < index.n_vectors,
        0 <= d < index.dim->0,
        code < pow2(index.bit_width),
        forall|p: nat|
            p < index.bit_width ==> (index.packed_codes[v * (index.bit_width * (index.dim->0 / 8))
                + p * (index.dim->0 / 8) + d / 8] as nat / pow2((7 - d % 8) as nat)) % 2 == (code
                / #[trigger] pow2(p)) % 2,
    ensures
        index.reconstruction().len() == index.dim->0 * index.n_vectors,
        index.reconstruction()[d * index.n_vectors + v] == centroid_level(
            index.centroids[code as int],
        ),
{
    law_packed_codes_are_read_back(index, v, d, code);
    law_reconstruction_is_transposed(index, d, v);
}

/// An index without vectors, or without a settled number of coordinates, is
/// reconstructed as nothing.
pub proof fn law_nothing_is_reconstructed_as_nothing(index: IndexView)
    requires
        index.dim is None || index.n_vectors == 0,
    ensures
        index.reconstruction().len() == 0,
{
}

/// A search may be asked for whole queries with a bias for each, and the matrices
/// at work have to fit into memory only where there is anything to find.
pub proof fn law_whole_queries_are_accepted(
    index: IndexView,
    queries: Seq<Binary32>,
    biases: Seq<Binary32>,
    k: nat,
    db: Seq<i8>,
)
    ensures
        index.dim is None ==> index.accepts(queries, biases, k) && index.fits(db),
        index.dim is Some ==> (index.fits(db) <==> db.len() == index.dim->0 * index.n_vectors),
        index.dim is Some && index.dim->0 > 0 && queries.len() == biases.len() * index.dim->0 && (
        biases.len() == 0 || k == 0 || index.n_vectors == 0 || (4 * (biases.len() * index.dim->0)
            <= isize::MAX && 4 * (biases.len() * index.n_vectors) <= isize::MAX && index.dim->0
            * index.n_vectors <= isize::MAX)) ==> index.accepts(queries, biases, k),
{
    if index.dim is Some && index.dim->0 > 0 && queries.len() == biases.len() * index.dim->0 {
        lemma_fundamental_div_mod_converse(
            queries.len() as int,
            index.dim->0 as int,
            biases.len() as int,
            0,
        );
    }
}

/// A search in an index of `n` vectors lists, for each query, `k` of them, or all
/// where there are fewer.  It lists nothing only where there is nothing to list.
pub proof fn law_search_lists_k_for_each_query(
    index: IndexView,
    queries: Seq<Binary32>,
    biases: Seq<Binary32>,
    k: nat,
    db: Seq<i8>,
    r: SearchResults,
)
    requires
        index.finds(queries, biases, k, db, &r),
        index.dim is Some ==> index.dim->0 > 0,
    ensures
        index.dim is None ==> r.nq == 0 && r.k == 0,
        index.dim is Some ==> r.nq == queries.len() / index.dim->0,
        r.nq > 0 && k <= index.n_vectors ==> r.k == k,
        r.nq > 0 && k > index.n_vectors ==> r.k == index.n_vectors,
        r.nq == 0 ==> r.k == 0,
        r.scores@.len() == r.nq * r.k,
        r.indices@.len() == r.nq * r.k,
{
    if r.k == 0 {
        assert(r.nq * r.k == 0) by (nonlinear_arith)
            requires
                r.k == 0,
        ;
    }
}

/// What a search lists for query `q`: different vectors, each with the rank of its
/// own score and weight, from the greatest down, NaN at the end; unless a rank is
/// NaN, no vector left out has a greater rank than one listed.  The rank is the
/// vector's score times the query's scale, plus the query's bias, times the
/// vector's weight.  (Coordinates `q * dim` and on are those of query `q`, and
/// places `q * k` and on are its listing.)
pub proof fn law_search_lists_the_best_of_each_query(
    index: IndexView,
    queries: Seq<Binary32>,
    biases: Seq<Binary32>,
    k: nat,
    db: Seq<i8>,
    r: SearchResults,
    q: int,
)
    requires
        index.finds(queries, biases, k, db, &r),
        index.dim is Some,
        0 <= q < r.nq,
    ensures
        ({
            let dim = index.dim->0 as int;
            let query = queries.subrange(q * dim, (q + 1) * dim);
            let scores = query_scores(query, db, index.n_vectors);
            let scale = inverse_gain(gain(query));
            let base = q * r.k;
            &&& forall|j: int|
                0 <= j < r.k ==> 0 <= #[trigger] r.indices@[base + j] < index.n_vectors
                    && r.scores@[base + j] == product(
                    sum(
                        product(integer(scores[r.indices@[base + j] as int] as int), scale),
                        biases[q],
                    ),
                    index.scales[r.indices@[base + j] as int],
                )
            &&& forall|i: int, j: int|
                0 <= i < j < r.k ==> #[trigger] r.indices@[base + i] != #[trigger] r.indices@[base
                    + j] && !r.scores@[base + i].less(r.scores@[base + j]) && (r.scores@[base
                    + i].nan() ==> r.scores@[base + j].nan())
            &&& (forall|v: int|
                0 <= v < index.n_vectors ==> !product(
                    sum(product(integer(#[trigger] scores[v] as int), scale), biases[q]),
                    index.scales[v],
                ).nan()) ==> forall|v: i64, j: int|
                0 <= v < index.n_vectors && 0 <= j < r.k && (forall|i: int|
                    0 <= i < r.k ==> #[trigger] r.indices@[base + i] != v)
                    ==> !(#[trigger] r.scores@[base + j]).less(
                    product(
                        sum(product(integer(#[trigger] scores[v as int] as int), scale), biases[q]),
                        index.scales[v as int],
                    ),
                )
        }),
{
    if r.k > 0 {
        let dim = index.dim->0 as int;
        let width = r.k as int;
        let query = queries.subrange(q * dim, (q + 1) * dim);
        assert(query == matrix_row(queries, dim, q));
        let row = query_scores(query, db, index.n_vectors);
        let scale = inverse_gain(gain(query));
        let scores = matrix_row(r.scores@, width, q);
        let indices = matrix_row(r.indices@, width, q);
        let base = q * width;
        assert(is_ranking(index.query_ranks(query, biases[q], db), r.k as nat, scores, indices));
        law_row_ranking_lists_the_best(
            row,
            index.scales,
            scale,
            biases[q],
            r.k as nat,
            scores,
            indices,
        );
        lemma_row_in_range(q, r.nq as int, width);
        assert forall|j: int| 0 <= j < width implies #[trigger] r.indices@[base + j] == indices[j]
            && r.scores@[base + j] == scores[j] by {
            lemma_cell_of_row(r.scores@, r.nq as int, width, q, j);
            lemma_cell_of_row(r.indices@, r.nq as int, width, q, j);
        }
        if forall|v: int|
            0 <= v < index.n_vectors ==> !product(
                sum(product(integer(#[trigger] row[v] as int), scale), biases[q]),
                index.scales[v],
            ).nan() {
            assert forall|v: i64, j: int|
                0 <= v < index.n_vectors && 0 <= j < width && (forall|i: int|
                    0 <= i < width ==> #[trigger] r.indices@[base + i] != v) implies !(
            #[trigger] r.scores@[base + j]).less(
                product(
                    sum(product(integer(#[trigger] row[v as int] as int), scale), biases[q]),
                    index.scales[v as int],
                ),
            ) by {
                assert(!indices.contains(v)) by {
                    if indices.contains(v) {
                        let i = choose|i: int| 0 <= i < indices.len() && indices[i] == v;
                        assert(r.indices@[base + i] == v);
                    }
                }
                assert(r.indices@[base + j] == indices[j]);
                assert(!scores[j].less(
                    product(
                        sum(product(integer(row[v as int] as int), scale), biases[q]),
                        index.scales[v as int],
                    ),
                ));
            }
        }
    }
}

} // verus!
