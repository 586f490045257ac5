//! The quantized index, its reconstruction as bytes, and search in it.
use crate::binary32::Binary32;
use crate::contents::law_codes_spell_the_packed_bits;
use crate::matrix::{
    append_row, are_blocks, cell, inner_product, join_rows, lemma_appended_row, lemma_cell_in_range,
    lemma_cell_of_row, lemma_row_in_range, matrix_column, matrix_row, multiply_blocks,
    row_of_blocks, wrapped,
};
use crate::parallel::parallel_map;
use crate::quantize::{
    centroid_level, centroid_levels, gain, inverse_gain, query_gain, quantize_row, row_levels,
    score_scale,
};
use crate::topk::{is_ranking, lemma_ranking_len, row_ranks, top_k_from_row};
use vstd::arithmetic::div_mod::lemma_fundamental_div_mod;
use vstd::arithmetic::power2::{lemma2_to64, lemma_pow2_strictly_increases, lemma_pow2_unfold, pow2};
use vstd::bits::{lemma_u8_shl_is_mul, lemma_usize_shl_is_mul};
use vstd::math::min;
use vstd::prelude::*;

verus! {

/// The number of bits in a byte, and the most that a code can have.
pub const BYTE_BITS: usize = 8;

/// An index of quantized vectors.
///
/// Each vector has one code per coordinate.  The codes are stored as bit
/// planes: for each vector, for each bit of the codes from the lowest up, one
/// bit per coordinate, eight to a byte, the first in the most significant
/// place.
#[derive(Debug)]
pub struct TurboQuantIndex {
    dim: Option<usize>,
    bit_width: usize,
    n_vectors: usize,
    packed_codes: Vec<u8>,
    scales: Vec<Binary32>,
    centroids: Vec<Binary32>,
}

/// What an index holds.
#[verifier::ext_equal]
pub struct IndexView {
    /// The number of coordinates, once it is settled.
    pub dim: Option<nat>,
    /// The number of bits of a code.
    pub bit_width: nat,
    /// The number of vectors.
    pub n_vectors: nat,
    /// The bit planes of all vectors.
    pub packed_codes: Seq<u8>,
    /// The weight of each vector in its rank.
    pub scales: Seq<Binary32>,
    /// The centroid that each code stands for.
    pub centroids: Seq<Binary32>,
}

/// What a search found: for each of `nq` queries the ranks and the numbers of
/// the best `k` vectors, from the greatest rank down.
#[derive(Debug)]
pub struct SearchResults {
    pub scores: Vec<Binary32>,
    pub indices: Vec<i64>,
    pub nq: usize,
    pub k: usize,
}

/// The bit of coordinate `d` in the byte of a bit plane that holds it.
pub open spec fn plane_bit(byte: u8, d: int) -> bool {
    byte & (1u8 << (7 - d % 8)) != 0
}

impl IndexView {
    /// What holds of every index.
    pub open spec fn well_formed(&self) -> bool {
        &&& self.bit_width <= BYTE_BITS
        &&& match self.dim {
            None => true,
            Some(dim) => {
                &&& dim % 8 == 0
                &&& self.packed_codes.len() == self.n_vectors * (self.bit_width * (dim / 8))
                &&& self.scales.len() == self.n_vectors
                &&& self.n_vectors > 0 ==> self.centroids.len() >= pow2(self.bit_width)
            },
        }
    }

    /// Bit `p` of the code of vector `v` at coordinate `d`.
    pub open spec fn code_bit(&self, v: int, d: int, p: int) -> bool {
        let plane = self.dim->0 as int / 8;
        plane_bit(self.packed_codes[v * (self.bit_width * plane) + p * plane + d / 8], d)
    }

    /// The low `bits` bits of the code of vector `v` at coordinate `d`.
    pub open spec fn low_code(&self, v: int, d: int, bits: nat) -> nat
        decreases bits,
    {
        if bits == 0 {
            0
        } else {
            let low = self.low_code(v, d, (bits - 1) as nat);
            if self.code_bit(v, d, bits - 1) {
                low + pow2((bits - 1) as nat)
            } else {
                low
            }
        }
    }

    /// The code of vector `v` at coordinate `d`.
    pub open spec fn code(&self, v: int, d: int) -> nat {
        self.low_code(v, d, self.bit_width)
    }

    /// Coordinate `d` of vector `v` as a byte: the level of its centroid.
    pub open spec fn level_at(&self, v: int, d: int) -> i8 {
        centroid_level(self.centroids[self.code(v, d) as int])
    }

    /// All vectors as bytes: a matrix with a row for each coordinate and a
    /// column for each vector, and none without vectors.
    pub open spec fn reconstruction(&self) -> Seq<i8> {
        let n = self.n_vectors as int;
        if self.dim is Some && n > 0 {
            Seq::new((self.dim->0 * n) as nat, |i: int| self.level_at(i % n, i / n))
        } else {
            Seq::empty()
        }
    }
}

impl View for TurboQuantIndex {
    type V = IndexView;

    closed spec fn view(&self) -> IndexView {
        IndexView {
            dim: match self.dim {
                Some(dim) => Some(dim as nat),
                None => None,
            },
            bit_width: self.bit_width as nat,
            n_vectors: self.n_vectors as nat,
            packed_codes: self.packed_codes@,
            scales: self.scales@,
            centroids: self.centroids@,
        }
    }
}

impl TurboQuantIndex {
    #[verifier::type_invariant]
    spec fn holds_together(&self) -> bool {
        self@.well_formed()
    }

    /// The number of coordinates, once it is settled.
    pub fn dim_opt(&self) -> (r: Option<usize>)
        ensures
            r is Some == self@.dim is Some,
            r is Some ==> r->0 == self@.dim->0,
    {
        self.dim
    }

    /// The number of vectors.
    pub fn len(&self) -> (r: usize)
        ensures
            r == self@.n_vectors,
    {
        self.n_vectors
    }

    /// The number of bits of a code.
    pub fn bit_width(&self) -> (r: usize)
        ensures
            r == self@.bit_width,
    {
        self.bit_width
    }

    /// The bit planes of all vectors.
    pub fn packed_codes(&self) -> (r: &[u8])
        ensures
            r@ == self@.packed_codes,
    {
        self.packed_codes.as_slice()
    }

    /// The weight of each vector in its rank.
    pub fn scales(&self) -> (r: &[Binary32])
        ensures
            r@ == self@.scales,
    {
        self.scales.as_slice()
    }
}

proof fn lemma_plane_byte_in_range(v: int, p: int, b: int, n: int, bits: int, plane: int)
    requires
        0 <= v < n,
        0 <= p < bits,
        0 <= b < plane,
    ensures
        0 <= v * (bits * plane) + p * plane + b < n * (bits * plane),
        0 <= v * (bits * plane),
        0 <= p * plane,
        0 <= p * plane + b < bits * plane,
{
    lemma_cell_in_range(p, b, bits, plane);
    lemma_cell_in_range(v, p * plane + b, n, bits * plane);
    assert(0 <= v * (bits * plane) && 0 <= p * plane) by (nonlinear_arith)
        requires
            0 <= v,
            0 <= p,
            0 <= bits,
            0 <= plane,
    ;
}

impl TurboQuantIndex {
    /// The code of vector `v` at coordinate `d`.
    pub fn code_at(&self, v: usize, d: usize) -> (r: usize)
        requires
            self@.dim is Some,
            v < self@.n_vectors,
            d < self@.dim->0,
        ensures
            r == self@.code(v as int, d as int),
            forall|p: nat|
                p < self@.bit_width ==> (r as nat / #[trigger] pow2(p)) % 2 == (
                self@.packed_codes[v * (self@.bit_width * (self@.dim->0 / 8)) + p * (self@.dim->0
                    / 8) + d as int / 8] as nat / pow2((7 - d as int % 8) as nat)) % 2,
            r < pow2(self@.bit_width),
            r < self@.centroids.len(),
    {
        let dim: usize = match self.dim {
            Some(dim) => dim,
            None => 0,
        };
        let plane: usize = dim / 8;
        let bits: usize = self.bit_width;
        proof {
            use_type_invariant(self);
            lemma2_to64();
        }
        if bits == 0 {
            return 0;
        }
        proof {
            assert(0 <= bits * plane) by (nonlinear_arith)
                requires
                    bits >= 0,
                    plane >= 0,
            ;
            lemma_row_in_range(v as int, self.n_vectors as int, bits * plane);
            assert(self.packed_codes.len() <= usize::MAX);
        }
        let row_base: usize = v * (bits * plane);
        let mask: u8 = 1u8 << (7 - d % 8);
        let mut code: u8 = 0;
        let mut p: usize = 0;
        while p < bits
            invariant
                self@.well_formed(),
                self.dim == Some(dim),
                v < self.n_vectors,
                d < dim,
                plane == dim / 8,
                bits == self.bit_width,
                p <= bits,
                row_base == v * (bits * plane),
                mask == 1u8 << (7 - d % 8),
                code == self@.low_code(v as int, d as int, p as nat),
                code < pow2(p as nat),
            decreases bits - p,
        {
            proof {
                lemma_plane_byte_in_range(
                    v as int,
                    p as int,
                    (d / 8) as int,
                    self.n_vectors as int,
                    bits as int,
                    plane as int,
                );
                assert(self.packed_codes.len() <= usize::MAX);
            }
            let plane_byte: u8 = self.packed_codes[row_base + p * plane + d / 8];
            let weight: u8 = 1u8 << p;
            proof {
                lemma2_to64();
                lemma_u8_shl_is_mul(1, p as u8);
                lemma_pow2_unfold((p + 1) as nat);
                if p < 7 {
                    lemma_pow2_strictly_increases(p as nat, 7);
                }
                assert(1u8 << p == 1u8 << (p as u8));
                assert(code | weight == code + weight) by (bit_vector)
                    requires
                        p < 8,
                        weight == 1u8 << p,
                        code < weight,
                ;
            }
            if plane_byte & mask != 0 {
                code = code | weight;
            }
            p += 1;
        }
        proof {
            assert forall|p: nat| p < self@.bit_width implies (code as nat / #[trigger] pow2(p)) % 2
                == (self@.packed_codes[v * (self@.bit_width * (self@.dim->0 / 8)) + p * (
            self@.dim->0 / 8) + d as int / 8] as nat / pow2((7 - d as int % 8) as nat)) % 2 by {
                law_codes_spell_the_packed_bits(self@, v as int, d as int, p);
            }
        }
        code as usize
    }
}

impl TurboQuantIndex {
    /// The index with the given parts, if they fit together.
    pub fn from_parts(
        dim: Option<usize>,
        bit_width: usize,
        n_vectors: usize,
        packed_codes: Vec<u8>,
        scales: Vec<Binary32>,
        centroids: Vec<Binary32>,
    ) -> (r: Option<TurboQuantIndex>)
        ensures
            ({
                let view = IndexView {
                    dim: match dim {
                        Some(dim) => Some(dim as nat),
                        None => None,
                    },
                    bit_width: bit_width as nat,
                    n_vectors: n_vectors as nat,
                    packed_codes: packed_codes@,
                    scales: scales@,
                    centroids: centroids@,
                };
                &&& r is Some <==> view.well_formed()
                &&& r is Some ==> r->0@ == view
            }),
    {
        if bit_width > BYTE_BITS {
            return None;
        }
        if let Some(dim) = dim {
            proof {
                let plane = dim / BYTE_BITS;
                assert(bit_width * plane <= BYTE_BITS * plane) by (nonlinear_arith)
                    requires
                        bit_width <= BYTE_BITS,
                        plane >= 0,
                ;
                assert(n_vectors * (bit_width * plane) <= 0xffff_ffff_ffff_ffff
                    * 0xffff_ffff_ffff_ffff) by (nonlinear_arith)
                    requires
                        0 <= n_vectors <= 0xffff_ffff_ffff_ffff,
                        0 <= bit_width * plane <= 0xffff_ffff_ffff_ffff,
                ;
                lemma2_to64();
                lemma_usize_shl_is_mul(1, bit_width);
            }
            let needed: u128 = n_vectors as u128 * (bit_width * (dim / BYTE_BITS)) as u128;
            if dim % BYTE_BITS != 0 || packed_codes.len() as u128 != needed || scales.len()
                != n_vectors || (n_vectors > 0 && centroids.len() < 1usize << bit_width) {
                return None;
            }
        }
        Some(TurboQuantIndex { dim, bit_width, n_vectors, packed_codes, scales, centroids })
    }

    /// Coordinate `d` of all vectors as bytes, given the level of each code's
    /// centroid.
    fn reconstruct_row(&self, levels: &Vec<i8>, d: usize) -> (row: Vec<i8>)
        requires
            self@.dim is Some,
            d < self@.dim->0,
            levels@ == self@.centroids.map_values(|c: Binary32| centroid_level(c)),
        ensures
            row@ == Seq::new(self@.n_vectors, |v: int| self@.level_at(v, d as int)),
    {
        let mut row: Vec<i8> = Vec::with_capacity(self.n_vectors);
        let mut v: usize = 0;
        while v < self.n_vectors
            invariant
                self@.dim is Some,
                d < self@.dim->0,
                levels@ == self@.centroids.map_values(|c: Binary32| centroid_level(c)),
                v <= self.n_vectors,
                row@ =~= Seq::new(v as nat, |u: int| self@.level_at(u, d as int)),
            decreases self.n_vectors - v,
        {
            let code: usize = self.code_at(v, d);
            row.push(levels[code]);
            v += 1;
        }
        row
    }

    /// All vectors as bytes, transposed: the entry at `d * n_vectors + v` is
    /// the level of the centroid of vector `v` at coordinate `d`.  Empty where
    /// the number of coordinates is not settled or there is no vector.
    pub fn reconstruct_db_i8_transposed(&self) -> (r: Vec<i8>)
        requires
            self@.dim is Some ==> self@.dim->0 * self@.n_vectors <= isize::MAX,
        ensures
            r@ == self@.reconstruction(),
            self@.dim is None || self@.n_vectors == 0 ==> r@.len() == 0,
            self@.dim is Some && self@.n_vectors > 0 ==> r@.len() == self@.dim->0
                * self@.n_vectors,
            forall|d: int, v: int|
                self@.dim is Some && 0 <= d < self@.dim->0 && 0 <= v < self@.n_vectors
                    ==> #[trigger] cell(r@, self@.n_vectors as int, d, v) == self@.level_at(v, d),
    {
        let dim: usize = match self.dim {
            Some(dim) => dim,
            None => {
                return Vec::new();
            },
        };
        let n: usize = self.n_vectors;
        if n == 0 {
            return Vec::new();
        }
        let levels: Vec<i8> = centroid_levels(self.centroids.as_slice());
        let fill = |d: usize| -> (row: Vec<i8>)
            requires
                d < dim,
                self@.dim == Some(dim as nat),
                levels@ == self@.centroids.map_values(|c: Binary32| centroid_level(c)),
            ensures
                row@ == Seq::new(self@.n_vectors, |v: int| self@.level_at(v, d as int)),
            { self.reconstruct_row(&levels, d) };
        let rows: Vec<Vec<i8>> = parallel_map(dim, fill);
        assert forall|d: int| 0 <= d < dim implies (#[trigger] rows@[d])@ == Seq::new(
            n as nat,
            |v: int| self@.level_at(v, d),
        ) by {
            assert(call_ensures(fill, (d as usize,), rows@[d]));
        }
        let joined: Vec<i8> = join_rows(&rows, n);
        proof {
            let w = n as int;
            assert forall|i: int| 0 <= i < dim * n implies joined@[i] == self@.level_at(
                i % w,
                i / w,
            ) by {
                lemma_fundamental_div_mod(i, w);
                assert(0 <= i / w < dim) by (nonlinear_arith)
                    requires
                        i == w * (i / w) + i % w,
                        0 <= i % w < w,
                        0 <= i < dim * w,
                ;
                assert((i / w) * w + i % w == i) by (nonlinear_arith)
                    requires
                        i == w * (i / w) + i % w,
                ;
                lemma_cell_of_row(joined@, dim as int, w, i / w, i % w);
                assert(matrix_row(joined@, w, i / w) == rows@[i / w]@);
            }
            assert(joined@ =~= self@.reconstruction());
            assert forall|d: int, v: int| 0 <= d < dim && 0 <= v < n implies #[trigger] cell(
                joined@,
                w,
                d,
                v,
            ) == self@.level_at(v, d) by {
                lemma_cell_of_row(joined@, dim as int, w, d, v);
                assert(matrix_row(joined@, w, d) == rows@[d]@);
            }
        }
        joined
    }
}

/// The integer scores of a query against the columns of a byte matrix, in 32
/// bits with wrap-around.
pub open spec fn query_scores(query: Seq<Binary32>, db: Seq<i8>, n: nat) -> Seq<i32> {
    Seq::new(
        n,
        |v: int|
            wrapped(
                inner_product(row_levels(query), matrix_column(db, query.len(), n as int, v)),
            ) as i32,
    )
}

/// `a * b` entries of four bytes fit into memory.
pub open spec fn allocatable(a: int, b: int) -> bool {
    4 * (a * b) <= isize::MAX
}

impl IndexView {
    /// The ranks of all vectors for a query.
    pub open spec fn query_ranks(
        &self,
        query: Seq<Binary32>,
        bias: Binary32,
        db: Seq<i8>,
    ) -> Seq<Binary32> {
        row_ranks(
            query_scores(query, db, self.n_vectors),
            self.scales,
            inverse_gain(gain(query)),
            bias,
        )
    }

    /// What a search for the best `k` vectors may be asked: whole queries, with
    /// a bias for each.  Where there is anything to find, the matrices at work
    /// fit into memory.  Anything where the number of coordinates is not
    /// settled.
    pub open spec fn accepts(
        &self,
        queries: Seq<Binary32>,
        biases: Seq<Binary32>,
        k: nat,
    ) -> bool {
        match self.dim {
            None => true,
            Some(dim) => {
                let n = self.n_vectors as int;
                let nq = queries.len() as int / dim as int;
                &&& dim > 0
                &&& queries.len() == nq * dim
                &&& biases.len() == nq
                &&& nq > 0 && min(k as int, n) > 0 ==> {
                    &&& allocatable(nq, dim as int)
                    &&& allocatable(nq, n)
                    &&& dim * n <= isize::MAX
                }
            },
        }
    }

    /// Whether a byte matrix has a row for each coordinate and a column for
    /// each vector, where the number of coordinates is settled.
    pub open spec fn fits(&self, db: Seq<i8>) -> bool {
        self.dim is Some ==> db.len() == self.dim->0 * self.n_vectors
    }

    /// Whether `r` is what a search for the best `k` vectors finds.
    pub open spec fn finds(
        &self,
        queries: Seq<Binary32>,
        biases: Seq<Binary32>,
        k: nat,
        db: Seq<i8>,
        r: &SearchResults,
    ) -> bool {
        match self.dim {
            None => r.nq == 0 && r.k == 0 && r.scores@.len() == 0 && r.indices@.len() == 0,
            Some(dim) => {
                let nq = queries.len() as int / dim as int;
                let best = min(k as int, self.n_vectors as int);
                &&& r.nq == nq
                &&& if best == 0 || nq == 0 {
                    r.k == 0 && r.scores@.len() == 0 && r.indices@.len() == 0
                } else {
                    &&& r.k == best
                    &&& r.scores@.len() == nq * best
                    &&& r.indices@.len() == nq * best
                    &&& forall|q: int|
                        0 <= q < nq ==> is_ranking(
                            self.query_ranks(
                                matrix_row(queries, dim as int, q),
                                biases[q],
                                db,
                            ),
                            best as nat,
                            #[trigger] matrix_row(r.scores@, best, q),
                            matrix_row(r.indices@, best, q),
                        )
                }
            },
        }
    }
}

/// Joins the rankings of all queries into one pair of matrices.
fn join_rankings(rankings: &Vec<(Vec<Binary32>, Vec<i64>)>, width: usize) -> (r: (
    Vec<Binary32>,
    Vec<i64>,
))
    requires
        forall|q: int|
            0 <= q < rankings@.len() ==> (#[trigger] rankings@[q]).0@.len() == width
                && rankings@[q].1@.len() == width,
    ensures
        r.0@.len() == rankings@.len() * width,
        r.1@.len() == rankings@.len() * width,
        forall|q: int|
            0 <= q < rankings@.len() ==> matrix_row(r.0@, width as int, q) == (
            #[trigger] rankings@[q]).0@ && matrix_row(r.1@, width as int, q) == rankings@[q].1@,
{
    let mut scores: Vec<Binary32> = Vec::new();
    let mut indices: Vec<i64> = Vec::new();
    let mut i: usize = 0;
    while i < rankings.len()
        invariant
            i <= rankings.len(),
            scores@.len() == i * width,
            indices@.len() == i * width,
            forall|q: int|
                0 <= q < rankings@.len() ==> (#[trigger] rankings@[q]).0@.len() == width
                    && rankings@[q].1@.len() == width,
            forall|q: int|
                0 <= q < i ==> matrix_row(scores@, width as int, q) == (
                #[trigger] rankings@[q]).0@ && matrix_row(indices@, width as int, q)
                    == rankings@[q].1@,
        decreases rankings.len() - i,
    {
        proof {
            lemma_appended_row(scores@, rankings@[i as int].0@, i as int, width as int);
            lemma_appended_row(indices@, rankings@[i as int].1@, i as int, width as int);
        }
        append_row(&mut scores, rankings[i].0.as_slice());
        append_row(&mut indices, rankings[i].1.as_slice());
        i += 1;
    }
    (scores, indices)
}

impl TurboQuantIndex {
    /// The best `k` vectors for a query, given its scores.
    fn rank_query(
        &self,
        query: &[Binary32],
        bias: Binary32,
        k: usize,
        row: &[i32],
        Ghost(db): Ghost<Seq<i8>>,
    ) -> (r: (Vec<Binary32>, Vec<i64>))
        requires
            self@.dim is Some,
            k <= self@.n_vectors <= i64::MAX,
            row@ == query_scores(query@, db, self@.n_vectors),
        ensures
            is_ranking(self@.query_ranks(query@, bias, db), k as nat, r.0@, r.1@),
            r.0@.len() == k,
            r.1@.len() == k,
    {
        proof {
            use_type_invariant(self);
        }
        let scale: Binary32 = score_scale(query_gain(query));
        let r: (Vec<Binary32>, Vec<i64>) = top_k_from_row(row, self.scales(), scale, bias, k);
        proof {
            lemma_ranking_len(self@.query_ranks(query@, bias, db), k as nat, r.0@, r.1@);
        }
        r
    }

    /// The best `k` vectors for each query, against a reconstruction made
    /// before.
    ///
    /// `queries` holds the coordinates of all queries, rotated and calibrated
    /// as those of the vectors were, and `biases` the correction that the
    /// calibration calls for, one for each query.
    pub fn search_polyfill_with_db(
        &self,
        queries: &[Binary32],
        biases: &[Binary32],
        k: usize,
        db_i8_t: &[i8],
    ) -> (r: SearchResults)
        requires
            self@.accepts(queries@, biases@, k as nat),
            self@.fits(db_i8_t@),
        ensures
            self@.finds(queries@, biases@, k as nat, db_i8_t@, &r),
            self@.dim is None ==> r.nq == 0 && r.k == 0,
            self@.dim is Some ==> r.nq == biases@.len(),
            r.nq > 0 ==> r.k == min(k as int, self@.n_vectors as int),
            r.scores@.len() == r.nq * r.k,
            r.indices@.len() == r.nq * r.k,
    {
        let dim: usize = match self.dim {
            Some(dim) => dim,
            None => {
                return SearchResults { scores: Vec::new(), indices: Vec::new(), nq: 0, k: 0 };
            },
        };
        let n: usize = self.n_vectors;
        let nq: usize = queries.len() / dim;
        let best: usize = if k < n {
            k
        } else {
            n
        };
        if best == 0 || nq == 0 {
            return SearchResults { scores: Vec::new(), indices: Vec::new(), nq, k: 0 };
        }
        // Each query as bytes, with a scale of its own.
        let quantized = |q: usize| -> (row: Vec<i8>)
            requires
                q < nq,
                queries@.len() == nq * dim,
            ensures
                row@ == row_levels(matrix_row(queries@, dim as int, q as int)),
            {
                proof {
                    lemma_row_in_range(q as int, nq as int, dim as int);
                    assert(queries.len() <= usize::MAX);
                }
                quantize_row(&queries[q * dim..(q + 1) * dim])
            };
        let rows: Vec<Vec<i8>> = parallel_map(nq, quantized);
        assert forall|q: int| 0 <= q < nq implies (#[trigger] rows@[q])@ == row_levels(
            matrix_row(queries@, dim as int, q),
        ) && rows@[q]@.len() == dim by {
            assert(call_ensures(quantized, (q as usize,), rows@[q]));
            lemma_row_in_range(q, nq as int, dim as int);
        }
        let codes: Vec<i8> = join_rows(&rows, dim);
        // All scores, as a product in blocks.
        let product: (Vec<Vec<i32>>, usize) = multiply_blocks(
            codes.as_slice(),
            db_i8_t,
            nq,
            dim,
            n,
        );
        let blocks: &Vec<Vec<i32>> = &product.0;
        let width: usize = product.1;
        proof {
            assert(n <= dim * n) by (nonlinear_arith)
                requires
                    dim >= 1,
                    n >= 0,
            ;
            assert forall|q: int| 0 <= q < nq implies #[trigger] matrix_row(codes@, dim as int, q)
                == row_levels(matrix_row(queries@, dim as int, q)) by {
                assert(matrix_row(codes@, dim as int, q) == rows@[q]@);
            }
        }
        // The best of each query's scores.
        let ranked = |q: usize| -> (r: (Vec<Binary32>, Vec<i64>))
            requires
                q < nq,
                nq == biases@.len(),
                queries@.len() == nq * dim,
                self@.dim == Some(dim as nat),
                self@.n_vectors == n,
                best <= n <= i64::MAX,
                are_blocks(
                    blocks@,
                    width as int,
                    codes@,
                    db_i8_t@,
                    nq as int,
                    dim as nat,
                    n as int,
                ),
                matrix_row(codes@, dim as int, q as int) == row_levels(
                    matrix_row(queries@, dim as int, q as int),
                ),
            ensures
                is_ranking(
                    self@.query_ranks(
                        matrix_row(queries@, dim as int, q as int),
                        biases@[q as int],
                        db_i8_t@,
                    ),
                    best as nat,
                    r.0@,
                    r.1@,
                ),
                r.0@.len() == best,
                r.1@.len() == best,
            {
                proof {
                    lemma_row_in_range(q as int, nq as int, dim as int);
                    assert(queries.len() <= usize::MAX);
                }
                let query: &[Binary32] = &queries[q * dim..(q + 1) * dim];
                let row: Vec<i32> = row_of_blocks(
                    blocks,
                    width,
                    n,
                    q,
                    Ghost(codes@),
                    Ghost(db_i8_t@),
                    Ghost(nq as int),
                    Ghost(dim as nat),
                );
                assert(row@ =~= query_scores(query@, db_i8_t@, n as nat));
                self.rank_query(query, biases[q], best, row.as_slice(), Ghost(db_i8_t@))
            };
        let rankings: Vec<(Vec<Binary32>, Vec<i64>)> = parallel_map(nq, ranked);
        assert forall|q: int| 0 <= q < nq implies (#[trigger] rankings@[q]).0@.len() == best
            && rankings@[q].1@.len() == best && is_ranking(
            self@.query_ranks(matrix_row(queries@, dim as int, q), biases@[q], db_i8_t@),
            best as nat,
            rankings@[q].0@,
            rankings@[q].1@,
        ) by {
            assert(call_ensures(ranked, (q as usize,), rankings@[q]));
        }
        let joined: (Vec<Binary32>, Vec<i64>) = join_rankings(&rankings, best);
        proof {
            assert forall|q: int| 0 <= q < nq implies is_ranking(
                self@.query_ranks(matrix_row(queries@, dim as int, q), biases@[q], db_i8_t@),
                best as nat,
                #[trigger] matrix_row(joined.0@, best as int, q),
                matrix_row(joined.1@, best as int, q),
            ) by {
                assert(rankings@[q].0@ == matrix_row(joined.0@, best as int, q));
            }
        }
        SearchResults { scores: joined.0, indices: joined.1, nq, k: best }
    }

    /// The best `k` vectors for each query.  Reconstructs the index first; to
    /// search in one index more than once, reconstruct it once and call
    /// [`Self::search_polyfill_with_db`].
    pub fn search_polyfill(
        &self,
        queries: &[Binary32],
        biases: &[Binary32],
        k: usize,
    ) -> (r: SearchResults)
        requires
            self@.accepts(queries@, biases@, k as nat),
            self@.dim is Some ==> self@.dim->0 * self@.n_vectors <= isize::MAX,
        ensures
            self@.finds(queries@, biases@, k as nat, self@.reconstruction(), &r),
            self@.dim is None ==> r.nq == 0 && r.k == 0,
            self@.dim is Some ==> r.nq == biases@.len(),
            r.nq > 0 ==> r.k == min(k as int, self@.n_vectors as int),
            r.scores@.len() == r.nq * r.k,
            r.indices@.len() == r.nq * r.k,
    {
        let db: Vec<i8> = self.reconstruct_db_i8_transposed();
        proof {
            if self@.dim is Some && self@.n_vectors == 0 {
                assert(self@.dim->0 * self@.n_vectors == 0) by (nonlinear_arith)
                    requires
                        self@.n_vectors == 0,
                ;
            }
        }
        self.search_polyfill_with_db(queries, biases, k, db.as_slice())
    }
}

} // verus!
