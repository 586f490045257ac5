use std::collections::BTreeSet;
use turbovec::binary32::Binary32;
use turbovec::index::{SearchResults, TurboQuantIndex};

/// Deterministic unit vectors.
fn unit_vectors(n: usize, dim: usize, seed: u64) -> Vec<f32> {
    let mut s = seed.wrapping_add(0x9E37_79B9_7F4A_7C15);
    let mut out = vec![0.0f32; n * dim];
    for row in out.chunks_mut(dim) {
        let mut norm = 0.0f64;
        for x in row.iter_mut() {
            s = s
                .wrapping_mul(6_364_136_223_846_793_005)
                .wrapping_add(1_442_695_040_888_963_407);
            let v = ((s >> 33) as f64 / (1u64 << 31) as f64) - 1.0;
            *x = v as f32;
            norm += v * v;
        }
        let inv = 1.0 / (norm.sqrt() + 1e-9);
        for x in row.iter_mut() {
            *x = (*x as f64 * inv) as f32;
        }
    }
    out
}

fn exact_topk(db: &[f32], q: &[f32], n: usize, dim: usize, k: usize) -> BTreeSet<i64> {
    let mut scored: Vec<(f32, i64)> = (0..n)
        .map(|v| {
            let dot: f32 = db[v * dim..(v + 1) * dim]
                .iter()
                .zip(q)
                .map(|(a, b)| a * b)
                .sum();
            (dot, v as i64)
        })
        .collect();
    scored.sort_unstable_by(|a, b| b.0.partial_cmp(&a.0).unwrap());
    scored.iter().take(k).map(|p| p.1).collect()
}

fn bits(xs: &[f32]) -> Vec<Binary32> {
    xs.iter().map(|x| Binary32::from_bits(x.to_bits())).collect()
}

fn floats(xs: &[Binary32]) -> Vec<f32> {
    xs.iter().map(|x| f32::from_bits(x.to_bits())).collect()
}

/// An index as an encoder builds it, with the float state beside it.
struct Encoded {
    dim: usize,
    n: usize,
    codes: Vec<u8>,
    scales: Vec<f32>,
    centroids: Vec<f32>,
    index: TurboQuantIndex,
}

/// Centroids by Lloyd's iteration over all coordinates.
fn lloyd(db: &[f32], levels: usize) -> Vec<f32> {
    let mut sorted = db.to_vec();
    sorted.sort_by(|a, b| a.partial_cmp(b).unwrap());
    let mut centroids: Vec<f32> = (0..levels)
        .map(|i| sorted[(2 * i + 1) * sorted.len() / (2 * levels)])
        .collect();
    for _ in 0..20 {
        let mut sums = vec![(0.0f64, 0usize); levels];
        for &x in db {
            let c = closest(&centroids, x);
            sums[c].0 += x as f64;
            sums[c].1 += 1;
        }
        for (c, (sum, count)) in sums.into_iter().enumerate() {
            if count > 0 {
                centroids[c] = (sum / count as f64) as f32;
            }
        }
    }
    centroids
}

fn closest(centroids: &[f32], x: f32) -> usize {
    let mut best = 0;
    for (i, c) in centroids.iter().enumerate() {
        if (x - c).abs() < (x - centroids[best]).abs() {
            best = i;
        }
    }
    best
}

/// Encodes vectors: codes as bit planes, and the renormalization as scales.
fn encode(db: &[f32], n: usize, dim: usize, bit_width: usize) -> Encoded {
    let centroids = if n > 0 {
        lloyd(db, 1 << bit_width)
    } else {
        Vec::new()
    };
    let plane = dim / 8;
    let mut codes = vec![0u8; n * dim];
    let mut packed = vec![0u8; n * bit_width * plane];
    let mut scales = vec![0.0f32; n];
    for v in 0..n {
        let mut self_dot = 0.0f32;
        for d in 0..dim {
            let x = db[v * dim + d];
            let code = closest(&centroids, x);
            codes[v * dim + d] = code as u8;
            self_dot += x * centroids[code];
            for p in 0..bit_width {
                if code >> p & 1 == 1 {
                    packed[v * bit_width * plane + p * plane + d / 8] |= 1 << (7 - d % 8);
                }
            }
        }
        scales[v] = 1.0 / self_dot;
    }
    let index = TurboQuantIndex::from_parts(
        Some(dim),
        bit_width,
        n,
        packed,
        bits(&scales),
        bits(&centroids),
    )
    .unwrap();
    Encoded {
        dim,
        n,
        codes,
        scales,
        centroids,
        index,
    }
}

/// The same codes with other weights.
fn with_scales(e: &Encoded, scales: &[f32]) -> TurboQuantIndex {
    TurboQuantIndex::from_parts(
        e.index.dim_opt(),
        e.index.bit_width(),
        e.index.len(),
        e.index.packed_codes().to_vec(),
        bits(scales),
        bits(&e.centroids),
    )
    .unwrap()
}

#[test]
fn polyfill_recall_tracks_brute_force() {
    let (dim, n, nq, k) = (64usize, 600usize, 8usize, 10usize);
    let db = unit_vectors(n, dim, 7);
    let queries = unit_vectors(nq, dim, 99);
    let idx = encode(&db, n, dim, 4).index;

    let res = idx.search_polyfill(&bits(&queries), &bits(&vec![0.0; nq]), k);
    assert_eq!(res.nq, nq);
    assert_eq!(res.k, k);

    // Quantization is an approximation: most of the exact best are found.
    let mut hits = 0usize;
    for qi in 0..nq {
        let exact = exact_topk(&db, &queries[qi * dim..(qi + 1) * dim], n, dim, k);
        for &i in &res.indices[qi * k..(qi + 1) * k] {
            if exact.contains(&i) {
                hits += 1;
            }
        }
    }
    let recall = hits as f64 / (nq * k) as f64;
    assert!(
        recall >= 0.6,
        "polyfill recall@{k} = {recall:.3} below floor 0.6"
    );
}

#[test]
fn reconstruct_shape_and_empty() {
    let (dim, n) = (32usize, 100usize);
    let db = unit_vectors(n, dim, 1);
    let idx = encode(&db, n, dim, 2).index;
    assert_eq!(idx.reconstruct_db_i8_transposed().len(), dim * n);

    let empty = encode(&[], 0, dim, 2).index;
    assert!(empty.reconstruct_db_i8_transposed().is_empty());
}

#[test]
fn reconstruction_is_the_transposed_level_of_each_code() {
    for bit_width in [1, 2, 3, 4, 8] {
        let (dim, n) = (24usize, 50usize);
        let e = encode(&unit_vectors(n, dim, 5), n, dim, bit_width);
        let out = e.index.reconstruct_db_i8_transposed();
        for d in 0..dim {
            for v in 0..n {
                let code = e.codes[v * dim + d] as usize;
                assert_eq!(e.index.code_at(v, d), code);
                let q = (e.centroids[code] * 127.0).round();
                assert_eq!(out[d * n + v], q.clamp(-127.0, 127.0) as i8);
            }
        }
    }
}

#[test]
fn codes_are_read_from_planes_most_significant_bit_first() {
    // One vector, sixteen coordinates, two planes of two bytes.
    let index = TurboQuantIndex::from_parts(
        Some(16),
        2,
        1,
        vec![0b1000_0001, 0b0100_0000, 0b1100_0000, 0b0000_0001],
        bits(&[1.0]),
        bits(&[-1.0, -0.25, 0.25, 2.0]),
    )
    .unwrap();
    let codes: Vec<usize> = (0..16).map(|d| index.code_at(0, d)).collect();
    assert_eq!(codes, vec![3, 2, 0, 0, 0, 0, 0, 1, 0, 1, 0, 0, 0, 0, 0, 2]);
    assert_eq!(
        index.reconstruct_db_i8_transposed(),
        vec![
            127, 32, -127, -127, -127, -127, -127, -32, -127, -32, -127, -127, -127, -127, -127, 32
        ]
    );
}

#[test]
fn unsettled_and_empty_indexes_reconstruct_to_nothing() {
    let unsettled =
        TurboQuantIndex::from_parts(None, 4, 0, Vec::new(), Vec::new(), Vec::new()).unwrap();
    assert!(unsettled.reconstruct_db_i8_transposed().is_empty());
}

#[test]
fn parts_that_do_not_fit_are_refused() {
    let ok = |dim: usize,
              bit_width: usize,
              n: usize,
              packed: usize,
              scales: usize,
              centroids: usize| {
        TurboQuantIndex::from_parts(
            Some(dim),
            bit_width,
            n,
            vec![0; packed],
            bits(&vec![1.0; scales]),
            bits(&vec![0.0; centroids]),
        )
        .is_some()
    };
    assert!(ok(16, 2, 3, 12, 3, 4));
    assert!(!ok(12, 2, 3, 6, 3, 4));
    assert!(!ok(16, 9, 3, 54, 3, 512));
    assert!(!ok(16, 2, 3, 11, 3, 4));
    assert!(!ok(16, 2, 3, 12, 2, 4));
    assert!(!ok(16, 2, 3, 12, 3, 3));
    assert!(ok(16, 2, 0, 0, 0, 0));
}

fn is_empty(r: &SearchResults, nq: usize) -> bool {
    r.nq == nq && r.k == 0 && r.scores.is_empty() && r.indices.is_empty()
}

#[test]
fn searches_without_an_answer_are_empty() {
    let unsettled =
        TurboQuantIndex::from_parts(None, 4, 0, Vec::new(), Vec::new(), Vec::new()).unwrap();
    assert!(is_empty(&unsettled.search_polyfill(&bits(&[1.0, 2.0]), &[], 3), 0));

    let empty = encode(&[], 0, 8, 2).index;
    let queries = bits(&[0.5; 16]);
    let biases = bits(&[0.0; 2]);
    assert!(is_empty(&empty.search_polyfill(&queries, &biases, 3), 2));

    let idx = encode(&unit_vectors(5, 8, 3), 5, 8, 2).index;
    assert!(is_empty(&idx.search_polyfill(&queries, &biases, 0), 2));
    assert!(is_empty(&idx.search_polyfill(&[], &[], 3), 0));
}

/// The whole search in native floats.
fn reference_search(
    e: &Encoded,
    queries: &[f32],
    biases: &[f32],
    k: usize,
    db: &[i8],
) -> (Vec<f32>, Vec<i64>) {
    let (dim, n) = (e.dim, e.n);
    let mut scores = Vec::new();
    let mut indices = Vec::new();
    for (q, src) in queries.chunks(dim).enumerate() {
        let max_abs = src.iter().fold(0.0f32, |m, &x| m.max(x.abs()));
        let sq = if max_abs > 1e-12 { 127.0 / max_abs } else { 0.0 };
        let row: Vec<i8> = src
            .iter()
            .map(|x| (x * sq).round().clamp(-127.0, 127.0) as i8)
            .collect();
        let inv = if sq > 0.0 { 1.0 / (sq * 127.0) } else { 0.0 };
        let mut pairs: Vec<(f32, i64)> = (0..n)
            .map(|v| {
                let s: i32 = (0..dim).map(|d| row[d] as i32 * db[d * n + v] as i32).sum();
                ((s as f32 * inv + biases[q]) * e.scales[v], v as i64)
            })
            .collect();
        pairs.sort_by(|a, b| b.0.partial_cmp(&a.0).unwrap());
        for p in pairs.iter().take(k) {
            scores.push(p.0);
            indices.push(p.1);
        }
    }
    (scores, indices)
}

#[test]
fn search_agrees_with_native_floats() {
    for bit_width in [2, 4] {
        let (dim, n, nq) = (40usize, 300usize, 6usize);
        let e = encode(&unit_vectors(n, dim, 11), n, dim, bit_width);
        let queries = unit_vectors(nq, dim, 12);
        let biases = [0.0f32, 0.01, -0.02, 0.5, 0.0, -0.003];
        let db = e.index.reconstruct_db_i8_transposed();
        for k in [1, 10, 299, 300, 1000] {
            let res = e
                .index
                .search_polyfill_with_db(&bits(&queries), &bits(&biases), k, &db);
            let (scores, indices) = reference_search(&e, &queries, &biases, k, &db);
            assert_eq!(res.k, k.min(n));
            assert_eq!(floats(&res.scores), scores);
            if k == 10 {
                assert_eq!(res.indices, indices);
            }
        }
    }
}

#[test]
fn search_reconstructs_and_then_scores() {
    let (dim, n, nq, k) = (16usize, 80usize, 3usize, 7usize);
    let e = encode(&unit_vectors(n, dim, 21), n, dim, 4);
    let queries = bits(&unit_vectors(nq, dim, 22));
    let biases = bits(&[0.0; 3]);
    let db = e.index.reconstruct_db_i8_transposed();
    let a = e.index.search_polyfill(&queries, &biases, k);
    let b = e.index.search_polyfill_with_db(&queries, &biases, k, &db);
    assert_eq!(a.scores, b.scores);
    assert_eq!(a.indices, b.indices);
    assert_eq!((a.nq, a.k), (b.nq, b.k));
}

#[test]
fn a_query_of_zeros_ranks_by_bias_and_weight_alone() {
    let (dim, n) = (8usize, 4usize);
    let e = encode(&unit_vectors(n, dim, 31), n, dim, 2);
    let index = with_scales(&e, &[1.0, 3.0, 2.0, 4.0]);
    let res = index.search_polyfill(&bits(&[0.0; 8]), &bits(&[0.5]), 4);
    assert_eq!(res.indices, vec![3, 1, 2, 0]);
    assert_eq!(floats(&res.scores), vec![2.0, 1.5, 1.0, 0.5]);
}

#[test]
fn a_single_product_is_exact() {
    // Two vectors of eight coordinates with one-bit codes.
    let index = TurboQuantIndex::from_parts(
        Some(8),
        1,
        2,
        vec![0b1111_0000, 0b1111_1111],
        bits(&[1.0, 1.0]),
        bits(&[-1.0, 1.0]),
    )
    .unwrap();
    assert_eq!(
        index.reconstruct_db_i8_transposed(),
        vec![127, 127, 127, 127, 127, 127, 127, 127, -127, 127, -127, 127, -127, 127, -127, 127]
    );
    // Scores 0 and 8 * 127 * 127, scaled back by 1 / (127 * 127).
    let res = index.search_polyfill(&bits(&[1.0; 8]), &bits(&[0.0]), 2);
    assert_eq!(res.indices, vec![1, 0]);
    assert_eq!(floats(&res.scores), vec![129032.0 * (1.0 / 16129.0f32), 0.0]);
}

#[test]
fn a_query_finds_the_same_in_any_batch() {
    let (dim, n, nq, k) = (24usize, 120usize, 5usize, 9usize);
    let e = encode(&unit_vectors(n, dim, 51), n, dim, 3);
    let queries = bits(&unit_vectors(nq, dim, 52));
    let biases = bits(&[0.0, 0.1, -0.1, 0.2, 0.0]);
    let all = e.index.search_polyfill(&queries, &biases, k);
    assert_eq!((all.nq, all.k), (nq, k));
    for q in 0..nq {
        let one = e
            .index
            .search_polyfill(&queries[q * dim..(q + 1) * dim], &biases[q..q + 1], k);
        assert_eq!((one.nq, one.k), (1, k));
        assert_eq!(one.scores[..], all.scores[q * k..(q + 1) * k]);
        assert_eq!(one.indices[..], all.indices[q * k..(q + 1) * k]);
    }
}

#[test]
fn scores_approximate_the_inner_products() {
    let (dim, n) = (64usize, 50usize);
    let e = encode(&unit_vectors(n, dim, 61), n, dim, 8);
    let index = with_scales(&e, &vec![1.0; n]);
    let query = unit_vectors(1, dim, 62);
    let res = index.search_polyfill(&bits(&query), &bits(&[0.0]), n);
    for (score, &v) in floats(&res.scores).iter().zip(&res.indices) {
        let exact: f32 = (0..dim)
            .map(|d| query[d] * e.centroids[e.codes[v as usize * dim + d] as usize])
            .sum();
        assert!((score - exact).abs() < 0.02, "{score} against {exact}");
    }
}

#[test]
fn sums_beyond_32_bits_wrap_around() {
    let dim = 136_000usize;
    let index = TurboQuantIndex::from_parts(
        Some(dim),
        1,
        1,
        vec![0xff; dim / 8],
        bits(&[1.0]),
        bits(&[-1.0, 1.0]),
    )
    .unwrap();
    let res = index.search_polyfill(&bits(&vec![1.0; dim]), &bits(&[0.0]), 1);
    let wrapped = (dim as i64 * 127 * 127) as i32;
    assert!(wrapped < 0);
    assert_eq!(
        floats(&res.scores),
        vec![wrapped as f32 * (1.0 / (127.0f32 * 127.0))]
    );
}

#[test]
fn the_parts_of_an_index_are_read_back() {
    let e = encode(&unit_vectors(7, 16, 71), 7, 16, 3);
    assert_eq!(e.index.dim_opt(), Some(16));
    assert_eq!((e.index.len(), e.index.bit_width()), (7, 3));
    assert_eq!(e.index.packed_codes().len(), 7 * 3 * 2);
    assert_eq!(floats(e.index.scales()), e.scales);
    let unsettled =
        TurboQuantIndex::from_parts(None, 4, 0, Vec::new(), Vec::new(), Vec::new()).unwrap();
    assert_eq!((unsettled.dim_opt(), unsettled.len()), (None, 0));
}

#[test]
fn vectors_in_many_blocks_are_all_scored() {
    let (dim, n, nq, k) = (8usize, 9000usize, 2usize, 40usize);
    let e = encode(&unit_vectors(n, dim, 81), n, dim, 4);
    let queries = unit_vectors(nq, dim, 82);
    let biases = [0.0f32, 0.05];
    let db = e.index.reconstruct_db_i8_transposed();
    let res = e
        .index
        .search_polyfill_with_db(&bits(&queries), &bits(&biases), k, &db);
    let (scores, _) = reference_search(&e, &queries, &biases, k, &db);
    assert_eq!(floats(&res.scores), scores);
    let all = e
        .index
        .search_polyfill_with_db(&bits(&queries), &bits(&biases), n, &db);
    let (scores, _) = reference_search(&e, &queries, &biases, n, &db);
    assert_eq!(floats(&all.scores), scores);
    let mut seen = all.indices[..n].to_vec();
    seen.sort();
    assert_eq!(seen, (0..n as i64).collect::<Vec<i64>>());
}

#[test]
fn the_same_search_finds_the_same_again() {
    let (dim, n, nq, k) = (16usize, 200usize, 4usize, 50usize);
    // One-bit codes make many ranks equal.
    let e = encode(&unit_vectors(n, dim, 91), n, dim, 1);
    let index = with_scales(&e, &vec![1.0; n]);
    let queries = bits(&vec![1.0; nq * dim]);
    let biases = bits(&[0.0; 4]);
    let a = index.search_polyfill(&queries, &biases, k);
    let b = index.search_polyfill(&queries, &biases, k);
    assert_eq!(a.scores, b.scores);
    assert_eq!(a.indices, b.indices);
    assert_eq!((a.nq, a.k), (b.nq, b.k));
    assert!(a.scores[..k].windows(2).any(|w| w[0] == w[1]));
    // Equal queries of one batch get equal rows.
    assert_eq!(a.indices[..k], a.indices[k..2 * k]);
}

#[test]
fn doubled_queries_double_the_scores() {
    let (dim, n, nq, k) = (32usize, 150usize, 5usize, 12usize);
    let e = encode(&unit_vectors(n, dim, 101), n, dim, 4);
    let queries = unit_vectors(nq, dim, 102);
    let biases = [0.0f32, 0.0, 0.25, -0.125, 0.0];
    let double = |xs: &[f32]| -> Vec<f32> { xs.iter().map(|x| 2.0 * x).collect() };
    let a = e
        .index
        .search_polyfill(&bits(&queries), &bits(&biases), k);
    let b = e
        .index
        .search_polyfill(&bits(&double(&queries)), &bits(&double(&biases)), k);
    assert_eq!(a.indices, b.indices);
    assert_eq!(double(&floats(&a.scores)), floats(&b.scores));
}

#[test]
fn fewer_results_are_the_first_of_more() {
    let (dim, n, nq) = (16usize, 90usize, 3usize);
    let e = encode(&unit_vectors(n, dim, 111), n, dim, 2);
    let queries = bits(&unit_vectors(nq, dim, 112));
    let biases = bits(&[0.0, 0.1, -0.2]);
    for (few, more) in [(1, 2), (5, 30), (30, 90), (90, 500)] {
        let a = e.index.search_polyfill(&queries, &biases, few);
        let b = e.index.search_polyfill(&queries, &biases, more);
        for q in 0..nq {
            let head = q * b.k..q * b.k + a.k;
            assert_eq!(
                floats(&a.scores[q * a.k..(q + 1) * a.k]),
                floats(&b.scores[head])
            );
        }
    }
}
