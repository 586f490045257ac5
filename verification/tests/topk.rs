use turbovec::binary32::Binary32;
use turbovec::topk::{argmin_f32, top_k_from_row};

fn b(x: f32) -> Binary32 {
    Binary32::from_bits(x.to_bits())
}

fn bs(xs: &[f32]) -> Vec<Binary32> {
    xs.iter().map(|&x| b(x)).collect()
}

fn top(row: &[i32], scales: &[f32], inv: f32, bias: f32, k: usize) -> (Vec<f32>, Vec<i64>) {
    let (scores, indices) = top_k_from_row(row, &bs(scales), b(inv), b(bias), k);
    (
        scores.iter().map(|s| f32::from_bits(s.to_bits())).collect(),
        indices,
    )
}

#[test]
fn argmin_takes_the_first_of_equals() {
    let (i, x) = argmin_f32(&bs(&[3.0, 1.0, 2.0, 1.0]));
    assert_eq!((i, x.to_bits()), (1, 1.0f32.to_bits()));
    let (i, _) = argmin_f32(&bs(&[0.0, -0.0]));
    assert_eq!(i, 0);
    let (i, _) = argmin_f32(&bs(&[f32::INFINITY, f32::NEG_INFINITY, -1.0]));
    assert_eq!(i, 1);
}

#[test]
fn argmin_tolerates_nan() {
    let (i, x) = argmin_f32(&bs(&[2.0, f32::NAN, 1.0]));
    assert_eq!((i, x.to_bits()), (2, 1.0f32.to_bits()));
    let (i, x) = argmin_f32(&bs(&[f32::NAN, 1.0]));
    assert_eq!(i, 0);
    assert!(x.is_nan());
}

#[test]
fn rank_is_the_scaled_and_corrected_score_times_the_weight() {
    let (scores, indices) = top(&[10, -4, 7], &[1.0, 2.0, 0.5], 0.25, 1.5, 3);
    assert_eq!(indices, vec![0, 2, 1]);
    assert_eq!(scores, vec![4.0, 1.625, 1.0]);
}

#[test]
fn best_k_come_from_the_greatest_down() {
    let row = [5, 1, 9, 3, 7, 2, 8];
    let ones = [1.0; 7];
    let (scores, indices) = top(&row, &ones, 1.0, 0.0, 3);
    assert_eq!(indices, vec![2, 6, 4]);
    assert_eq!(scores, vec![9.0, 8.0, 7.0]);
}

#[test]
fn fewer_scores_than_asked_for_are_all_returned() {
    let (scores, indices) = top(&[1, 2], &[1.0, 1.0], 1.0, 0.0, 5);
    assert_eq!(indices, vec![1, 0]);
    assert_eq!(scores, vec![2.0, 1.0]);
}

#[test]
fn a_greater_rank_takes_the_first_of_the_least_slots() {
    let (_, mut indices) = top(&[1, 1, 2], &[1.0; 3], 1.0, 0.0, 2);
    indices.sort();
    assert_eq!(indices, vec![1, 2]);
    let (_, mut indices) = top(&[1, 1, 1], &[1.0; 3], 1.0, 0.0, 2);
    indices.sort();
    assert_eq!(indices, vec![0, 1]);
}

#[test]
fn nan_ranks_come_last() {
    let (scores, indices) = top(&[1, 2, 3], &[1.0, f32::NAN, 1.0], 1.0, 0.0, 3);
    assert_eq!(indices, vec![2, 0, 1]);
    assert!(scores[2].is_nan());
}

#[test]
fn ranks_follow_scores_at_equal_weight() {
    let row: Vec<i32> = (0..200).map(|i| (i * 7919) % 10_007 - 5000).collect();
    let (scores, indices) = top(&row, &[0.75; 200], 3.1e-5, -0.01, 200);
    for pair in indices.windows(2) {
        assert!(row[pair[0] as usize] >= row[pair[1] as usize]);
    }
    for pair in scores.windows(2) {
        assert!(pair[0] >= pair[1]);
    }
}

#[test]
fn nothing_left_out_is_better_than_what_is_listed() {
    let row: Vec<i32> = (0..500).map(|i| (i * 7919) % 1009).collect();
    let weights: Vec<f32> = (0..500).map(|i| 0.5 + (i % 13) as f32 / 8.0).collect();
    let (scores, indices) = top(&row, &weights, 0.01, 0.3, 25);
    assert_eq!(scores.len(), 25);
    let mut seen = indices.clone();
    seen.sort();
    seen.dedup();
    assert_eq!(seen.len(), 25);
    for v in 0..500usize {
        let rank = (row[v] as f32 * 0.01 + 0.3) * weights[v];
        match indices.iter().position(|&i| i == v as i64) {
            Some(j) => assert_eq!(scores[j], rank),
            None => assert!(rank <= scores[24]),
        }
    }
}

#[test]
fn the_best_none_are_nothing() {
    assert_eq!(top(&[5], &[1.0], 1.0, 0.0, 0), (vec![], vec![]));
    assert_eq!(top(&[], &[], 1.0, 0.0, 0), (vec![], vec![]));
    assert_eq!(top(&[], &[1.0], 1.0, 0.0, 3), (vec![], vec![]));
}

#[test]
fn equal_ranks_come_in_the_order_of_their_slots() {
    assert_eq!(top(&[1, 1, 1], &[1.0; 3], 1.0, 0.0, 2).1, vec![0, 1]);
    assert_eq!(top(&[4, 4, 4, 4], &[1.0; 4], 1.0, 0.0, 4).1, vec![0, 1, 2, 3]);
    // The third takes the first slot, before that of the second.
    assert_eq!(top(&[0, 5, 5], &[1.0; 3], 1.0, 0.0, 2).1, vec![2, 1]);
}

#[test]
fn doubled_scale_and_bias_double_the_ranks() {
    let row: Vec<i32> = (0..300).map(|i| (i * 7919) % 2003 - 1000).collect();
    let weights: Vec<f32> = (0..300).map(|i| 0.5 + (i % 7) as f32 / 4.0).collect();
    for k in [1, 17, 300] {
        let (scores, indices) = top(&row, &weights, 3.1e-3, 0.2, k);
        let (doubled, same) = top(&row, &weights, 2.0 * 3.1e-3, 2.0 * 0.2, k);
        assert_eq!(indices, same);
        let twice: Vec<f32> = scores.iter().map(|s| 2.0 * s).collect();
        assert_eq!(doubled, twice);
    }
}

#[test]
fn fewer_ranks_are_the_first_of_more() {
    let row: Vec<i32> = (0..100).map(|i| (i * 31) % 17 - 8).collect();
    let (all, _) = top(&row, &[0.5; 100], 0.1, 0.0, 100);
    for k in 0..100 {
        let (scores, _) = top(&row, &[0.5; 100], 0.1, 0.0, k);
        assert_eq!(scores[..], all[..k]);
    }
}
