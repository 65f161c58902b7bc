use mizu::collatz::{compute_peak_b1, compute_v_seq, compute_v_sequence, condensed_collatz, decompose_branch, parity_sequence, peak, popcount, predict_trailing_zeros, predict_tz_u128, preimages_condensed, stopping_time_cached, stopping_time_vec, trailing_zeros, trailing_zeros_u128, verify_n0_consistency};
use std::collections::HashMap;

#[test]
fn peak_and_parity_of_small_orbits() {
    assert_eq!(peak(27), 9232);
    assert_eq!(peak(1), 1);
    assert_eq!(peak(6), 16);
    assert_eq!(parity_sequence(6), vec![0, 1, 0, 1, 0, 0, 0, 0]);
    assert!(parity_sequence(1).is_empty());
}

#[test]
fn stopping_times_with_either_cache_agree() {
    let mut map = HashMap::new();
    let mut v = vec![0u64; 64];
    assert_eq!(stopping_time_cached(27, &mut map), 111);
    assert_eq!(stopping_time_vec(27, &mut v), 111);
    assert_eq!(stopping_time_cached(1, &mut map), 0);
    assert_eq!(stopping_time_cached(6, &mut map), 8);
    assert_eq!(stopping_time_vec(6, &mut v), 8);
    assert_eq!(v[6], 8);
    assert_eq!(map.get(&27), Some(&111));
    for n in 1..200u64 {
        assert_eq!(stopping_time_cached(n, &mut map), stopping_time_vec(n, &mut v));
    }
}

#[test]
fn bit_counts() {
    assert_eq!(popcount(0), 0);
    assert_eq!(popcount(255), 8);
    assert_eq!(popcount(u64::MAX), 64);
    assert_eq!(trailing_zeros(8), 3);
    assert_eq!(trailing_zeros(0), 64);
    assert_eq!(trailing_zeros_u128(1 << 100), 100);
    assert_eq!(trailing_zeros_u128(0), 128);
    for n in [1u64, 2, 12, 40, 1 << 63] {
        assert_eq!(trailing_zeros(n), n.trailing_zeros());
    }
}

#[test]
fn predicted_trailing_zeros_match_for_odd_numbers() {
    // for odd n, the first repeated bit predicts the trailing zeros of 3n + 1
    for n in [1u64, 3, 5, 7, 9, 11, 13, 27, 31] {
        assert_eq!(predict_trailing_zeros(n), (3 * n + 1).trailing_zeros());
        assert_eq!(predict_tz_u128(n as u128), (3 * n + 1).trailing_zeros());
    }
    assert_eq!(predict_trailing_zeros(0x5555_5555_5555_5555), 64);
    assert_eq!(predict_trailing_zeros(0), 1);
}

#[test]
fn condensed_map() {
    assert_eq!(condensed_collatz(1), 1);
    assert_eq!(condensed_collatz(8), 4);
    assert_eq!(condensed_collatz(7), 11);
    assert_eq!(condensed_collatz(5), 1);
}

#[test]
fn branch_decomposition_rebuilds_n() {
    assert_eq!(decompose_branch(12), (2, 2, 0));
    assert_eq!(decompose_branch(7), (0, 3, 0));
    assert_eq!(decompose_branch(1), (0, 1, 0));
    for n in 1..500u64 {
        let (y, x, r) = decompose_branch(n);
        assert_eq!(n, (1u64 << y) * ((1u64 << x) * (2 * r + 1) - 1));
    }
}

#[test]
fn v_sequences() {
    assert_eq!(compute_v_sequence(5, 10), (vec![4], 1));
    assert_eq!(compute_v_sequence(3, 10), (vec![1, 4], 2));
    assert_eq!(compute_v_sequence(3, 1), (vec![1], 1));
    assert_eq!(compute_v_sequence(12, 10), (vec![1, 4], 2));
    let mut memo = HashMap::new();
    assert_eq!(compute_v_seq(3, &mut memo), vec![1, 4]);
    assert_eq!(compute_v_seq(12, &mut memo), vec![1, 4]);
    assert_eq!(memo.get(&3), Some(&vec![1, 4]));
    assert!(compute_v_seq(1, &mut memo).is_empty());
}

#[test]
fn branch_peaks() {
    let mut memo = HashMap::new();
    assert_eq!(compute_peak_b1(1, &mut memo), 1);
    // 3 = 2^0 (2^2 * 1 - 1): b = 2; 5 -> 1: 5 = 2^1 * 3 - 1, b = 1
    assert_eq!(compute_peak_b1(5, &mut memo), 1);
    assert_eq!(compute_peak_b1(3, &mut memo), 2);
    assert_eq!(memo.get(&3), Some(&2));
}

#[test]
fn preimages_of_one() {
    assert_eq!(preimages_condensed(1, 10), vec![2, 1, 5, 21, 85, 341]);
    assert_eq!(preimages_condensed(1, 0), vec![2]);
    assert_eq!(preimages_condensed(5, 4), vec![10, 3, 13]);
    for m in preimages_condensed(11, 30) {
        assert_eq!(condensed_collatz(m), 11);
    }
}

#[test]
fn n0_consistency() {
    assert!(verify_n0_consistency(5, 1, &[], 4));
    assert!(!verify_n0_consistency(5, 1, &[], 2));
    assert!(verify_n0_consistency(3, 2, &[1], 4));
    assert!(!verify_n0_consistency(4, 2, &[1], 4));
}

#[test]
fn stopping_time_of_a_large_power_of_two() {
    let mut cache = vec![0u64; 16];
    assert_eq!(stopping_time_vec(1u64 << 63, &mut cache), 63);
}

#[test]
fn first_repeated_bit_gives_trailing_zeros_of_3n_plus_1() {
    for n in [1u64, 3, 5, 7, 9, 21, 27, 85, 341, 0x5555_5555_5555_5553, 0x1234_5678_9abc_def1] {
        assert_eq!(predict_trailing_zeros(n), trailing_zeros(3 * n + 1), "n = {}", n);
    }
}
