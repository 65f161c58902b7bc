use mizu::collatz_scan::{Measure, bit_length, measure, measure_scan, b1_scan, peak_scan, overlap_count,
    transform_scan, is_prefix_u32, count_multiples_of_3};
use mizu::collatz::subtree_size;
use mizu::collatz_report::{new_cache, stop_of, predictor_delta, predictor_next, predictor_class, collapse_prefix,
    collapse_class, binary_buckets};
use mizu::collatz_inverse::{pow3_u128, pow2_u128, inverse_start, walk_exponents, confirm_suffixes, vsum,
    full_start, inverse_report, cycle_from_v_seq, find_cycles_k, enumerate_tree, coverage_gaps};

#[test]
fn bit_length_values() {
    assert_eq!(bit_length(0), 0);
    assert_eq!(bit_length(1), 1);
    assert_eq!(bit_length(255), 8);
    assert_eq!(bit_length(256), 9);
    assert_eq!(bit_length(u64::MAX), 64);
}

#[test]
fn measures_of_27() {
    assert_eq!(measure(Measure::XY, 27), 2);
    assert_eq!(measure(Measure::XYPop, 27), 4);
    assert_eq!(measure(Measure::XBits, 27), 5);
    assert_eq!(measure(Measure::XYBits, 27), 5);
    assert_eq!(measure(Measure::XYTz, 27), 4);
}

#[test]
fn measure_scans_up_to_100() {
    assert_eq!(measure_scan(Measure::XY, 100), (24, 5));
    assert_eq!(measure_scan(Measure::XYPop, 100), (29, 3));
    assert_eq!(measure_scan(Measure::XBits, 100), (84, 3));
    assert_eq!(measure_scan(Measure::XYBits, 100), (35, 3));
    assert_eq!(measure_scan(Measure::XYTz, 100), (30, 3));
    assert_eq!(measure_scan(Measure::XY, 2), (0, 0));
}

#[test]
fn b1_scan_up_to_100() {
    assert_eq!(b1_scan(100), (24, 7, 5));
    assert_eq!(b1_scan(1), (0, 0, 0));
}

#[test]
fn peak_scan_up_to_50() {
    let (checked, violations, shown) = peak_scan(50);
    assert_eq!(checked, 24);
    assert_eq!(violations, 17);
    assert_eq!(shown, vec![5, 9, 13, 17, 19]);
    let (c0, v0, s0) = peak_scan(2);
    assert_eq!((c0, v0, s0.len()), (0, 0, 0));
}

#[test]
fn overlap_of_small_trees() {
    let tree = vec![vec![1u64], vec![2, 3]];
    let other = vec![vec![3u64], vec![7]];
    assert_eq!(overlap_count(&tree, 2, 1, &other), 2);
    assert_eq!(overlap_count(&tree, 4, 0, &other), 0);
}

#[test]
fn transform_scan_matches_subtree_sizes() {
    let (yes, no) = transform_scan(8, 3, 3);
    let mut y = 0u64;
    let mut n = 0u64;
    let mut r = 1u64;
    while r <= 63 {
        if subtree_size(r, 3) == subtree_size(8 * r + 3, 3) { y += 1; } else { n += 1; }
        r += 2;
    }
    assert_eq!((yes, no), (y, n));
    assert_eq!(yes + no, 32);
}

#[test]
fn prefix_and_multiples() {
    assert!(is_prefix_u32(&vec![1, 2, 3], &vec![1, 2]));
    assert!(!is_prefix_u32(&vec![1, 2, 3], &vec![2]));
    assert!(!is_prefix_u32(&vec![1], &vec![1, 2]));
    assert_eq!(count_multiples_of_3(&vec![3, 4, 6, 9, 10]), 3);
}

#[test]
fn stopping_time_through_cache() {
    let mut cache = new_cache(50);
    assert_eq!(cache.len(), 50);
    assert_eq!(stop_of(27, &mut cache), 111);
    assert_eq!(stop_of(27, &mut cache), 111);
    assert_eq!(stop_of(1, &mut cache), 0);
    assert_eq!(new_cache(200_000_000).len(), 100_000_000);
}

#[test]
fn predictor_table() {
    assert_eq!(predictor_delta(0), 4);
    assert_eq!(predictor_delta(3), 5);
    assert_eq!(predictor_delta(14), 1);
    assert_eq!(predictor_next(32), 2);
    assert_eq!(predictor_next(5), 4);
    assert_eq!(predictor_next(3), 1);
    assert_eq!(predictor_next(12), 3);
}

#[test]
fn predictor_classes_up_to_100() {
    let mut cache = new_cache(100);
    let c0 = predictor_class(100, 0, &mut cache);
    assert_eq!((c0.count, c0.err_sum, c0.err_max, c0.s_sum), (6, 0, 0, 47));
    let c1 = predictor_class(100, 1, &mut cache);
    assert_eq!((c1.count, c1.err_sum, c1.err_max, c1.s_sum), (7, 3, 3, 229));
    let c3 = predictor_class(100, 3, &mut cache);
    assert_eq!((c3.count, c3.err_sum, c3.err_max, c3.s_sum), (7, 8, 2, 226));
    let c7 = predictor_class(100, 7, &mut cache);
    assert_eq!((c7.count, c7.err_sum, c7.err_max, c7.s_sum), (6, 236, 100, 309));
}

#[test]
fn five_move_prediction() {
    assert_eq!(collapse_prefix(27), (71, 9));
    assert_eq!(collapse_prefix(1), (1, 0));
    assert_eq!(collapse_prefix(8), (1, 3));
    let mut cache = new_cache(200);
    assert_eq!(collapse_class(200, 3, &mut cache), (7, 0, 0));
    assert_eq!(collapse_class(200, 0, &mut cache), (6, 0, 0));
}

#[test]
fn buckets_up_to_10() {
    let mut cache = new_cache(10);
    let (by_ones, by_tz) = binary_buckets(10, &mut cache);
    assert_eq!(by_ones.len(), 65);
    assert_eq!(by_tz.len(), 33);
    assert_eq!(by_ones[1], vec![0, 1, 2, 3]);
    assert_eq!(by_ones[2], vec![7, 5, 8, 19, 6]);
    assert_eq!(by_ones[3], vec![16]);
    assert_eq!(by_tz[0], vec![0, 7, 5, 16, 19]);
    assert_eq!(by_tz[1], vec![1, 8, 6]);
    assert_eq!(by_tz[3], vec![3]);
}

#[test]
fn powers_in_128_bits() {
    assert_eq!(pow3_u128(0), 1);
    assert_eq!(pow3_u128(5), 243);
    assert_eq!(pow3_u128(80), 147808829414345923316083210206383297601);
    assert_eq!(pow2_u128(127), Some(1u128 << 127));
    assert_eq!(pow2_u128(128), None);
}

#[test]
fn inverse_formula_small() {
    assert_eq!(inverse_start(&[4]), Some(5));
    assert_eq!(inverse_start(&[1, 4]), Some(3));
    assert_eq!(inverse_start(&[1]), None);
    assert_eq!(walk_exponents(3, &[1, 4]), 1);
    assert_eq!(vsum(&[1, 4, 2]), 7);
    assert_eq!(confirm_suffixes(&[1, 4]), vec![(1, 5, 4), (2, 3, 5)]);
    assert_eq!(full_start(&[1, 4]), Some(3));
}

#[test]
fn inverse_report_of_3() {
    let r = inverse_report(3, 10);
    assert_eq!(r.v_seq, vec![1, 4]);
    assert_eq!(r.k, 2);
    assert_eq!(r.confirmed, vec![(1, 5, 4), (2, 3, 5)]);
    assert_eq!(r.full, Some(3));
    assert_eq!(r.full_v, 5);
}

#[test]
fn cycle_search_small() {
    let mut targets: Vec<u128> = Vec::new();
    let mut found = false;
    cycle_from_v_seq(1, &[2], &mut targets, &mut found);
    assert!(targets.is_empty());
    assert!(!found);
    for k in 1..=4usize {
        let base = vec![0u32; k];
        find_cycles_k(k, 0, &base, &mut targets, &mut found);
    }
    assert!(targets.is_empty());
    assert!(!found);
    let base = vec![0u32; 9];
    find_cycles_k(9, 0, &base, &mut targets, &mut found);
    assert!(targets.is_empty());
}

#[test]
fn inverse_tree_up_to_100() {
    let limit = 100u64;
    let mut covered = vec![0u64; ((limit as usize) + 63) / 64];
    let mut total = 0u64;
    let mut max_n = 0u64;
    let mut buf = vec![0u32; 4];
    let expected = [(4u64, 85u64), (7, 85), (11, 85), (15, 93)];
    for k in 1..=4usize {
        enumerate_tree(k, 0, &mut buf, 0, 0, &mut covered, limit, &mut total, &mut max_n);
        assert_eq!((total, max_n), expected[k - 1]);
    }
    assert_eq!(covered, vec![9042417997195306u64, 538970144]);
    let (first, gaps) = coverage_gaps(&covered, limit);
    assert_eq!(first, 7);
    assert_eq!(gaps, vec![7, 9, 15, 19, 25, 27, 29, 31, 33, 37, 39, 41, 43, 47, 49, 51, 55, 57, 59, 61]);
}
