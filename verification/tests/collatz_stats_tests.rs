use mizu::collatz_inverse::{suffixes_fit_check, v_run_fits_check, walk_fits_check};
use mizu::collatz_report::new_cache;
use mizu::collatz_stats::{carry_histogram, carry_row, cycle_in_walk, exponent_counts, find_cycles_up_to, ml_row,
    parity_runs, probe_walk, record_holders, stop_diffs};

#[test]
fn carry_row_of_27_adds_27_and_13_and_1() {
    let (carries, sum) = carry_row(27);
    assert_eq!(carries, vec![1, 1, 1, 1, 1]);
    assert_eq!(sum, vec![1, 0, 1, 0, 0, 1]);
    let value = sum.iter().fold(0u64, |acc, b| 2 * acc + *b as u64);
    assert_eq!(value, 27 + 13 + 1);
}

#[test]
fn carry_row_of_one() {
    let (carries, sum) = carry_row(1);
    assert_eq!(carries, vec![1]);
    assert_eq!(sum, vec![1, 0]);
}

#[test]
fn carry_histogram_up_to_ten() {
    let (counts, least) = carry_histogram(10);
    assert_eq!(counts.len(), 65);
    assert_eq!((counts[1], least[1]), (2, 3));
    assert_eq!((counts[2], least[2]), (2, 1));
    assert_eq!((counts[3], least[3]), (0, 0));
    assert_eq!((counts[4], least[4]), (1, 5));
    assert_eq!(counts.iter().sum::<u64>(), 5);
}

#[test]
fn record_holders_up_to_ten() {
    let mut cache = new_cache(10);
    assert_eq!(record_holders(10, &mut cache), vec![(2, 1), (3, 7), (6, 8), (7, 16), (9, 19)]);
}

#[test]
fn stop_diffs_up_to_five() {
    let mut cache = new_cache(6);
    let (hist, classes) = stop_diffs(5, &mut cache);
    assert_eq!(hist, vec![(-5, 1), (1, 1), (3, 1), (6, 1)]);
    assert_eq!(classes, vec![(3, 1), (1, 1), (6, 1), (-5, 1)]);
}

#[test]
fn parity_runs_up_to_three() {
    let (zeros, ones, runs) = parity_runs(3);
    assert_eq!((zeros, ones), (6, 2));
    assert_eq!(runs, vec![1, 1, 1, 1, 4]);
}

#[test]
fn ml_row_of_27() {
    let r = ml_row(27, 111);
    assert_eq!((r.n, r.steps, r.popcount, r.trailing_zeros, r.leading_zeros, r.bit_length), (27, 111, 4, 0, 59, 5));
    assert_eq!((r.trailing_ones, r.parity_code), (2, 59));
    assert_eq!((r.mod2, r.mod4, r.mod8, r.mod16, r.mod32), (1, 3, 3, 11, 27));
    assert_eq!((r.mersenne_distance, r.power_of_two_distance), (4, 5));
    assert_eq!((r.odd_steps, r.even_steps, r.peak_value), (41, 29, 4616));
}

#[test]
fn probe_walk_of_27_reaches_one() {
    let (rows, end) = probe_walk(27);
    assert_eq!(rows.len(), 41);
    assert_eq!((end.x, end.odd_steps, end.even_steps, end.peak), (1, 41, 0, 3077));
    assert_eq!((rows[0].x, rows[0].predicted, rows[0].shift, rows[0].next), (27, 1, 1, 41));
    assert_eq!((rows[1].x, rows[1].shift, rows[1].next), (41, 2, 31));
}

#[test]
fn probe_walk_of_an_even_start() {
    let (rows, end) = probe_walk(12);
    assert_eq!(rows.len(), 3);
    assert_eq!((rows[0].x, rows[0].predicted, rows[0].shift, rows[0].next), (12, 0, 2, 3));
    assert_eq!((end.x, end.odd_steps, end.even_steps, end.peak), (1, 2, 1, 12));
}

#[test]
fn no_cycle_below_a_thousand() {
    assert_eq!(cycle_in_walk(27), None);
    assert!(find_cycles_up_to(1000).is_empty());
}

#[test]
fn exponent_counts_counts_each_value() {
    let c = exponent_counts(&vec![1, 2, 1, 4]);
    assert_eq!((c[0], c[1], c[2], c[3], c[4]), (0, 2, 1, 0, 1));
    assert_eq!(c.len(), 65);
}

#[test]
fn five_move_prediction_is_exact_in_every_class() {
    let mut cache = new_cache(2000);
    for r in 0..32u64 {
        let (_, sum, max) = mizu::collatz_report::collapse_class(2000, r, &mut cache);
        assert_eq!((sum, max), (0, 0), "r = {}", r);
    }
}

#[test]
fn inverse_formula_rebuilds_odd_starts() {
    for n in [3u64, 7, 27, 97, 871] {
        let (vs, _) = mizu::collatz::compute_v_sequence(n as u128, 200);
        assert_eq!(mizu::collatz_inverse::inverse_start(&vs), Some(n as u128), "n = {}", n);
        assert_eq!(mizu::collatz_inverse::full_start(&vs), Some(n as u128), "n = {}", n);
    }
}

#[test]
fn fit_checks_accept_small_walks_and_refuse_overflow() {
    assert!(v_run_fits_check(27, 50));
    assert!(!v_run_fits_check(u128::MAX, 5));
    assert!(!walk_fits_check(u128::MAX / 3, &[1]));
    assert!(walk_fits_check(5, &[4]));
    let (vs, _) = mizu::collatz::compute_v_sequence(27, 50);
    assert!(suffixes_fit_check(&vs));
}

#[test]
fn condensed_trajectory_and_waves_of_27() {
    let traj = mizu::collatz_stats::condensed_trajectory(27, 200);
    assert_eq!(traj.len(), 42);
    assert_eq!(&traj[..6], &[27, 41, 31, 47, 71, 107]);
    assert_eq!(*traj.last().unwrap(), 1);
    assert_eq!(mizu::collatz_stats::condensed_trajectory(27, 3), vec![27, 41, 31]);
    assert_eq!(mizu::collatz_stats::condensed_trajectory(6, 3), vec![6, 3, 5]);
    let waves = mizu::collatz_stats::branch_waves(&traj);
    assert_eq!(waves.len(), 10);
    assert_eq!(&waves[..4], &[(41, 5, 10), (161, 1, 40), (137, 3, 34), (233, 4, 58)]);
}
