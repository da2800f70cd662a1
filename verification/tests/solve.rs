use srp_phat::codec::MAX_SOURCES_CAP;
use srp_phat::solve::{
    check_solve_inputs, combinations, rank_by_score, strongest_bin, SolveError, MAX_COMBOS,
};

#[test]
fn combinations_enumerate_cartesian_product() {
    let pairs = vec![vec![1.0, 2.0], vec![3.0], vec![4.0, 5.0]];
    let combos = combinations(&pairs, MAX_COMBOS);
    assert_eq!(combos.len(), 4);
    assert!(combos.contains(&vec![1.0, 3.0, 4.0]));
    assert!(combos.contains(&vec![2.0, 3.0, 5.0]));
}

#[test]
fn combinations_respect_cap() {
    let pairs = vec![vec![0.0; 100], vec![0.0; 100], vec![0.0; 100]];
    assert_eq!(combinations(&pairs, 50).len(), 50);
}

#[test]
fn combination_cost_stays_bounded() {
    let max_sources = MAX_SOURCES_CAP.min(4);
    let n_emp = 4usize;
    let worst = max_sources.pow((n_emp - 1) as u32);
    assert!(
        worst <= MAX_COMBOS,
        "combination count {worst} exceeds cap {}",
        MAX_COMBOS
    );
}

// ---------------------------------------------------------------------------

#[test]
fn combinations_follow_mixed_radix_order() {
    let pairs = vec![vec![1u32, 2], vec![10, 20, 30]];
    let combos = combinations(&pairs, MAX_COMBOS);
    assert_eq!(
        combos,
        vec![
            vec![1, 10],
            vec![2, 10],
            vec![1, 20],
            vec![2, 20],
            vec![1, 30],
            vec![2, 30]
        ]
    );
}

#[test]
fn combinations_of_no_lists_is_one_empty_choice() {
    let pairs: Vec<Vec<u8>> = vec![];
    assert_eq!(combinations(&pairs, 10), vec![Vec::<u8>::new()]);
    assert_eq!(combinations(&pairs, 0).len(), 0);
}

#[test]
fn combinations_with_zero_cap_accept_an_empty_list() {
    let pairs: Vec<Vec<u8>> = vec![vec![], vec![1]];
    assert!(combinations(&pairs, 0).is_empty());
}

#[test]
fn solve_inputs_are_checked_in_order() {
    let fs = 4_000.0f64.to_bits();
    assert!(matches!(check_solve_inputs(1, 4, fs), Err(SolveError::TooFewEmplacements)));
    assert!(matches!(check_solve_inputs(4, 1, fs), Err(SolveError::TooFewEmplacements)));
    assert!(matches!(check_solve_inputs(3, 4, fs), Err(SolveError::ShapeMismatch)));
    assert!(matches!(check_solve_inputs(4, 4, 0.0f64.to_bits()), Err(SolveError::BadSampleRate)));
    assert!(matches!(check_solve_inputs(4, 4, (-0.0f64).to_bits()), Err(SolveError::BadSampleRate)));
    assert!(matches!(check_solve_inputs(4, 4, (-1.0f64).to_bits()), Err(SolveError::BadSampleRate)));
    assert!(matches!(check_solve_inputs(4, 4, f64::INFINITY.to_bits()), Err(SolveError::BadSampleRate)));
    assert!(matches!(check_solve_inputs(4, 4, f64::NAN.to_bits()), Err(SolveError::BadSampleRate)));
    assert!(check_solve_inputs(4, 4, fs).is_ok());
    assert!(check_solve_inputs(2, 2, f64::MIN_POSITIVE.to_bits()).is_ok());
}

#[test]
fn rank_by_score_is_a_stable_descending_sort() {
    let scores: Vec<u64> = [0.5f64, 2.0, -1.0, 2.0, 0.5, 3.0].iter().map(|v| v.to_bits()).collect();
    assert_eq!(rank_by_score(&scores), vec![5, 1, 3, 0, 4, 2]);
}

#[test]
fn rank_by_score_matches_total_cmp_sort() {
    let vals = [0.0f64, -0.0, 1.5, f64::NAN, -3.0, f64::INFINITY, 1.5, -f64::NAN];
    let scores: Vec<u64> = vals.iter().map(|v| v.to_bits()).collect();
    let mut expected: Vec<usize> = (0..vals.len()).collect();
    expected.sort_by(|a, b| vals[*b].total_cmp(&vals[*a]));
    assert_eq!(rank_by_score(&scores), expected);
}

#[test]
fn strongest_bin_skips_dc_and_keeps_the_first_maximum() {
    let mags: Vec<u64> = [9.0f64, 1.0, 4.0, 2.0, 4.0].iter().map(|v| v.to_bits()).collect();
    assert_eq!(strongest_bin(&mags), 2);
    assert_eq!(strongest_bin(&[5.0f64.to_bits()]), 1);
    assert_eq!(strongest_bin(&[]), 1);
    let nans = vec![f64::NAN.to_bits(); 3];
    assert_eq!(strongest_bin(&nans), 1);
}
