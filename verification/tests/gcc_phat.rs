use srp_phat::gcc_phat::{wrap_lag, CorrTable};

fn row(vals: &[f64]) -> Vec<u64> {
    vals.iter().map(|v| v.to_bits()).collect()
}

#[test]
fn pair_index_upper_triangular() {
    let g = CorrTable::from_correlations(8, 4, vec![vec![0u64; 8]; 6]).unwrap();
    assert_eq!(g.pair_index(0, 1), 0);
    assert_eq!(g.pair_index(0, 3), 2);
    assert_eq!(g.pair_index(1, 2), 3);
    assert_eq!(g.pair_index(2, 3), 5);
}

// ---------------------------------------------------------------------------

#[test]
fn pair_index_enumerates_all_pairs_in_order() {
    let n = 6;
    let g = CorrTable::from_correlations(4, n, vec![vec![0u64; 4]; 15]).unwrap();
    let mut expected = 0;
    for i in 0..n {
        for j in (i + 1)..n {
            assert_eq!(g.pair_index(i, j), expected);
            expected += 1;
        }
    }
    assert_eq!(expected, 15);
}

#[test]
fn table_shape_is_checked() {
    assert!(CorrTable::from_correlations(8, 4, vec![vec![0u64; 8]; 5]).is_none());
    assert!(CorrTable::from_correlations(8, 3, vec![vec![0u64; 8], vec![0u64; 7], vec![0u64; 8]]).is_none());
    assert!(CorrTable::from_correlations(0, 2, vec![vec![]]).is_none());
    assert!(CorrTable::from_correlations(8, 0, vec![]).is_some());
    assert!(CorrTable::from_correlations(8, 1, vec![]).is_some());
}

#[test]
fn wrap_lag_is_the_non_negative_remainder() {
    assert_eq!(wrap_lag(0, 8), 0);
    assert_eq!(wrap_lag(13, 8), 5);
    assert_eq!(wrap_lag(-1, 8), 7);
    assert_eq!(wrap_lag(-8, 8), 0);
    assert_eq!(wrap_lag(-13, 8), 3);
    assert_eq!(wrap_lag(i64::MIN, 8), 0);
    assert_eq!(wrap_lag(i64::MIN, 3), 1);
}

#[test]
fn at_reads_circularly() {
    let vals: Vec<f64> = (0..8).map(|k| k as f64).collect();
    let g = CorrTable::from_correlations(8, 2, vec![row(&vals)]).unwrap();
    assert_eq!(f64::from_bits(g.at(0, 1, 3)), 3.0);
    assert_eq!(f64::from_bits(g.at(0, 1, -3)), 5.0);
    assert_eq!(f64::from_bits(g.at(0, 1, 11)), 3.0);
}

#[test]
fn peak_lag_finds_first_maximum_as_signed_lag() {
    // lag -3 is index 5.
    let vals = [0.1, 0.2, 0.0, 0.0, 0.0, 0.9, 0.3, 0.9];
    let g = CorrTable::from_correlations(8, 2, vec![row(&vals)]).unwrap();
    // scanned lags -4..4: indices 4,5,6,7,0,1,2,3 → first 0.9 at lag -3.
    assert_eq!(g.peak_lag(0, 1), -3);
}

#[test]
fn peak_lag_reports_the_half_length_lag_as_positive() {
    let mut vals = [0.0f64; 8];
    vals[4] = 1.0;
    let g = CorrTable::from_correlations(8, 2, vec![row(&vals)]).unwrap();
    assert_eq!(g.peak_lag(0, 1), 4);
}

#[test]
fn peak_lag_of_all_nan_is_zero() {
    let g = CorrTable::from_correlations(4, 2, vec![vec![f64::NAN.to_bits(); 4]]).unwrap();
    assert_eq!(g.peak_lag(0, 1), 0);
}

#[test]
fn pooled_max_takes_the_window_maximum() {
    let vals = [0.0, 0.1, 0.2, 0.3, 0.8, 0.3, 0.2, 0.1];
    let g = CorrTable::from_correlations(8, 2, vec![row(&vals)]).unwrap();
    assert_eq!(f64::from_bits(g.pooled_max(0, 1, 0, 0)), 0.0);
    assert_eq!(f64::from_bits(g.pooled_max(0, 1, 0, 2)), 0.2);
    assert_eq!(f64::from_bits(g.pooled_max(0, 1, 0, 4)), 0.8);
    assert_eq!(f64::from_bits(g.pooled_max(0, 1, -1, 3)), 0.8);
    assert_eq!(f64::from_bits(g.pooled_max(0, 1, 0, -1)), f64::NEG_INFINITY);
}

#[test]
fn peak_lags_strongest_first_and_separated() {
    // n_fft 16: lags -8..8; build peaks at lags -5 (0.5), 2 (0.9), 4 (0.7).
    let mut vals = [0.0f64; 16];
    let put = |vals: &mut [f64; 16], lag: i64, v: f64| vals[lag.rem_euclid(16) as usize] = v;
    put(&mut vals, -5, 0.5);
    put(&mut vals, 2, 0.9);
    put(&mut vals, 4, 0.7);
    let g = CorrTable::from_correlations(16, 2, vec![row(&vals)]).unwrap();
    assert_eq!(g.peak_lags(0, 1, 3, 1), vec![2, 4, -5]);
    assert_eq!(g.peak_lags(0, 1, 2, 1), vec![2, 4]);
    // lag 4 is within 3 of lag 2, so it is skipped.
    assert_eq!(g.peak_lags(0, 1, 3, 3), vec![2, -5]);
    assert_eq!(g.peak_lags(0, 1, 0, 1), Vec::<i64>::new());
}

#[test]
fn peak_lags_ties_keep_the_smaller_lag_first() {
    let mut vals = [0.0f64; 16];
    vals[3] = 0.6;
    vals[(16 - 3) as usize] = 0.6;
    let g = CorrTable::from_correlations(16, 2, vec![row(&vals)]).unwrap();
    assert_eq!(g.peak_lags(0, 1, 4, 1), vec![-3, 3]);
}

#[test]
fn pooled_max_grows_with_the_window() {
    let vals = [0.0, 0.1, 0.2, 0.3, 0.8, 0.3, 0.2, 0.1];
    let g = CorrTable::from_correlations(8, 2, vec![row(&vals)]).unwrap();
    let mut prev = f64::NEG_INFINITY;
    for h in 0..6 {
        let w = f64::from_bits(g.pooled_max(0, 1, 1, h));
        assert!(w >= prev, "window {h}: {w} < {prev}");
        prev = w;
    }
}

#[test]
fn peak_lag_value_is_not_exceeded_at_any_lag() {
    let vals = [0.1, 0.2, 0.0, 0.7, 0.0, 0.9, 0.3, 0.5];
    let g = CorrTable::from_correlations(8, 2, vec![row(&vals)]).unwrap();
    let best = f64::from_bits(g.at(0, 1, g.peak_lag(0, 1)));
    for lag in -40..40 {
        assert!(f64::from_bits(g.at(0, 1, lag)) <= best);
    }
}
