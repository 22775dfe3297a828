use length_stats::percentile::percentile_scaled;
use length_stats::running::RunningStats;
use length_stats::summary::summarize_per_file;

#[test]
fn percentile_median_of_four() {
    // q = 0.5 of [1,2,3,4] is 2.5; scaled by the denominator 2 that is 5.
    let vals: Vec<u64> = vec![1, 2, 3, 4];
    assert_eq!(percentile_scaled(&vals, 1, 2), Some(5));
    // The same quantile as 2/4, scaled by 4: 10/4 == 2.5.
    assert_eq!(percentile_scaled(&vals, 2, 4), Some(10));
}

#[test]
fn percentile_single_element_is_that_element() {
    let vals: Vec<u64> = vec![10];
    // q = 0.25 of [10] is 10; scaled by 4 that is 40.
    assert_eq!(percentile_scaled(&vals, 1, 4), Some(40));
    assert_eq!(percentile_scaled(&vals, 3, 4), Some(40));
}

#[test]
fn percentile_empty_is_absent() {
    let vals: Vec<u64> = vec![];
    assert_eq!(percentile_scaled(&vals, 0, 4), None);
    assert_eq!(percentile_scaled(&vals, 1, 4), None);
    assert_eq!(percentile_scaled(&vals, 2, 2), None);
}

#[test]
fn percentile_extremes() {
    let vals: Vec<u64> = vec![3, 7, 11, 20];
    // q = 0 gives the minimum, q = 1 the maximum.
    assert_eq!(percentile_scaled(&vals, 0, 4), Some(12));
    assert_eq!(percentile_scaled(&vals, 4, 4), Some(80));
}

#[test]
fn summarize_empty_has_all_fields_absent() {
    let vals: Vec<u64> = vec![];
    let st = summarize_per_file(&vals);
    assert_eq!(st.count, 0);
    assert_eq!(st.min, None);
    assert_eq!(st.max, None);
    assert_eq!(st.sum, 0);
    assert_eq!(st.sum_sq, 0);
    assert_eq!(st.p25_q4, None);
    assert_eq!(st.p50_q4, None);
    assert_eq!(st.p75_q4, None);
}

#[test]
fn summarize_single_value() {
    let vals: Vec<u64> = vec![5];
    let st = summarize_per_file(&vals);
    assert_eq!(st.count, 1);
    assert_eq!(st.min, Some(5));
    assert_eq!(st.max, Some(5));
    assert_eq!(st.sum, 5);
    assert_eq!(st.sum_sq, 25);
    // All three quartiles equal the value (scaled by 4).
    assert_eq!(st.p25_q4, Some(20));
    assert_eq!(st.p50_q4, Some(20));
    assert_eq!(st.p75_q4, Some(20));
    // Converted as a caller would: mean = 5, std = 0 by convention.
    let mean = st.sum as f64 / st.count as f64;
    assert_eq!(mean, 5.0);
    let std = if st.count > 1 {
        let n = st.count as f64;
        (((n * st.sum_sq as f64) - (st.sum as f64) * (st.sum as f64)) / (n * (n - 1.0))).sqrt()
    } else {
        0.0
    };
    assert_eq!(std, 0.0);
}

#[test]
fn summarize_three_values_exactly() {
    let vals: Vec<u64> = vec![30, 10, 20];
    let st = summarize_per_file(&vals);
    assert_eq!(st.count, 3);
    assert_eq!(st.min, Some(10));
    assert_eq!(st.max, Some(30));
    assert_eq!(st.sum, 60);
    assert_eq!(st.sum_sq, 1400);
    assert_eq!(st.p25_q4, Some(60)); // 15
    assert_eq!(st.p50_q4, Some(80)); // 20
    assert_eq!(st.p75_q4, Some(100)); // 25
    let mean = st.sum as f64 / st.count as f64;
    assert_eq!(mean, 20.0);
    let n = st.count as f64;
    let var = ((n * st.sum_sq as f64) - (st.sum as f64) * (st.sum as f64)) / (n * (n - 1.0));
    assert_eq!(var.sqrt(), 10.0);
}

#[test]
fn running_stats_are_order_invariant() {
    let mut a = RunningStats::new();
    a.push(3);
    a.push(1);
    a.push(2);
    let mut b = RunningStats::new();
    b.push(2);
    b.push(3);
    b.push(1);
    assert_eq!(a.count, b.count);
    assert_eq!(a.min, b.min);
    assert_eq!(a.max, b.max);
    assert_eq!(a.sum, b.sum);
    assert_eq!(a.sum_sq, b.sum_sq);
}

#[test]
fn running_stats_match_batch_summary() {
    // The streamed moments equal the two-pass batch moments exactly.
    let vals: Vec<u64> = vec![8, 1, 5, 5, 13];
    let mut agg = RunningStats::new();
    for v in [13u64, 5, 8, 1, 5] {
        agg.push(v);
    }
    let st = summarize_per_file(&vals);
    assert_eq!(agg.count, st.count);
    assert_eq!(agg.min, st.min);
    assert_eq!(agg.max, st.max);
    assert_eq!(agg.sum, st.sum);
    assert_eq!(agg.sum_sq, st.sum_sq);
}

#[test]
fn finalize_packages_percentiles() {
    let mut agg = RunningStats::new();
    agg.push(4);
    agg.push(6);
    let st = agg.finalize(Some(16), Some(20), Some(24));
    assert_eq!(st.count, 2);
    assert_eq!(st.min, Some(4));
    assert_eq!(st.max, Some(6));
    assert_eq!(st.sum, 10);
    assert_eq!(st.sum_sq, 52);
    assert_eq!(st.p25_q4, Some(16));
    assert_eq!(st.p50_q4, Some(20));
    assert_eq!(st.p75_q4, Some(24));
}

#[test]
fn finalize_empty_keeps_supplied_percentiles() {
    let agg = RunningStats::new();
    let st = agg.finalize(None, None, None);
    assert_eq!(st.count, 0);
    assert_eq!(st.min, None);
    assert_eq!(st.max, None);
    assert_eq!(st.p50_q4, None);
}

#[test]
fn quartiles_stand_in_order() {
    let vals: Vec<u64> = vec![2, 9, 4, 4, 17, 1, 30];
    let st = summarize_per_file(&vals);
    let p25 = st.p25_q4.unwrap();
    let p50 = st.p50_q4.unwrap();
    let p75 = st.p75_q4.unwrap();
    assert!(p25 <= p50 && p50 <= p75);
}
