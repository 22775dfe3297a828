use length_stats::report::{build_report, try_build_report};
use length_stats::summary::summarize_per_file;

fn name(s: &str) -> Vec<u8> {
    s.as_bytes().to_vec()
}

#[test]
fn overall_summarizes_the_concatenation() {
    // overall must equal the summary of [1,2,3,4,5], never a combination
    // of the two per-file summaries.
    let inputs: Vec<(Vec<u8>, Vec<u64>)> =
        vec![(name("a"), vec![1, 2, 3]), (name("b"), vec![4, 5])];
    let report = build_report(&inputs);
    let combined: Vec<u64> = vec![1, 2, 3, 4, 5];
    let expected = summarize_per_file(&combined);
    assert_eq!(report.overall, expected);
}

#[test]
fn file_keys_are_sorted_and_exact() {
    let inputs: Vec<(Vec<u8>, Vec<u64>)> = vec![
        (name("c.jsonl"), vec![7]),
        (name("a.jsonl"), vec![1]),
        (name("b.jsonl"), vec![4]),
    ];
    let report = build_report(&inputs);
    let keys: Vec<Vec<u8>> = report.files.iter().map(|p| p.0.clone()).collect();
    assert_eq!(keys, vec![name("a.jsonl"), name("b.jsonl"), name("c.jsonl")]);
}

#[test]
fn duplicate_base_name_is_overwritten_by_the_later_file() {
    let inputs: Vec<(Vec<u8>, Vec<u64>)> = vec![
        (name("a"), vec![1, 2]),
        (name("b"), vec![9]),
        (name("a"), vec![100]),
    ];
    let report = build_report(&inputs);
    assert_eq!(report.files.len(), 2);
    assert_eq!(report.files[0].0, name("a"));
    // The later file's statistics stand under "a".
    let last: Vec<u64> = vec![100];
    assert_eq!(report.files[0].1, summarize_per_file(&last));
    // The overall pass still counts every length of every file.
    assert_eq!(report.overall.count, 4);
    assert_eq!(report.overall.sum, 1 + 2 + 9 + 100);
}

#[test]
fn identical_inputs_give_identical_reports() {
    let inputs: Vec<(Vec<u8>, Vec<u64>)> =
        vec![(name("x"), vec![5, 2, 8]), (name("y"), vec![3])];
    let r1 = build_report(&inputs);
    let r2 = build_report(&inputs);
    assert_eq!(r1.overall, r2.overall);
    assert_eq!(r1.files, r2.files);
}

#[test]
fn empty_input_gives_empty_report() {
    let inputs: Vec<(Vec<u8>, Vec<u64>)> = vec![];
    let report = build_report(&inputs);
    assert_eq!(report.overall.count, 0);
    assert_eq!(report.overall.min, None);
    assert_eq!(report.overall.p50_q4, None);
    assert!(report.files.is_empty());
}

#[test]
fn file_with_no_lengths_still_appears() {
    let inputs: Vec<(Vec<u8>, Vec<u64>)> = vec![(name("empty"), vec![])];
    let report = build_report(&inputs);
    assert_eq!(report.files.len(), 1);
    assert_eq!(report.files[0].1.count, 0);
    assert_eq!(report.overall.count, 0);
}

#[test]
fn try_build_report_accepts_ordinary_input() {
    let inputs: Vec<(Vec<u8>, Vec<u64>)> = vec![(name("a"), vec![10, 20])];
    let report = try_build_report(&inputs).unwrap();
    assert_eq!(report.overall.count, 2);
    assert_eq!(report.overall.sum, 30);
}

#[test]
fn try_build_report_rejects_overflowing_sums() {
    // Two maximal lengths: the sum of squares exceeds the 128-bit range.
    let inputs: Vec<(Vec<u8>, Vec<u64>)> = vec![(name("big"), vec![u64::MAX, u64::MAX])];
    assert!(try_build_report(&inputs).is_none());
    // One maximal length still fits.
    let one: Vec<(Vec<u8>, Vec<u64>)> = vec![(name("big"), vec![u64::MAX])];
    assert!(try_build_report(&one).is_some());
}

#[test]
fn end_to_end_two_files() {
    let inputs: Vec<(Vec<u8>, Vec<u64>)> = vec![
        (name("a.jsonl"), vec![10, 20, 30]),
        (name("b.jsonl"), vec![40, 50]),
    ];
    let report = build_report(&inputs);

    let a = &report.files[0];
    assert_eq!(a.0, name("a.jsonl"));
    assert_eq!(a.1.count, 3);
    assert_eq!(a.1.min, Some(10));
    assert_eq!(a.1.max, Some(30));
    let mean_a = a.1.sum as f64 / a.1.count as f64;
    assert_eq!(mean_a, 20.0);
    let n = a.1.count as f64;
    let var_a = ((n * a.1.sum_sq as f64) - (a.1.sum as f64) * (a.1.sum as f64)) / (n * (n - 1.0));
    assert_eq!(var_a.sqrt(), 10.0);
    assert_eq!(a.1.p25_q4, Some(60)); // 15
    assert_eq!(a.1.p50_q4, Some(80)); // 20
    assert_eq!(a.1.p75_q4, Some(100)); // 25

    let b = &report.files[1];
    assert_eq!(b.0, name("b.jsonl"));
    assert_eq!(b.1.count, 2);
    assert_eq!(b.1.min, Some(40));
    assert_eq!(b.1.max, Some(50));
    let mean_b = b.1.sum as f64 / b.1.count as f64;
    assert_eq!(mean_b, 45.0);
    let m = b.1.count as f64;
    let var_b = ((m * b.1.sum_sq as f64) - (b.1.sum as f64) * (b.1.sum as f64)) / (m * (m - 1.0));
    assert!((var_b.sqrt() - 7.0710678).abs() < 1e-6);
    assert_eq!(b.1.p25_q4, Some(170)); // 42.5
    assert_eq!(b.1.p50_q4, Some(180)); // 45
    assert_eq!(b.1.p75_q4, Some(190)); // 47.5

    let combined: Vec<u64> = vec![10, 20, 30, 40, 50];
    assert_eq!(report.overall, summarize_per_file(&combined));
}
