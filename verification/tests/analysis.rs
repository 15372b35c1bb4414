use benchmark_analysis::aggregate::aggregate;
use benchmark_analysis::numfmt::ms;
use benchmark_analysis::stats::dispersion;
use benchmark_analysis::Analysis;
use benchmark_analysis::BenchmarkResults;

fn sample(pairs: &[(&str, u32)], nanos: u128) -> BenchmarkResults {
    (
        pairs.iter().map(|p| (p.0.to_string(), p.1)).collect(),
        nanos,
    )
}

fn fixture() -> Vec<BenchmarkResults> {
    vec![
        sample(&[("N", 1), ("M", 5)], 11_500_000),
        sample(&[("N", 2), ("M", 5)], 12_500_000),
        sample(&[("N", 3), ("M", 5)], 13_500_000),
        sample(&[("N", 4), ("M", 5)], 14_500_000),
        sample(&[("N", 3), ("M", 1)], 13_100_000),
        sample(&[("N", 3), ("M", 3)], 13_300_000),
        sample(&[("N", 3), ("M", 7)], 13_700_000),
        sample(&[("N", 3), ("M", 10)], 14_000_000),
    ]
}

#[test]
fn analysis_should_work() {
    let a = Analysis::from_results(&fixture()).unwrap();
    assert_eq!(a.base, 10_000_000);
    assert_eq!(
        a.parameters,
        vec![("N".to_string(), 1_000_000), ("M".to_string(), 100_000)]
    );
}

#[test]
fn empty_input_gives_no_model() {
    assert!(Analysis::from_results(&vec![]).is_none());
}

#[test]
fn constant_parameter_is_singular() {
    // One distinct parameter vector cannot determine intercept plus slope.
    let r = vec![sample(&[("N", 3)], 100), sample(&[("N", 3)], 200)];
    assert!(Analysis::from_results(&r).is_none());
}

#[test]
fn linear_single_parameter_recovers_generators() {
    // duration = 1 + 2 * N, exactly.
    let r = vec![
        sample(&[("N", 1)], 3),
        sample(&[("N", 2)], 5),
        sample(&[("N", 3)], 7),
    ];
    let a = Analysis::from_results(&r).unwrap();
    assert_eq!(a.base, 1);
    assert_eq!(a.parameters, vec![("N".to_string(), 2)]);
}

#[test]
fn exact_fit_has_zero_standard_errors() {
    let a = Analysis::from_results(&fixture()).unwrap();
    assert_eq!(a.errors, vec![0, 0]);
}

#[test]
fn stats_ordered_by_ascending_key() {
    let a = Analysis::from_results(&fixture()).unwrap();
    assert_eq!(a.value_dists.len(), 8);
    assert_eq!(a.value_dists[0], (vec![1, 5], 11_500_000, 0));
    assert_eq!(a.value_dists[2], (vec![3, 1], 13_100_000, 0));
    assert_eq!(a.value_dists[7], (vec![4, 5], 14_500_000, 0));
    assert_eq!(a.params, vec!["N".to_string(), "M".to_string()]);
}

#[test]
fn aggregate_sorts_and_trims_quartiles() {
    // Eight samples of one configuration: the two lowest and the two
    // highest survive the sort only to be discarded.
    let r = vec![
        sample(&[("N", 1)], 80),
        sample(&[("N", 1)], 10),
        sample(&[("N", 1)], 50),
        sample(&[("N", 1)], 30),
        sample(&[("N", 1)], 70),
        sample(&[("N", 1)], 20),
        sample(&[("N", 1)], 60),
        sample(&[("N", 1)], 40),
    ];
    let (groups, names) = aggregate(&r).unwrap();
    assert_eq!(names, vec!["N".to_string()]);
    assert_eq!(groups, vec![(vec![1], vec![30, 40, 50, 60])]);
}

#[test]
fn trimming_small_group_keeps_everything() {
    let r = vec![
        sample(&[("N", 2)], 9),
        sample(&[("N", 2)], 7),
        sample(&[("N", 2)], 8),
    ];
    let (groups, _) = aggregate(&r).unwrap();
    assert_eq!(groups, vec![(vec![2], vec![7, 8, 9])]);
}

#[test]
fn single_sample_group_mean_is_value_stddev_zero() {
    let stats = dispersion(&vec![(vec![1], vec![5000])]);
    assert_eq!(stats, vec![(vec![1], 5000, 0)]);
}

#[test]
fn dispersion_floors_mean_and_stddev() {
    // Mean of 1 and 4 floors to 2; squared deviations 1 and 4 average to
    // 2 (floored), whose integer square root is 1.
    let stats = dispersion(&vec![(vec![9], vec![1, 4])]);
    assert_eq!(stats, vec![(vec![9], 2, 1)]);
}

#[test]
fn ms_keeps_small_values_untruncated() {
    assert_eq!(ms(999), "0.999");
    assert_eq!(ms(0), "0");
    assert_eq!(ms(1000), "1");
    assert_eq!(ms(7), "0.007");
}

#[test]
fn ms_truncates_by_magnitude() {
    assert_eq!(ms(12_345_678), "12340");
    assert_eq!(ms(12_345), "12.34");
    assert_eq!(ms(123_456), "123.4");
    assert_eq!(ms(999_999_999), "999900");
}

#[test]
fn render_is_deterministic_and_exact() {
    let a = Analysis {
        base: 7,
        parameters: vec![("N".to_string(), 0)],
        value_dists: vec![(vec![3], 2000, 0)],
        params: vec!["N".to_string()],
        errors: vec![0],
    };
    let expected = "Data points distribution:\n\
                    \u{20}   N   mean µs  sigma µs       %\n\
                    \u{20}   3         2         0    0.0%\n\
                    \n\
                    Quality and confidence:\n\
                    param     error\n\
                    N             0\n\
                    \n\
                    Model:\n\
                    Time ~=    0.007\n\
                    \u{20}   + N        0\n\
                    \u{20}             µs\n";
    assert_eq!(a.render(), expected);
    assert_eq!(a.render(), a.render());
}

#[test]
fn render_shows_percentage_approximation() {
    // sigma * 100 / mean = 12, next digit (sigma * 1000 / mean) mod 10 = 5.
    let a = Analysis {
        base: 0,
        parameters: vec![("N".to_string(), 1)],
        value_dists: vec![(vec![1], 1000, 125)],
        params: vec!["N".to_string()],
        errors: vec![0],
    };
    let text = a.render();
    assert!(text.contains(" 12.5%\n"));
}
