use perf_regressions::calculate::calculate;
use perf_regressions::calculate::calculate_regressions;
use perf_regressions::calculate::has_regressions;
use perf_regressions::calculate::regressions;
use perf_regressions::calculate::regressions_at;
use perf_regressions::errors::CalculateError;
use perf_regressions::errors::IOError;
use perf_regressions::records::Calculation;
use perf_regressions::records::Measurement;
use perf_regressions::records::Measurements;

fn measurement(median: u64, stddev: u64) -> Measurement {
    Measurement {
        command: "dbt parse --no-version-check".to_owned(),
        mean: median,
        stddev,
        median,
        user: median,
        system: median,
        min: median,
        max: median,
        times: vec![median],
    }
}

fn file(path: &str, median: u64, stddev: u64) -> (String, Measurements) {
    (path.to_owned(), Measurements { results: vec![measurement(median, stddev)] })
}

#[test]
fn detects_5_percent_regression() {
    let dev = Measurement {
        command: "some command".to_owned(),
        mean: 1_060_000_000,
        stddev: 1_060_000_000,
        median: 1_060_000_000,
        user: 1_060_000_000,
        system: 1_060_000_000,
        min: 1_060_000_000,
        max: 1_060_000_000,
        times: vec![],
    };

    let baseline = Measurement {
        command: "some command".to_owned(),
        mean: 1_000_000_000,
        stddev: 1_000_000_000,
        median: 1_000_000_000,
        user: 1_000_000_000,
        system: 1_000_000_000,
        min: 1_000_000_000,
        max: 1_000_000_000,
        times: vec![],
    };

    let calculations = calculate("test_metric", &dev, &baseline);
    let regressions: Vec<&Calculation> =
        calculations.iter().filter(|calc| calc.regression).collect();

    // a 6% jump breaks the 5% threshold for the median and, with the
    // same values supplied, for the standard deviation as well
    println!("{:#?}", regressions);
    assert_eq!(regressions.len(), 2);
    assert_eq!(regressions[0].metric, "median_test_metric");
}

#[test]
fn one_pair_with_median_regression() {
    // baseline median 1.00s, dev median 1.06s: a regression
    let files = vec![
        file("results/baseline_parse_proj.json", 1_000_000_000, 2_000_000),
        file("results/dev_parse_proj.json", 1_060_000_000, 2_000_000),
    ];
    let calcs = regressions(&files, "results").unwrap();
    assert_eq!(calcs.len(), 2);
    assert_eq!(calcs[0].metric, "median_parse_proj");
    assert!(calcs[0].regression);
    assert_eq!(calcs[0].data.baseline, 1_000_000_000);
    assert_eq!(calcs[0].data.dev, 1_060_000_000);
    assert_eq!(calcs[0].data.difference.num, 1_060_000_000);
    assert_eq!(calcs[0].data.difference.den, 1_000_000_000);
    assert_eq!(calcs[0].data.threshold.num, 21);
    assert_eq!(calcs[0].data.threshold.den, 20);
    assert_eq!(calcs[1].metric, "stddev_parse_proj");
    assert!(!calcs[1].regression);
    assert_eq!(calcs[0].ts, calcs[1].ts);
    assert!(has_regressions(&calcs));
}

#[test]
fn one_pair_within_threshold() {
    // dev median 1.02s stays within the 5% allowance
    let files = vec![
        file("results/baseline_parse_proj.json", 1_000_000_000, 2_000_000),
        file("results/dev_parse_proj.json", 1_020_000_000, 2_000_000),
    ];
    let calcs = regressions(&files, "results").unwrap();
    assert_eq!(calcs.len(), 2);
    assert_eq!(calcs[0].metric, "median_parse_proj");
    assert!(!calcs[0].regression);
    assert_eq!(calcs[0].data.difference.num, 1_020_000_000);
    assert!(!has_regressions(&calcs));
}

#[test]
fn exact_threshold_is_not_a_regression() {
    // dev/baseline exactly 1.05: the comparison is strict
    let files = vec![
        file("results/baseline_parse_proj.json", 1_000_000_000, 1_000_000_000),
        file("results/dev_parse_proj.json", 1_050_000_000, 1_050_000_001),
    ];
    let calcs = regressions(&files, "results").unwrap();
    assert!(!calcs[0].regression);
    assert!(calcs[1].regression);
}

#[test]
fn zero_baseline_counts_as_regression() {
    // an infinite quotient exceeds any threshold; 0/0 exceeds none
    let files = vec![
        file("results/baseline_parse_proj.json", 0, 0),
        file("results/dev_parse_proj.json", 1, 0),
    ];
    let calcs = regressions(&files, "results").unwrap();
    assert!(calcs[0].regression);
    assert!(!calcs[1].regression);
}

#[test]
fn empty_directory_yields_no_results_error() {
    let files: Vec<(String, Measurements)> = vec![];
    match regressions(&files, "results").unwrap_err() {
        CalculateError::NoResultsErr(dir) => assert_eq!(dir, "results"),
        e => panic!("unexpected error: {}", e.message()),
    }
}

#[test]
fn odd_file_count_yields_odd_count_error() {
    let files = vec![file("results/baseline_parse_proj.json", 1_000_000_000, 0)];
    match regressions(&files, "results").unwrap_err() {
        CalculateError::OddResultsCountErr(n, dir) => {
            assert_eq!(n, 1);
            assert_eq!(dir, "results");
        }
        e => panic!("unexpected error: {}", e.message()),
    }
}

#[test]
fn three_files_sharing_a_run_yield_group_size_error() {
    // four files so the count stays even: three of one run, one stray
    let files = vec![
        file("results/baseline_parse_proj.json", 1_000_000_000, 0),
        file("results/dev_parse_proj.json", 1_000_000_000, 0),
        file("results/other_parse_proj.json", 1_000_000_000, 0),
        file("results/baseline_parse_zzz.json", 1_000_000_000, 0),
    ];
    match regressions(&files, "results").unwrap_err() {
        CalculateError::BadGroupSizeErr(n, groups) => {
            assert_eq!(n, 3);
            assert_eq!(groups.len(), 3);
            assert!(groups.iter().all(|g| g.run == "parse_proj"));
        }
        e => panic!("unexpected error: {}", e.message()),
    }
}

#[test]
fn lone_run_yields_group_size_error() {
    let files = vec![
        file("results/baseline_parse_aaa.json", 1_000_000_000, 0),
        file("results/baseline_parse_bbb.json", 1_000_000_000, 0),
    ];
    match regressions(&files, "results").unwrap_err() {
        CalculateError::BadGroupSizeErr(n, groups) => {
            assert_eq!(n, 1);
            assert_eq!(groups.len(), 1);
        }
        e => panic!("unexpected error: {}", e.message()),
    }
}

#[test]
fn two_dev_files_yield_branch_name_error() {
    let files = vec![
        file("one/dev_parse_proj.json", 1_000_000_000, 0),
        file("two/dev_parse_proj.json", 1_000_000_000, 0),
    ];
    match regressions(&files, "results").unwrap_err() {
        CalculateError::BadBranchNameErr(a, b) => {
            assert_eq!(a, "dev");
            assert_eq!(b, "dev");
        }
        e => panic!("unexpected error: {}", e.message()),
    }
}

#[test]
fn empty_measurement_set_yields_json_error() {
    let files = vec![
        file("results/baseline_parse_proj.json", 1_000_000_000, 0),
        ("results/dev_parse_proj.json".to_owned(), Measurements { results: vec![] }),
    ];
    match regressions(&files, "results").unwrap_err() {
        CalculateError::BadJSONErr(path, cause) => {
            assert_eq!(path, "results/dev_parse_proj.json");
            assert!(cause.is_none());
        }
        e => panic!("unexpected error: {}", e.message()),
    }
}

#[test]
fn grouping_is_order_independent() {
    let a = vec![
        file("results/baseline_parse_one.json", 1_000_000_000, 5_000_000),
        file("results/dev_parse_one.json", 1_200_000_000, 5_000_000),
        file("results/baseline_parse_two.json", 2_000_000_000, 7_000_000),
        file("results/dev_parse_two.json", 1_900_000_000, 9_000_000),
    ];
    let b = vec![
        file("results/dev_parse_two.json", 1_900_000_000, 9_000_000),
        file("results/baseline_parse_one.json", 1_000_000_000, 5_000_000),
        file("results/baseline_parse_two.json", 2_000_000_000, 7_000_000),
        file("results/dev_parse_one.json", 1_200_000_000, 5_000_000),
    ];
    let ra = regressions_at(&a, "results", 42).unwrap();
    let rb = regressions_at(&b, "results", 42).unwrap();
    assert_eq!(ra, rb);
}

#[test]
fn calculate_regressions_sorts_runs() {
    let ms = vec![
        ("dev_parse_bbb.json".to_owned(), measurement(1_000_000_000, 1)),
        ("baseline_parse_aaa.json".to_owned(), measurement(1_000_000_000, 1)),
        ("dev_parse_aaa.json".to_owned(), measurement(1_000_000_000, 1)),
        ("baseline_parse_bbb.json".to_owned(), measurement(1_000_000_000, 1)),
    ];
    let calcs = calculate_regressions(ms, 7).unwrap();
    let names: Vec<&str> = calcs.iter().map(|c| c.metric.as_str()).collect();
    assert_eq!(
        names,
        vec!["median_parse_aaa", "stddev_parse_aaa", "median_parse_bbb", "stddev_parse_bbb"]
    );
    assert!(calcs.iter().all(|c| c.ts == 7));
}

#[test]
fn missing_file_name_yields_missing_filename_error() {
    let files = vec![
        file("results/baseline_parse_proj.json", 1_000_000_000, 0),
        file("results/..", 1_000_000_000, 0),
    ];
    match regressions(&files, "results").unwrap_err() {
        CalculateError::CalculateIOError(e) => {
            assert!(e.message().starts_with("MissingFilenameErr"));
        }
        e => panic!("unexpected error: {}", e.message()),
    }
}

#[test]
fn name_without_underscore_is_rejected() {
    // `baseline.json` has a one-token stem: it names no run, so the
    // whole operation fails rather than pairing an empty run identifier
    let files = vec![
        file("results/baseline.json", 1_000_000_000, 0),
        file("results/dev.json", 1_000_000_000, 0),
    ];
    match regressions(&files, "results").unwrap_err() {
        CalculateError::CalculateIOError(IOError::MissingFilenameErr(path)) => {
            assert_eq!(path, "results/baseline.json");
        }
        e => panic!("unexpected error: {}", e.message()),
    }
}

#[test]
fn empty_run_identifier_is_rejected() {
    // a trailing underscore leaves the run identifier empty
    let files = vec![
        file("results/baseline_.json", 1_000_000_000, 0),
        file("results/dev_.json", 1_000_000_000, 0),
    ];
    match regressions(&files, "results").unwrap_err() {
        CalculateError::CalculateIOError(IOError::MissingFilenameErr(path)) => {
            assert_eq!(path, "results/baseline_.json");
        }
        e => panic!("unexpected error: {}", e.message()),
    }
}

#[test]
fn run_identifier_keeps_its_underscores() {
    let files = vec![
        file("results/baseline_parse_my_proj.json", 1_000_000_000, 1),
        file("results/dev_parse_my_proj.json", 1_000_000_000, 1),
    ];
    let calcs = regressions(&files, "results").unwrap();
    assert_eq!(calcs[0].metric, "median_parse_my_proj");
    assert_eq!(calcs[1].metric, "stddev_parse_my_proj");
}

#[test]
fn no_calculations_means_no_regressions() {
    let calcs: Vec<Calculation> = vec![];
    assert!(!has_regressions(&calcs));
}
