use perf_regressions::loglines::log_line_values_ok;
use perf_regressions::measure::default_metrics;
use perf_regressions::measure::hyperfine_args;
use perf_regressions::measure::project_metric_pairs;
use perf_regressions::measure::Metric;
use perf_regressions::strutil::dec_str_u64;
use perf_regressions::strutil::file_name_of;
use perf_regressions::strutil::is_results_file;
use perf_regressions::strutil::lex_le_str;
use perf_regressions::strutil::split_version_run;
use perf_regressions::strutil::stem_of;
use perf_regressions::strutil::str_eq;

#[test]
fn decimal_rendering() {
    assert_eq!(dec_str_u64(0), "0");
    assert_eq!(dec_str_u64(7), "7");
    assert_eq!(dec_str_u64(42), "42");
    assert_eq!(dec_str_u64(1050), "1050");
    assert_eq!(dec_str_u64(u64::MAX), "18446744073709551615");
}

#[test]
fn file_name_extraction() {
    assert_eq!(file_name_of("results/baseline_parse_proj.json"), Some("baseline_parse_proj.json"));
    assert_eq!(file_name_of("baseline_parse_proj.json"), Some("baseline_parse_proj.json"));
    assert_eq!(file_name_of("a/b/"), Some("b"));
    assert_eq!(file_name_of("a/."), Some("a"));
    assert_eq!(file_name_of("a/.."), None);
    assert_eq!(file_name_of("."), None);
    assert_eq!(file_name_of("/"), None);
    assert_eq!(file_name_of(""), None);
}

#[test]
fn stem_extraction() {
    assert_eq!(stem_of("baseline_parse_proj.json"), "baseline_parse_proj");
    assert_eq!(stem_of("noext"), "noext");
    assert_eq!(stem_of(".hidden"), ".hidden");
    assert_eq!(stem_of("two.dots.json"), "two.dots");
}

#[test]
fn version_run_split() {
    assert_eq!(
        split_version_run("baseline_parse_proj"),
        ("baseline".to_owned(), "parse_proj".to_owned())
    );
    assert_eq!(split_version_run("dev_x"), ("dev".to_owned(), "x".to_owned()));
    assert_eq!(split_version_run("nounderscore"), ("nounderscore".to_owned(), "".to_owned()));
    assert_eq!(split_version_run("_x"), ("".to_owned(), "x".to_owned()));
}

#[test]
fn results_file_filter() {
    assert!(is_results_file("results/dev_parse_proj.json"));
    assert!(is_results_file("dev_parse_proj.weirdjson"));
    assert!(!is_results_file("results/dev_parse_proj.txt"));
    assert!(!is_results_file("results/noext"));
    assert!(!is_results_file("results/"));
    assert!(!is_results_file(".json"));
}

#[test]
fn string_order_and_equality() {
    assert!(lex_le_str("baseline", "dev"));
    assert!(!lex_le_str("dev", "baseline"));
    assert!(lex_le_str("abc", "abc"));
    assert!(lex_le_str("ab", "abc"));
    assert!(str_eq("parse_proj", "parse_proj"));
    assert!(!str_eq("parse_proj", "parse_proj2"));
}

#[test]
fn metric_outfile_name() {
    let metric = Metric {
        name: "parse".to_owned(),
        prepare: "rm -rf target/".to_owned(),
        cmd: "dbt parse --no-version-check".to_owned(),
    };
    assert_eq!(metric.outfile("myproject", "dev"), "dev_parse_myproject.json");
    assert_eq!(metric.outfile("myproject", "baseline"), "baseline_parse_myproject.json");
}

#[test]
fn default_metric_list() {
    let metrics = default_metrics();
    assert_eq!(metrics.len(), 1);
    assert_eq!(metrics[0].name, "parse");
    assert_eq!(metrics[0].prepare, "rm -rf target/");
    assert_eq!(metrics[0].cmd, "dbt parse --no-version-check");
}

#[test]
fn pairs_every_project_with_every_metric() {
    let projects = vec!["one".to_owned(), "two".to_owned(), "three".to_owned()];
    let metrics = default_metrics();
    let pairs = project_metric_pairs(&projects, &metrics);
    assert_eq!(pairs.len(), 3);
    assert_eq!(pairs[0].0, "one");
    assert_eq!(pairs[1].0, "two");
    assert_eq!(pairs[2].0, "three");
    assert!(pairs.iter().all(|p| p.1.name == "parse"));
}

#[test]
fn hyperfine_argument_list() {
    let metric = Metric {
        name: "parse".to_owned(),
        prepare: "rm -rf target/".to_owned(),
        cmd: "dbt parse --no-version-check".to_owned(),
    };
    let args = hyperfine_args(&metric, "myproject", "dev");
    assert_eq!(
        args,
        vec![
            "--warmup",
            "1",
            "--min-runs",
            "20",
            "--prepare",
            "rm -rf target/",
            "dbt parse --no-version-check --profiles-dir ../../project_config/",
            "--export-json",
            "../../results/dev_parse_myproject.json",
            "--show-output",
        ]
    );
}

#[test]
fn log_line_value_checks() {
    assert!(log_line_values_ok(2, "log_line", "info"));
    assert!(log_line_values_ok(2, "log_line", "debug"));
    assert!(log_line_values_ok(2, "log_line", "warn"));
    assert!(log_line_values_ok(2, "log_line", "error"));
    assert!(!log_line_values_ok(1, "log_line", "info"));
    assert!(!log_line_values_ok(2, "node_info", "info"));
    assert!(!log_line_values_ok(2, "log_line", "trace"));
}
