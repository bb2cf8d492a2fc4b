use perf_regressions::errors::CalculateError;
use perf_regressions::errors::IOError;
use perf_regressions::records::Measurement;
use perf_regressions::records::MeasurementGroup;

#[test]
fn test_io_error_messages() {
    let pairs = vec![
        (
            IOError::ReadErr("dummy/path/file.json".to_owned(), None),
            r#"ReadErr: The file cannot be read.
Filepath: dummy/path/file.json
Originating Exception: None"#,
        ),
        (
            IOError::MissingFilenameErr("dummy/path/no_file/".to_owned()),
            r#"MissingFilenameErr: The path provided does not specify a file.
Filepath: dummy/path/no_file/"#,
        ),
        (
            IOError::FilenameNotUnicodeErr("dummy/path/no_file/".to_owned()),
            r#"FilenameNotUnicodeErr: The filename is not expressible in unicode. Consider renaming the file.
Filepath: dummy/path/no_file/"#,
        ),
        (
            IOError::BadFileContentsErr("dummy/path/filenotexist.json".to_owned(), None),
            r#"BadFileContentsErr: Check that the file exists and is readable.
Filepath: dummy/path/filenotexist.json
Originating Exception: None"#,
        ),
        (
            IOError::CommandErr(None),
            r#"CommandErr: System command failed to run.
Originating Exception: None"#,
        ),
    ];

    for (err, msg) in pairs {
        assert_eq!(err.message(), msg)
    }
}

#[test]
fn test_calculate_error_messages() {
    let pairs = vec![
        (
            CalculateError::BadJSONErr("dummy/path/file.json".to_owned(), None),
            r#"BadJSONErr: JSON in file cannot be deserialized as expected.
Filepath: dummy/path/file.json
Originating Exception: None"#,
        ),
        (
            CalculateError::BadJSONErr("dummy/path/file.json".to_owned(), None),
            r#"BadJSONErr: JSON in file cannot be deserialized as expected.
Filepath: dummy/path/file.json
Originating Exception: None"#,
        ),
        (
            CalculateError::NoResultsErr("dummy/path/no_file/".to_owned()),
            r#"NoResultsErr: The results directory has no json files in it.
Filepath: dummy/path/no_file/"#,
        ),
        (
            CalculateError::OddResultsCountErr(3, "dummy/path/no_file/".to_owned()),
            r#"OddResultsCountErr: The results directory has an odd number of results in it. Expected an even number.
File Count: 3
Filepath: dummy/path/no_file/"#,
        ),
        (
            CalculateError::BadGroupSizeErr(
                1,
                vec![MeasurementGroup {
                    version: "dev".to_owned(),
                    run: "some command".to_owned(),
                    measurement: Measurement {
                        command: "some command".to_owned(),
                        mean: 1_000_000_000,
                        stddev: 1_000_000_000,
                        median: 1_000_000_000,
                        user: 1_000_000_000,
                        system: 1_000_000_000,
                        min: 1_000_000_000,
                        max: 1_000_000_000,
                        times: vec![
                            1_000_000_000,
                            1_100_000_000,
                            900_000_000,
                            1_000_000_000,
                            1_100_000_000,
                            900_000_000,
                            1_100_000_000,
                        ],
                    },
                }],
            ),
            r#"BadGroupSizeErr: Expected two results per group, one for each branch-project pair.
Count: 1
Group: [("dev", "some command")]"#,
        ),
        (
            CalculateError::BadBranchNameErr("boop".to_owned(), "noop".to_owned()),
            r#"BadBranchNameErr: Branch names must be 'baseline' and 'dev'.
Found: boop, noop"#,
        ),
    ];

    for (err, msg) in pairs {
        assert_eq!(err.message(), msg)
    }
}

#[test]
fn group_list_rendering_joins_entries() {
    let m = Measurement {
        command: "dbt parse".to_owned(),
        mean: 1,
        stddev: 1,
        median: 1,
        user: 1,
        system: 1,
        min: 1,
        max: 1,
        times: vec![],
    };
    let err = CalculateError::BadGroupSizeErr(
        3,
        vec![
            MeasurementGroup {
                version: "baseline".to_owned(),
                run: "parse_proj".to_owned(),
                measurement: m.clone(),
            },
            MeasurementGroup {
                version: "dev".to_owned(),
                run: "parse_proj".to_owned(),
                measurement: m.clone(),
            },
            MeasurementGroup {
                version: "other".to_owned(),
                run: "parse_proj".to_owned(),
                measurement: m,
            },
        ],
    );
    assert_eq!(
        err.message(),
        "BadGroupSizeErr: Expected two results per group, one for each branch-project pair.\nCount: 3\nGroup: [(\"baseline\", \"parse_proj\"), (\"dev\", \"parse_proj\"), (\"other\", \"parse_proj\")]"
    );
}
