use perf_regressions::calculate::calculate_at;
use perf_regressions::codec::decode_calculations;
use perf_regressions::codec::encode_calculations;
use perf_regressions::records::Calculation;
use perf_regressions::records::Data;
use perf_regressions::records::Measurement;
use perf_regressions::records::Ratio;

fn sample_calculations() -> Vec<Calculation> {
    let dev = Measurement {
        command: "dbt parse".to_owned(),
        mean: 1_060_000_000,
        stddev: 3_000_000,
        median: 1_060_000_000,
        user: 900_000_000,
        system: 100_000_000,
        min: 1_010_000_000,
        max: 1_100_000_000,
        times: vec![1_060_000_000, 1_010_000_000, 1_100_000_000],
    };
    let baseline = Measurement {
        command: "dbt parse".to_owned(),
        mean: 1_000_000_000,
        stddev: 2_000_000,
        median: 1_000_000_000,
        user: 860_000_000,
        system: 90_000_000,
        min: 980_000_000,
        max: 1_020_000_000,
        times: vec![1_000_000_000, 980_000_000, 1_020_000_000],
    };
    calculate_at("parse_proj", &dev, &baseline, 1_700_000_000)
}

#[test]
fn round_trip_preserves_calculations() {
    let calcs = sample_calculations();
    let encoded = encode_calculations(&calcs);
    let decoded = decode_calculations(&encoded).unwrap();
    assert_eq!(decoded, calcs);
}

#[test]
fn round_trip_preserves_every_field() {
    let calcs = vec![Calculation {
        metric: "median_parse_proj".to_owned(),
        regression: true,
        ts: -12345,
        data: Data {
            threshold: Ratio { num: 21, den: 20 },
            difference: Ratio { num: 7, den: 5 },
            baseline: 5,
            dev: 7,
        },
    }];
    let encoded = encode_calculations(&calcs);
    let decoded = decode_calculations(&encoded).unwrap();
    assert_eq!(decoded.len(), 1);
    assert_eq!(decoded[0].metric, "median_parse_proj");
    assert!(decoded[0].regression);
    assert_eq!(decoded[0].ts, -12345);
    assert_eq!(decoded[0].data.threshold, Ratio { num: 21, den: 20 });
    assert_eq!(decoded[0].data.difference, Ratio { num: 7, den: 5 });
    assert_eq!(decoded[0].data.baseline, 5);
    assert_eq!(decoded[0].data.dev, 7);
}

#[test]
fn empty_list_round_trips() {
    let calcs: Vec<Calculation> = vec![];
    let encoded = encode_calculations(&calcs);
    assert!(encoded.is_empty());
    let decoded = decode_calculations(&encoded).unwrap();
    assert!(decoded.is_empty());
}

#[test]
fn unicode_metric_round_trips() {
    let calcs = vec![Calculation {
        metric: "median_pars\u{00e9}_\u{1F680}".to_owned(),
        regression: false,
        ts: 0,
        data: Data {
            threshold: Ratio { num: 21, den: 20 },
            difference: Ratio { num: 0, den: 0 },
            baseline: 0,
            dev: 0,
        },
    }];
    let encoded = encode_calculations(&calcs);
    let decoded = decode_calculations(&encoded).unwrap();
    assert_eq!(decoded, calcs);
}

#[test]
fn truncated_bytes_are_rejected() {
    let calcs = sample_calculations();
    let encoded = encode_calculations(&calcs);
    assert!(decode_calculations(&encoded[..encoded.len() - 1]).is_none());
    assert!(decode_calculations(&encoded[1..]).is_none());
    assert!(decode_calculations(&[7u8]).is_none());
}
