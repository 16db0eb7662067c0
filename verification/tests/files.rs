use linear_regression::{
    encode_model, format_value, get_first_arg_or, parse_model, parse_observations, parse_value,
    Entry, TrainedPredictor,
};

#[test]
fn format_value_is_canonical_decimal() {
    assert_eq!(format_value(2_000_020), b"2.000020".to_vec());
    assert_eq!(format_value(0), b"0.000000".to_vec());
    assert_eq!(format_value(-1), b"-0.000001".to_vec());
    assert_eq!(format_value(3_500_000), b"3.500000".to_vec());
    assert_eq!(format_value(-12_345_678_900), b"-12345.678900".to_vec());
}

#[test]
fn parse_value_reads_decimals() {
    assert_eq!(parse_value(&b"3.5".to_vec()), Some(3_500_000));
    assert_eq!(parse_value(&b"0".to_vec()), Some(0));
    assert_eq!(parse_value(&b"-0.000001".to_vec()), Some(-1));
    assert_eq!(parse_value(&b"240000".to_vec()), Some(240_000_000_000));
    assert_eq!(parse_value(&b"7490.5".to_vec()), Some(7_490_500_000));
}

#[test]
fn parse_value_rejects_malformed_text() {
    assert_eq!(parse_value(&b"".to_vec()), None);
    assert_eq!(parse_value(&b"-".to_vec()), None);
    assert_eq!(parse_value(&b"x".to_vec()), None);
    assert_eq!(parse_value(&b"3.".to_vec()), None);
    assert_eq!(parse_value(&b"3.1234567".to_vec()), None);  // seven fraction digits
    assert_eq!(parse_value(&b"1e5".to_vec()), None);
    assert_eq!(parse_value(&b"12,5".to_vec()), None);
    assert_eq!(parse_value(&b"99999999999999".to_vec()), None);  // fourteen digits
}

#[test]
fn parse_value_round_trips_formatted_values() {
    for v in [0i64, 1, -1, 42, 2_000_020, -7_490_500_000, i64::MAX, i64::MIN] {
        assert_eq!(parse_value(&format_value(v)), Some(v));
    }
}

#[test]
fn model_file_round_trips() {
    let p = TrainedPredictor { theta_0: 2_999_941, theta_1: -2_000_020 };
    assert_eq!(parse_model(&encode_model(&p)), Some(p));
    let q = TrainedPredictor { theta_0: 0, theta_1: 0 };
    assert_eq!(parse_model(&encode_model(&q)), Some(q));
}

#[test]
fn encode_model_writes_header_and_one_row() {
    let p = TrainedPredictor { theta_0: 3_000_000, theta_1: 2_000_000 };
    assert_eq!(encode_model(&p), b"theta_0,theta_1\n3.000000,2.000000\n".to_vec());
}

#[test]
fn parse_model_rejects_bad_files() {
    assert_eq!(parse_model(&b"".to_vec()), None);
    assert_eq!(parse_model(&b"theta_0,theta_1\n".to_vec()), None);
    assert_eq!(parse_model(&b"km,price\n1.0,2.0\n".to_vec()), None);
    assert_eq!(parse_model(&b"theta_0,theta_1\n1.0\n".to_vec()), None);
    assert_eq!(parse_model(&b"theta_0,theta_1\nx,2.0\n".to_vec()), None);
    assert_eq!(parse_model(&b"theta_0,theta_1\n1.0,2.0\n3.0,4.0\n".to_vec()), None);
}

#[test]
fn parse_observations_reads_rows() {
    let text = b"km,price\n1.0,5.0\n2,7.5\n".to_vec();
    let got = parse_observations(&text);
    assert_eq!(
        got,
        vec![
            Entry { km: 1_000_000, price: 5_000_000 },
            Entry { km: 2_000_000, price: 7_500_000 },
        ]
    );
}

#[test]
fn parse_observations_drops_malformed_rows_silently() {
    let text = b"km,price\n1.0,5.0\nbroken\n2.0,oops\n3.0,6.0,9.0\n4.0,8.0\n".to_vec();
    let got = parse_observations(&text);
    assert_eq!(
        got,
        vec![
            Entry { km: 1_000_000, price: 5_000_000 },
            Entry { km: 4_000_000, price: 8_000_000 },
        ]
    );
}

#[test]
fn parse_observations_without_header_is_empty() {
    assert_eq!(parse_observations(&b"".to_vec()), vec![]);
    assert_eq!(parse_observations(&b"1.0,5.0\n2.0,7.0\n".to_vec()), vec![]);
    assert_eq!(parse_observations(&b"price,km\n1.0,5.0\n".to_vec()), vec![]);
}

#[test]
fn first_arg_or_returns_argument_or_default() {
    let args = vec!["prog".to_string(), "data.csv".to_string()];
    assert_eq!(get_first_arg_or(&args, "missing"), Ok("data.csv".to_string()));
    let none = vec!["prog".to_string()];
    assert_eq!(get_first_arg_or(&none, "missing"), Err("missing"));
}
