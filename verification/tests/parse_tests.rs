use simgps::parse::{parse_coords, ParseError};
use simgps::state::Position;

fn args(xs: &[&str]) -> Vec<String> {
    xs.iter().map(|s| s.to_string()).collect()
}

#[test]
fn parses_canonical_pair() {
    let r = parse_coords(&args(&["35.66,139.69"])).unwrap();
    assert_eq!(
        r,
        Position { lat_units: 3_958_260_000_000, lng_units: 15_505_590_000_000 }
    );
}

#[test]
fn separator_mixes_agree_with_canonical() {
    let canonical = parse_coords(&args(&["35.66,139.69"])).unwrap();
    let variants: &[&[&str]] = &[
        &["35.66", "139.69"],
        &["35.66 139.69"],
        &["35.66 , 139.69"],
        &["35.66,", "139.69"],
        &["35.66\t139.69"],
        &["", "35.66", ",", "139.69", ""],
    ];
    for v in variants {
        assert_eq!(parse_coords(&args(v)).unwrap(), canonical, "input {:?}", v);
    }
}

#[test]
fn count_error_cites_actual_count() {
    for (input, expected) in [
        (&[][..], 0usize),
        (&["35.66"][..], 1),
        (&["1", "2", "3"][..], 3),
        (&["1,2,3,4"][..], 4),
        (&[",,,"][..], 0),
    ] {
        match parse_coords(&args(input)) {
            Err(ParseError::MalformedCoordinateCount { actual }) => {
                assert_eq!(actual, expected, "input {:?}", input)
            }
            other => panic!("input {:?}: unexpected {:?}", input, other),
        }
    }
}

#[test]
fn count_error_message() {
    let e = parse_coords(&args(&["1", "2", "3"])).unwrap_err();
    assert_eq!(
        e.message(),
        "Expected 2 coordinates, got 3. Usage: simgps <lat> <lng>"
    );
    let e = parse_coords(&args(&[])).unwrap_err();
    assert_eq!(
        e.message(),
        "Expected 2 coordinates, got 0. Usage: simgps <lat> <lng>"
    );
    let many: Vec<String> = (0..12).map(|i| i.to_string()).collect();
    let e = parse_coords(&many).unwrap_err();
    assert_eq!(
        e.message(),
        "Expected 2 coordinates, got 12. Usage: simgps <lat> <lng>"
    );
}

#[test]
fn value_error_names_failing_token() {
    match parse_coords(&args(&["abc", "1.5"])) {
        Err(ParseError::MalformedCoordinateValue { latitude, token }) => {
            assert!(latitude);
            assert_eq!(token, "abc");
        }
        other => panic!("unexpected {:?}", other),
    }
    match parse_coords(&args(&["1.5", "x9"])) {
        Err(ParseError::MalformedCoordinateValue { latitude, token }) => {
            assert!(!latitude);
            assert_eq!(token, "x9");
        }
        other => panic!("unexpected {:?}", other),
    }
}

#[test]
fn value_error_messages() {
    let e = parse_coords(&args(&["abc", "1.5"])).unwrap_err();
    assert_eq!(e.message(), "Invalid latitude: abc");
    let e = parse_coords(&args(&["1.5", "x9"])).unwrap_err();
    assert_eq!(e.message(), "Invalid longitude: x9");
}

#[test]
fn signed_literals() {
    let r = parse_coords(&args(&["+3.5,-0.5"])).unwrap();
    assert_eq!(r.lat_units, 388_500_000_000);
    assert_eq!(r.lng_units, -55_500_000_000);
}

#[test]
fn zero_and_integer_literals() {
    let r = parse_coords(&args(&["0,0"])).unwrap();
    assert_eq!(r, Position { lat_units: 0, lng_units: 0 });
    let r = parse_coords(&args(&["35", "139"])).unwrap();
    assert_eq!(r.lat_units, 35 * 111_000_000_000);
    assert_eq!(r.lng_units, 139 * 111_000_000_000);
}

#[test]
fn malformed_literals_are_value_errors() {
    for bad in ["35.", ".5", "1e3", "--1", "1.2.3", "+", "-", "1.5x"] {
        let input = args(&[bad, "1.0"]);
        match parse_coords(&input) {
            Err(ParseError::MalformedCoordinateValue { latitude, token }) => {
                assert!(latitude, "token {:?}", bad);
                assert_eq!(token, bad);
            }
            other => panic!("token {:?}: unexpected {:?}", bad, other),
        }
    }
}

#[test]
fn fractional_digits_beyond_ninth_are_ignored() {
    let long = parse_coords(&args(&["1.0000000001,0"])).unwrap();
    let short = parse_coords(&args(&["1.0,0"])).unwrap();
    assert_eq!(long, short);
    let r = parse_coords(&args(&["0.123456789987,0"])).unwrap();
    assert_eq!(r.lat_units, 123_456_789 * 111);
}

#[test]
fn whole_degrees_over_limit_are_rejected() {
    match parse_coords(&args(&["1000001,0"])) {
        Err(ParseError::MalformedCoordinateValue { latitude, token }) => {
            assert!(latitude);
            assert_eq!(token, "1000001");
        }
        other => panic!("unexpected {:?}", other),
    }
    let r = parse_coords(&args(&["1000000,0"])).unwrap();
    assert_eq!(r.lat_units, 111_000_000_000_000_000);
}
