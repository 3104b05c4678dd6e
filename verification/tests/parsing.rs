use city_stats::aggmap::AggregateMap;
use city_stats::parse::process_buffer;
use city_stats::value::parse_value;

#[test]
fn parses_plain_integer() {
    assert_eq!(parse_value(b"12"), Some(120));
    assert_eq!(parse_value(b"0"), Some(0));
}

#[test]
fn parses_one_fractional_digit() {
    assert_eq!(parse_value(b"12.0"), Some(120));
    assert_eq!(parse_value(b"-3.4"), Some(-34));
    assert_eq!(parse_value(b"0.5"), Some(5));
    assert_eq!(parse_value(b"-0.5"), Some(-5));
}

#[test]
fn accepts_trailing_zero_fraction_digits() {
    assert_eq!(parse_value(b"3.400"), Some(34));
    assert_eq!(parse_value(b"3.450"), None);
}

#[test]
fn rejects_malformed_values() {
    assert_eq!(parse_value(b""), None);
    assert_eq!(parse_value(b"-"), None);
    assert_eq!(parse_value(b"abc"), None);
    assert_eq!(parse_value(b"1e5"), None);
    assert_eq!(parse_value(b"1."), None);
    assert_eq!(parse_value(b".5"), None);
    assert_eq!(parse_value(b"1.2.3"), None);
    assert_eq!(parse_value(b"--5"), None);
}

#[test]
fn rejects_values_beyond_fixed_point_range() {
    assert_eq!(parse_value(b"99999999999.9"), Some(999_999_999_999));
    assert_eq!(parse_value(b"999999999999"), None);
    assert_eq!(parse_value(b"000000000000012.5"), Some(125));
}

#[test]
fn single_record_is_aggregated() {
    let mut map = AggregateMap::new();
    process_buffer(b"Hamburg;12.0\n", &mut map);
    let st = map.get_stats(b"Hamburg").unwrap();
    assert_eq!(st.min, 120);
    assert_eq!(st.sum, 120);
    assert_eq!(st.max, 120);
    assert_eq!(st.count, 1);
    assert_eq!(map.len(), 1);
}

#[test]
fn repeated_key_tracks_min_sum_max_count() {
    let mut map = AggregateMap::new();
    process_buffer(b"A;1.0\nA;-2.5\nA;4.0\n", &mut map);
    let st = map.get_stats(b"A").unwrap();
    assert_eq!(st.min, -25);
    assert_eq!(st.sum, 25);
    assert_eq!(st.max, 40);
    assert_eq!(st.count, 3);
}

#[test]
fn malformed_lines_are_skipped() {
    let mut map = AggregateMap::new();
    process_buffer(b"A;1.0\nBadLine\nB;2.0\n", &mut map);
    assert_eq!(map.len(), 2);
    assert_eq!(map.get_stats(b"A").unwrap().count, 1);
    assert_eq!(map.get_stats(b"B").unwrap().count, 1);
    assert!(map.get_stats(b"BadLine").is_none());
}

#[test]
fn unparsable_number_and_invalid_utf8_are_skipped() {
    let mut map = AggregateMap::new();
    process_buffer(b"A;xyz\n\xff\xfe;1.0\nB;2.0\n", &mut map);
    assert_eq!(map.len(), 1);
    assert!(map.get_stats(b"A").is_none());
    assert!(map.get_stats(b"\xff\xfe").is_none());
    assert_eq!(map.get_stats(b"B").unwrap().count, 1);
}

#[test]
fn trailing_fragment_without_newline_is_discarded() {
    let mut map = AggregateMap::new();
    process_buffer(b"A;1.0\nB;2.0", &mut map);
    assert_eq!(map.len(), 1);
    assert!(map.get_stats(b"B").is_none());
}

#[test]
fn empty_key_is_a_valid_key() {
    let mut map = AggregateMap::new();
    process_buffer(b";7.0\n", &mut map);
    assert_eq!(map.get_stats(b"").unwrap().sum, 70);
}
