use gps_telemetry::text::FloatToString;

fn render(value: i64, scale: u32, precision: u8) -> String {
    let mut t = FloatToString::new(precision);
    String::from_utf8(t.convert(value, scale)).unwrap()
}

#[test]
fn whole_and_fraction() {
    assert_eq!(render(12_345, 3, 2), "12.34");
    assert_eq!(render(12_345, 3, 0), "12");
    assert_eq!(render(12_000, 3, 2), "12");
    assert_eq!(render(5, 3, 3), "0.005");
    assert_eq!(render(5, 3, 5), "0.00500");
}

#[test]
fn negatives_and_zero() {
    assert_eq!(render(-1_223_321_000, 7, 6), "-122.332100");
    assert_eq!(render(-5, 1, 1), "-0.5");
    assert_eq!(render(0, 0, 3), "0");
    assert_eq!(render(i64::MIN, 0, 0), "-9223372036854775808");
}

#[test]
fn long_text_is_cut_at_capacity() {
    let s = render(i64::MAX, 1, 20);
    assert_eq!(s.len(), 32);
    assert_eq!(s, "922337203685477580.7000000000000");
}

#[test]
fn write_char_refuses_past_capacity() {
    let mut t = FloatToString::new(0);
    for _ in 0..32 {
        assert!(t.write_char(b'x').is_ok());
    }
    assert!(t.write_char(b'y').is_err());
}

#[test]
fn write_str_stops_when_full() {
    let mut t = FloatToString::new(0);
    assert!(t.write_str("0123456789012345678901234567890").is_ok());
    assert!(t.write_str("ab").is_err());
    assert!(t.write_char(b'c').is_err());
    assert_eq!(String::from_utf8(t.convert(7, 0)).unwrap(), "7");
}
