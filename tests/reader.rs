use gps_telemetry::reader::{
    classify, get_date_time, is_sentence_of_interest, parse_line, FixQuality, GgaReading,
    GpsReaderResults, ParseLabel, SentenceKind,
};

fn sentence(text: &str) -> heapless::String<82> {
    let mut s = heapless::String::new();
    s.push_str(text).unwrap();
    s
}

fn position() -> GpsReaderResults {
    GpsReaderResults {
        lat: Some(476_062_000),
        lon: Some(-1_223_321_000),
        alt: Some(10_000),
        hdop: Some(100),
        timestamp: Some(1_000),
    }
}

#[test]
fn date_fields_decode() {
    let d = get_date_time(b"$GNZDA,195027.000,07,09,2025,,*4B").unwrap();
    assert_eq!(d.hour, 19);
    assert_eq!(d.minute, 50);
    assert_eq!(d.second, 27);
    assert_eq!(d.day, 7);
    assert_eq!(d.month, 9);
    assert_eq!(d.year, 2025);
    assert_eq!(d.pretty_time.as_str(), "19:50");
    assert_eq!(d.pretty_date.as_str(), "07/09/25");
}

#[test]
fn date_field_string_alone_decodes() {
    let d = get_date_time(b"ZDA,195027.000,07,09,2025").unwrap();
    assert_eq!((d.hour, d.minute, d.second), (19, 50, 27));
    assert_eq!((d.day, d.month, d.year), (7, 9, 2025));
}

#[test]
fn three_digit_day_widens_the_date() {
    let d = get_date_time(b"$GNZDA,010203,123,4,1999,,*00").unwrap();
    assert_eq!(d.pretty_date.as_str(), "123/04/99");
    assert_eq!(d.pretty_time.as_str(), "01:02");
}

#[test]
fn plus_signed_fields_are_numbers() {
    let d = get_date_time(b"$GNZDA,+50203,+7,09,2025,,*00").unwrap();
    assert_eq!(d.hour, 5);
    assert_eq!(d.minute, 2);
    assert_eq!(d.second, 3);
    assert_eq!(d.day, 7);
}

#[test]
fn date_failures() {
    assert!(get_date_time(b"$GNZDA,19502,07,09,2025*00").is_none());
    assert!(get_date_time(b"$GNZDA,1950xx,07,09,2025*00").is_none());
    assert!(get_date_time(b"$GNZDA,195027,256,09,2025*00").is_none());
    assert!(get_date_time(b"$GNZDA,195027,07,,2025*00").is_none());
    assert!(get_date_time(b"$GNZDA,195027,07,09,202*00").is_none());
    assert!(get_date_time(b"$GNZDA,195027,07,09").is_none());
}

#[test]
fn classification() {
    assert_eq!(classify(b"$GNGGA,1*00"), SentenceKind::Position);
    assert_eq!(classify(b"$GNZDA,1*00"), SentenceKind::Date);
    assert_eq!(classify(b"$GPRMC,1*00"), SentenceKind::Uninteresting);
    assert_eq!(classify(b"$GNGGA,1"), SentenceKind::Malformed);
    assert_eq!(classify(b"GNGGA,1*00"), SentenceKind::Malformed);
    assert_eq!(classify(b""), SentenceKind::Malformed);
}

#[test]
fn sentences_of_interest() {
    assert!(is_sentence_of_interest(&sentence("$GNGGA,1*00")));
    assert!(is_sentence_of_interest(&sentence("$GNZDA,1*00")));
    assert!(!is_sentence_of_interest(&sentence("$GPGGA,1*00")));
}

#[test]
fn gga_with_fix_is_a_position() {
    let g = GgaReading { fix: Some(FixQuality::Gps), position: position() };
    let out = parse_line(sentence("$GNGGA,x*00"), Some(g));
    assert_eq!(out.label, ParseLabel::GgaOk);
    assert_eq!(out.fix, Some(FixQuality::Gps));
    assert_eq!(out.reader_results, Some(position()));
    assert!(out.reader_datetime.is_none());
    assert_eq!(out.line.as_str(), "$GNGGA,x*00");
    assert_eq!(out.label.tag(), "[GGA-OK] ");
}

#[test]
fn gga_without_fix_is_no_fix_yet() {
    let g = GgaReading { fix: None, position: position() };
    let out = parse_line(sentence("$GNGGA,x*00"), Some(g));
    assert_eq!(out.label, ParseLabel::GgaNoFix);
    assert!(out.fix.is_none() && out.reader_results.is_none());
    let g = GgaReading { fix: Some(FixQuality::Invalid), position: position() };
    let out = parse_line(sentence("$GNGGA,x*00"), Some(g));
    assert_eq!(out.label, ParseLabel::GgaNoFix);
}

#[test]
fn gga_refused_by_decoder() {
    let out = parse_line(sentence("$GNGGA,x*00"), None);
    assert_eq!(out.label, ParseLabel::GgaRejected);
    assert_eq!(out.label.tag(), "[ERR] ");
}

#[test]
fn zda_outcomes() {
    let out = parse_line(sentence("$GNZDA,195027.000,07,09,2025,,*4B"), None);
    assert_eq!(out.label, ParseLabel::Zda);
    assert_eq!(out.reader_datetime.unwrap().pretty_time.as_str(), "19:50");
    let out = parse_line(sentence("$GNZDA,bad*4B"), None);
    assert_eq!(out.label, ParseLabel::ZdaRejected);
    assert!(out.reader_datetime.is_none());
}

#[test]
fn malformed_and_uninteresting() {
    let g = GgaReading { fix: Some(FixQuality::Gps), position: position() };
    let out = parse_line(sentence("$GNGGA,no checksum"), Some(g));
    assert_eq!(out.label, ParseLabel::Malformed);
    assert!(out.reader_results.is_none());
    assert_eq!(out.label.tag(), "[BAD] ");
    let out = parse_line(sentence("$GPRMC,1*00"), None);
    assert_eq!(out.label, ParseLabel::Uninteresting);
}

#[test]
fn reader_passes_only_sentences_of_interest() {
    let mut reader = gps_telemetry::reader::GpsReader::new();
    let mut got = Vec::new();
    for b in b"$GPRMC,1*00\r\n$GNZDA,195027.000,07,09,2025,,*4B\r\n$GNGGA,2*00\r\n".iter() {
        if let Some(s) = reader.next_sentence(*b) {
            got.push(s.as_str().to_string());
        }
    }
    assert_eq!(got, vec!["$GNZDA,195027.000,07,09,2025,,*4B", "$GNGGA,2*00"]);
}
