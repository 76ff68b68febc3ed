use gps_telemetry::bridge::LatestState;
use gps_telemetry::display::{
    confirm_press, distance_readout, quality_text, recording_text, ButtonDebounce,
};
use gps_telemetry::reader::{parse_line, FixQuality, GgaReading, GpsReaderResults};
use gps_telemetry::storage::DummyTimesource;

#[test]
fn quality_marks() {
    assert_eq!(quality_text(None, 50), "N/A");
    assert_eq!(quality_text(Some(FixQuality::Invalid), 50), "X");
    assert_eq!(quality_text(Some(FixQuality::Gps), 250), "O");
    assert_eq!(quality_text(Some(FixQuality::Gps), 150), "O)");
    assert_eq!(quality_text(Some(FixQuality::Gps), 99), "O))");
    assert_eq!(quality_text(Some(FixQuality::DGps), 100), "D)");
    assert_eq!(quality_text(Some(FixQuality::FloatRtk), 150), "R");
    assert_eq!(quality_text(Some(FixQuality::FloatRtk), 80), "R)");
    assert_eq!(quality_text(Some(FixQuality::Rtk), 900), "R))");
    assert_eq!(quality_text(Some(FixQuality::Other), 10), "??");
}

#[test]
fn recording_marks() {
    assert_eq!(recording_text(true), ">>");
    assert_eq!(recording_text(false), "--");
}

#[test]
fn distance_units() {
    let r = distance_readout(5_280_000);
    assert_eq!((r.value, r.scale, r.precision, r.unit), (5_280_000, 3, 0, "'"));
    let r = distance_readout(7_920_000);
    assert_eq!((r.value, r.scale, r.precision, r.unit), (1500, 3, 3, "mi."));
}

#[test]
fn button_press_toggles_recording() {
    let mut b = ButtonDebounce::new(true);
    assert!(!b.sample(true));
    assert!(b.sample(false));
    assert!(!b.sample(false));
    assert!(confirm_press(true, false));
    assert!(!confirm_press(false, false));
    assert!(!confirm_press(true, true));
}

#[test]
fn latest_state_keeps_last_good_values() {
    let mut s = heapless::String::<82>::new();
    s.push_str("$GNGGA,x*00").unwrap();
    let p = GpsReaderResults {
        lat: Some(1),
        lon: Some(2),
        alt: None,
        hdop: Some(90),
        timestamp: Some(3),
    };
    let mut latest = LatestState::new();
    let out = parse_line(s, Some(GgaReading { fix: Some(FixQuality::Gps), position: p }));
    assert_eq!(latest.absorb(out), Some(p));
    let mut z = heapless::String::<82>::new();
    z.push_str("$GNZDA,010203,04,05,2006,,*00").unwrap();
    assert_eq!(latest.absorb(parse_line(z, None)), Some(p));
    assert_eq!(latest.fix, Some(FixQuality::Gps));
    assert_eq!(latest.datetime.as_ref().unwrap().pretty_date.as_str(), "04/05/06");
    let mut bad = heapless::String::<82>::new();
    bad.push_str("$GNZDA,bad*00").unwrap();
    latest.absorb(parse_line(bad, None));
    assert_eq!(latest.datetime.as_ref().unwrap().pretty_time.as_str(), "01:02");
}

#[test]
fn card_stamp_is_fixed() {
    let t = DummyTimesource::default().get_timestamp();
    assert_eq!((t.year_since_1970, t.zero_indexed_month, t.hours, t.seconds), (0, 0, 0, 0));
}
