use gps_telemetry::fns::{calculate_speed, to_feet};
use gps_telemetry::reader::GpsReaderResults;
use gps_telemetry::stack::GeoStack;

fn fix(lat: f64, lon: f64, alt_m: f64, hdop: f64, ms: u32) -> GpsReaderResults {
    GpsReaderResults {
        lat: Some((lat * 1e7).round() as i32),
        lon: Some((lon * 1e7).round() as i32),
        alt: Some((alt_m * 1000.0).round() as i32),
        hdop: Some((hdop * 100.0).round() as u32),
        timestamp: Some(ms),
    }
}

fn haversine_mft(a: &GpsReaderResults, b: &GpsReaderResults) -> u64 {
    let r = 6_371_000.0_f64;
    let to_rad = |e7: i32| (e7 as f64 / 1e7).to_radians();
    let (la1, lo1) = (to_rad(a.lat.unwrap()), to_rad(a.lon.unwrap()));
    let (la2, lo2) = (to_rad(b.lat.unwrap()), to_rad(b.lon.unwrap()));
    let h = ((la2 - la1) / 2.0).sin().powi(2)
        + la1.cos() * la2.cos() * ((lo2 - lo1) / 2.0).sin().powi(2);
    let c = 2.0 * h.sqrt().atan2((1.0 - h).sqrt());
    (r * 3.28084 * c * 1000.0) as u64
}

fn offer(g: &mut GeoStack, f: GpsReaderResults, recording: bool) {
    let d = match g.last() {
        Some(prev) => haversine_mft(&prev, &f),
        None => 0,
    };
    g.add_coords(f, d, recording);
}

fn held(g: &GeoStack) -> Vec<u32> {
    g.stack.iter().map(|f| f.timestamp.unwrap()).collect()
}

#[test]
fn two_fixes_one_second_apart() {
    let mut g = GeoStack::new();
    offer(&mut g, fix(47.6062, -122.3321, 10.0, 1.0, 0), true);
    offer(&mut g, fix(47.6063, -122.3321, 11.0, 1.0, 1000), true);
    assert!((36_000..38_000).contains(&g.total_distance), "{}", g.total_distance);
    assert_eq!(g.last_segment_distance, g.total_distance);
    assert_eq!(g.total_elevation_gain, 3280);
    assert!(g.current_speed_mph > 0);
    assert_eq!(g.current_hdop, 100);
    assert_eq!(held(&g), vec![0, 1000]);
}

#[test]
fn exact_segment_figures() {
    let mut g = GeoStack::new();
    g.add_coords(fix(47.0, -122.0, 100.0, 1.5, 0), 0, true);
    g.add_coords(fix(47.001, -122.0, 99.0, 1.5, 2000), 36_480, true);
    assert_eq!(g.total_distance, 36_480);
    assert_eq!(g.last_segment_distance, 36_480);
    assert_eq!(g.total_elevation_gain, 0);
    assert_eq!(g.current_speed_mph, calculate_speed(36_480, 2000));
    assert_eq!(g.current_speed_mph, 12_436);
}

#[test]
fn ring_keeps_the_newest_sixteen() {
    let mut g = GeoStack::new();
    for i in 0..40u32 {
        g.add_coords(fix(47.0 + i as f64 * 0.001, -122.0, 0.0, 1.0, i * 1000), 100_000, true);
        assert_eq!(g.stack.len(), std::cmp::min(i as usize + 1, 16));
    }
    let expected: Vec<u32> = (24..40).map(|i| i * 1000).collect();
    assert_eq!(held(&g), expected);
}

#[test]
fn ring_buffer_push_evicts_oldest() {
    let mut g = GeoStack::new();
    for i in 0..17u32 {
        g.ring_buffer_push(fix(0.0, 0.0, 0.0, 1.0, i));
    }
    assert_eq!(g.stack.len(), 16);
    assert_eq!(held(&g), (1..17).collect::<Vec<u32>>());
}

#[test]
fn totals_never_decrease_while_recording() {
    let mut g = GeoStack::new();
    let alts = [10.0, 12.0, 8.0, 8.0, 20.0, 3.0];
    let mut last = (0, 0);
    for (i, a) in alts.iter().enumerate() {
        g.add_coords(fix(47.0, -122.0, *a, 1.0, i as u32 * 1500), 5_000, true);
        assert!(g.total_distance >= last.0 && g.total_elevation_gain >= last.1);
        last = (g.total_distance, g.total_elevation_gain);
    }
    assert_eq!(g.total_distance, 25_000);
    assert_eq!(g.total_elevation_gain, to_feet(2000) as u64 + to_feet(12_000) as u64);
}

#[test]
fn recording_off_freezes_totals_only() {
    let mut on = GeoStack::new();
    let mut off = GeoStack::new();
    for i in 0..5u32 {
        let f = fix(47.0 + i as f64 * 0.001, -122.0, i as f64, 1.2, i * 1000);
        on.add_coords(f, 364_000, true);
        off.add_coords(f, 364_000, false);
    }
    assert_eq!(off.total_distance, 0);
    assert_eq!(off.total_elevation_gain, 0);
    assert_eq!(off.last_segment_distance, 0);
    assert_eq!(off.current_hdop, 120);
    assert!(off.current_speed_mph > 0);
    assert_eq!(off.current_speed_mph, on.current_speed_mph);
    assert_eq!(held(&off), held(&on));
    assert!(on.total_distance > 0);
}

#[test]
fn too_soon_is_discarded() {
    let mut g = GeoStack::new();
    g.add_coords(fix(47.0, -122.0, 0.0, 1.0, 5000), 0, true);
    g.add_coords(fix(47.1, -122.0, 0.0, 0.5, 5999), 1_000_000, true);
    assert_eq!(held(&g), vec![5000]);
    assert_eq!(g.current_hdop, 100);
    assert_eq!(g.total_distance, 0);
    g.add_coords(fix(47.1, -122.0, 0.0, 0.5, 4000), 1_000_000, true);
    assert_eq!(held(&g), vec![5000]);
}

#[test]
fn poor_precision_updates_hdop_only() {
    let mut g = GeoStack::new();
    g.add_coords(fix(47.0, -122.0, 0.0, 1.0, 0), 0, true);
    g.add_coords(fix(47.1, -122.0, 0.0, 2.5, 1000), 1_000_000, true);
    assert_eq!(g.current_hdop, 250);
    assert_eq!(g.total_distance, 0);
    assert_eq!(held(&g), vec![0]);
    g.add_coords(fix(47.1, -122.0, 0.0, 2.0, 2000), 1_000_000, true);
    assert_eq!(g.total_distance, 1_000_000);
}

#[test]
fn short_segment_is_noise() {
    let mut g = GeoStack::new();
    g.add_coords(fix(47.0, -122.0, 0.0, 1.0, 0), 0, true);
    g.add_coords(fix(47.0, -122.0, 0.0, 1.0, 1000), 2000, true);
    assert_eq!(g.total_distance, 0);
    assert_eq!(held(&g), vec![0]);
    g.add_coords(fix(47.0, -122.0, 0.0, 1.0, 2000), 2001, true);
    assert_eq!(g.total_distance, 2001);
}

#[test]
fn incomplete_fix_is_ignored() {
    let mut g = GeoStack::new();
    let mut f = fix(47.0, -122.0, 0.0, 1.0, 0);
    f.timestamp = None;
    g.add_coords(f, 0, true);
    assert!(g.last().is_none());
    assert_eq!(g.current_hdop, 0);
    let mut f = fix(47.0, -122.0, 0.0, 1.0, 0);
    f.alt = None;
    g.add_coords(f, 0, true);
    assert_eq!(held(&g), vec![0]);
}

#[test]
fn speed_and_feet_conversions() {
    assert_eq!(calculate_speed(5280_000, 3_600_000), 1000);
    assert_eq!(calculate_speed(1000, 0), 0);
    assert_eq!(calculate_speed(u64::MAX, 1), u64::MAX);
    assert_eq!(to_feet(1000), 3280);
    assert_eq!(to_feet(-1000), -3280);
    assert_eq!(to_feet(0), 0);
}
