use chrono::{DateTime, TimeZone, Utc};
use osv2gpx::gpx::{
    first_gpx_time, gpx_point_order, interpolate_gps_point, is_local_name, read_gpx_records, write_gpx,
    GpxError, GpxPoint, GpxWriteError, Interpolation,
};
use osv2gpx::time::Timestamp;

fn ts(t: DateTime<Utc>) -> Timestamp {
    Timestamp { secs: t.timestamp(), nanos: t.timestamp_subsec_nanos() }
}

fn lerp(a: f64, b: f64, ratio: f64) -> f64 {
    a + (b - a) * ratio
}

#[test]
fn interpolates_between_gpx_points() {
    let t0 = Utc.with_ymd_and_hms(2026, 5, 27, 9, 23, 16).unwrap();
    let t1 = Utc.with_ymd_and_hms(2026, 5, 27, 9, 23, 18).unwrap();
    let lats = [24.0, 26.0];
    let lons = [121.0, 123.0];
    let alts = [100.0, 200.0];
    let times = vec![ts(t0), ts(t1)];

    let at = ts(t0 + chrono::Duration::seconds(1));
    let (lat, lon, abs_alt) = match interpolate_gps_point(&times, at).unwrap() {
        Interpolation::Between { before, after, elapsed_ns, total_ns } => {
            let ratio = elapsed_ns as f64 / total_ns as f64;
            (
                lerp(lats[before], lats[after], ratio),
                lerp(lons[before], lons[after], ratio),
                lerp(alts[before], alts[after], ratio),
            )
        }
        Interpolation::At(i) => (lats[i], lons[i], alts[i]),
    };
    assert_eq!(lat, 25.0);
    assert_eq!(lon, 122.0);
    assert_eq!(abs_alt, 150.0);
}

#[test]
fn interpolation_at_points_and_outside() {
    let t0 = Utc.with_ymd_and_hms(2026, 5, 27, 9, 23, 16).unwrap();
    let times = vec![ts(t0), ts(t0 + chrono::Duration::seconds(2)), ts(t0 + chrono::Duration::seconds(2))];
    assert_eq!(interpolate_gps_point(&times, ts(t0)), Some(Interpolation::At(0)));
    assert_eq!(interpolate_gps_point(&times, ts(t0 + chrono::Duration::seconds(2))), Some(Interpolation::At(1)));
    assert_eq!(interpolate_gps_point(&times, ts(t0 - chrono::Duration::seconds(1))), None);
    assert_eq!(interpolate_gps_point(&times, ts(t0 + chrono::Duration::seconds(3))), None);
    assert_eq!(interpolate_gps_point(&Vec::new(), ts(t0)), None);
    assert_eq!(
        interpolate_gps_point(&times, ts(t0 + chrono::Duration::milliseconds(500))),
        Some(Interpolation::Between { before: 0, after: 1, elapsed_ns: 500_000_000, total_ns: 2_000_000_000 })
    );
}

const GPX: &str = r#"<?xml version="1.0" encoding="UTF-8"?>
<gpx version="1.1" xmlns="http://www.topografix.com/GPX/1/1">
  <metadata><time> 2026-05-27T09:00:00Z </time></metadata>
  <trk><trkseg>
    <trkpt lat="24.5" lon="121.5"><ele> 10.5 </ele><time>2026-05-27T09:23:18Z</time></trkpt>
    <trkpt lat="24.0" lon="121.0"><ele>9</ele><time>2026-05-27T09:23:16.500Z</time></trkpt>
    <trkpt lat="1"><time>2026-05-27T09:23:17Z</time></trkpt>
    <gpx:trkpt lat="25" lon="122"><gpx:time><![CDATA[2026-05-27T09:23:16.500Z]]></gpx:time></gpx:trkpt>
  </trkseg></trk>
</gpx>
"#;

#[test]
fn first_time_is_read_from_any_time_element() {
    let t = first_gpx_time(GPX.as_bytes()).unwrap();
    assert_eq!(t, ts(Utc.with_ymd_and_hms(2026, 5, 27, 9, 0, 0).unwrap()));
}

#[test]
fn first_time_errors() {
    assert!(matches!(first_gpx_time(b"<gpx><trk/></gpx>"), Err(GpxError::NoTime)));
    assert!(matches!(first_gpx_time(b"<gpx><time>yesterday</time></gpx>"), Err(GpxError::InvalidTime { .. })));
    assert!(matches!(first_gpx_time(b"<gpx><time>2026-05-27T09:00:00Z"), Err(GpxError::UnexpectedEofInElement)));
    assert!(matches!(first_gpx_time(b"<gpx><time>2026</tim></gpx>"), Err(GpxError::Xml(_))));
    match first_gpx_time(b"<time>noon</time>") {
        Err(GpxError::InvalidTime { value, .. }) => assert_eq!(value, "noon"),
        other => panic!("unexpected {:?}", other),
    }
}

#[test]
fn records_keep_file_order_and_text() {
    let records = read_gpx_records(GPX.as_bytes()).unwrap();
    assert_eq!(records.len(), 4);
    assert_eq!(records[0].lat, vec!["24.5".to_string()]);
    assert_eq!(records[0].lon, vec!["121.5".to_string()]);
    assert_eq!(records[0].ele, vec!["10.5".to_string()]);
    assert_eq!(records[0].time, Some(ts(Utc.with_ymd_and_hms(2026, 5, 27, 9, 23, 18).unwrap())));
    assert!(records[2].lon.is_empty());
    assert_eq!(records[3].lat, vec!["25".to_string()]);
    assert!(records[3].ele.is_empty());
    assert_eq!(records[3].time, records[1].time);
}

#[test]
fn point_order_sorts_complete_records_stably() {
    let records = read_gpx_records(GPX.as_bytes()).unwrap();
    assert_eq!(gpx_point_order(&records), vec![1, 3, 0]);
}

#[test]
fn records_errors() {
    assert!(matches!(read_gpx_records(b"<gpx><trkpt lat=\"1\">"), Err(GpxError::UnexpectedEofInTrackPoint)));
    assert!(matches!(read_gpx_records(b"<trkpt lat=1></trkpt>"), Err(GpxError::Attribute(_))));
    assert!(matches!(
        read_gpx_records(b"<trkpt><time>x</time></trkpt>"),
        Err(GpxError::InvalidTime { .. })
    ));
    assert_eq!(read_gpx_records(b"<gpx/>").unwrap().len(), 0);
}

#[test]
fn local_names_ignore_the_prefix() {
    assert!(is_local_name(b"time", b"time"));
    assert!(is_local_name(b"gpx:time", b"time"));
    assert!(is_local_name(b"a:b:time", b"time"));
    assert!(!is_local_name(b"times", b"time"));
    assert!(!is_local_name(b"time:x", b"time"));
    assert!(is_local_name(b"gpx:", b""));
}

#[test]
fn writes_a_gpx_track() {
    let t = Utc.with_ymd_and_hms(2026, 5, 27, 9, 23, 16).unwrap() + chrono::Duration::milliseconds(647);
    let points = vec![GpxPoint {
        lat: "24.79920562".to_string(),
        lon: "121.05540174".to_string(),
        ele: "201.138".to_string(),
        time: ts(t),
    }];
    let bytes = write_gpx(&points, "flight").unwrap();
    let text = String::from_utf8(bytes).unwrap();
    assert!(text.starts_with("<?xml version=\"1.0\" encoding=\"UTF-8\"?>"));
    assert!(text.contains("<trkpt lat=\"24.79920562\" lon=\"121.05540174\">"));
    assert!(text.contains("<ele>201.138</ele>"));
    assert!(text.contains("<time>2026-05-27T09:23:16.647Z</time>"));
    assert!(text.contains("<name>flight</name>"));
    assert!(text.ends_with("</gpx>\n"));
    let back = read_gpx_records(text.as_bytes()).unwrap();
    assert_eq!(back.len(), 1);
    assert_eq!(back[0].time, Some(ts(t)));
    assert_eq!(first_gpx_time(text.as_bytes()).unwrap(), ts(t));
}

#[test]
fn write_refuses_unrepresentable_times() {
    let points = vec![GpxPoint {
        lat: "0".to_string(),
        lon: "0".to_string(),
        ele: "0".to_string(),
        time: Timestamp { secs: i64::MAX, nanos: 0 },
    }];
    assert!(matches!(write_gpx(&points, "x"), Err(GpxWriteError::InvalidTime { index: 0 })));
}

#[test]
fn cdata_time_text_is_trimmed_and_joined() {
    let gpx = b"<gpx><time><![CDATA[ 2026-05-27T09:00:00Z ]]></time></gpx>";
    assert_eq!(first_gpx_time(gpx).unwrap(), ts(Utc.with_ymd_and_hms(2026, 5, 27, 9, 0, 0).unwrap()));
    let split = b"<gpx><time>2026-05-27T<![CDATA[09:00:01Z]]></time></gpx>";
    assert_eq!(first_gpx_time(split).unwrap(), ts(Utc.with_ymd_and_hms(2026, 5, 27, 9, 0, 1).unwrap()));
}

#[test]
fn undecodable_time_text_is_refused() {
    let gpx = b"<gpx><time>\xff\xfe</time></gpx>";
    assert!(matches!(first_gpx_time(gpx), Err(GpxError::Decode(_))));
}

#[test]
fn track_points_come_with_their_order() {
    let track = osv2gpx::gpx::read_gpx_points(GPX.as_bytes()).unwrap();
    assert_eq!(track.records.len(), 4);
    assert_eq!(track.order, vec![1, 3, 0]);
    assert!(matches!(osv2gpx::gpx::read_gpx_points(b"<trkpt>"), Err(GpxError::UnexpectedEofInTrackPoint)));
}

#[test]
fn interpolation_is_none_exactly_outside_the_track() {
    let t0 = Utc.with_ymd_and_hms(2016, 12, 31, 23, 59, 59).unwrap();
    let times = vec![ts(t0), ts(t0 + chrono::Duration::seconds(3))];
    for ms in [-1000i64, -1, 0, 1, 1500, 2999, 3000, 3001, 4000] {
        let at = ts(t0 + chrono::Duration::milliseconds(ms));
        let inside = (0..=3000).contains(&ms);
        assert_eq!(interpolate_gps_point(&times, at).is_some(), inside, "at {ms} ms");
    }
    // an instant inside a leap second still gets a place
    let leap = Timestamp { secs: t0.timestamp(), nanos: 1_500_000_000 };
    assert!(matches!(
        interpolate_gps_point(&times, leap),
        Some(Interpolation::Between { before: 0, after: 1, elapsed_ns: 1_500_000_000, total_ns: 3_000_000_000 })
    ));
}

#[test]
fn writing_always_succeeds_for_valid_times() {
    let t = Utc.with_ymd_and_hms(2026, 5, 27, 9, 23, 16).unwrap();
    let points: Vec<GpxPoint> = (0..3)
        .map(|i| GpxPoint {
            lat: format!("{:.8}", 24.0 + i as f64),
            lon: "121.00000000".to_string(),
            ele: "1.000".to_string(),
            time: ts(t + chrono::Duration::seconds(i)),
        })
        .collect();
    let text = String::from_utf8(write_gpx(&points, "a<b").unwrap()).unwrap();
    assert_eq!(text.matches("<trkpt ").count(), 3);
    assert!(text.contains("<name>a&lt;b</name>"));
    assert!(write_gpx(&Vec::new(), "empty").is_ok());
}

#[test]
fn chrono_range_and_leap_seconds_decide_valid_times() {
    let point = |secs: i64, nanos: u32| GpxPoint {
        lat: "0".to_string(),
        lon: "0".to_string(),
        ele: "0".to_string(),
        time: Timestamp { secs, nanos },
    };
    let last_minute_second = Utc.with_ymd_and_hms(2016, 12, 31, 23, 59, 59).unwrap().timestamp();
    let text = String::from_utf8(write_gpx(&vec![point(last_minute_second, 1_500_000_000)], "x").unwrap()).unwrap();
    assert!(text.contains("<time>2016-12-31T23:59:60.500Z</time>"));
    assert!(matches!(
        write_gpx(&vec![point(last_minute_second - 1, 1_500_000_000)], "x"),
        Err(GpxWriteError::InvalidTime { index: 0 })
    ));
    assert!(matches!(
        write_gpx(&vec![point(last_minute_second, 2_000_000_000)], "x"),
        Err(GpxWriteError::InvalidTime { index: 0 })
    ));
    assert!(write_gpx(&vec![point(8_210_266_876_799, 0), point(-8_334_601_228_800, 0)], "x").is_ok());
    assert!(matches!(
        write_gpx(&vec![point(8_210_266_876_799, 0), point(8_210_266_876_800, 0)], "x"),
        Err(GpxWriteError::InvalidTime { index: 1 })
    ));
    assert!(matches!(
        write_gpx(&vec![point(-8_334_601_228_801, 0)], "x"),
        Err(GpxWriteError::InvalidTime { index: 0 })
    ));
}
