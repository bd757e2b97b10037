use chrono::{TimeZone, Utc};
use osv2gpx::jpeg::{
    build_exif_payload, build_exif_payload_with_dates, build_gpano_xmp_payload, geotag_jpeg, is_sof_marker, is_standalone_marker,
    jpeg_dimensions, push_ascii, push_ifd_entry, push_rational, push_u16, push_u32, replace_metadata_app1s,
    write_app1_segment, Dms, ExifGps, JpegDimensions, JpegError, Value, APP1, SOS,
};
use osv2gpx::time::Timestamp;

const XMP_HEADER: &[u8] = b"http://ns.adobe.com/xap/1.0/\0";

fn count_windows(haystack: &[u8], needle: &[u8]) -> usize {
    haystack.windows(needle.len()).filter(|w| *w == needle).count()
}

fn sample_point() -> ExifGps {
    let time = Utc.with_ymd_and_hms(2026, 5, 27, 9, 23, 16).unwrap();
    ExifGps {
        lat_negative: false,
        lat: Dms { degrees: 24, minutes: 30, seconds_e7: 0 },
        lon_negative: false,
        lon: Dms { degrees: 121, minutes: 30, seconds_e7: 0 },
        alt_negative: false,
        alt_mm: 100_000,
        time: Timestamp { secs: time.timestamp(), nanos: 0 },
    }
}

#[test]
fn replaces_existing_exif_and_xmp_app1() {
    let exif_payload = build_exif_payload(&sample_point()).unwrap();
    let xmp_payload = build_gpano_xmp_payload(JpegDimensions { width: 8192, height: 4096 });
    let old_exif = b"Exif\0\0old";
    let old_xmp = b"http://ns.adobe.com/xap/1.0/\0old";
    let mut jpeg = vec![0xff, 0xd8, 0xff, APP1, 0, (old_exif.len() + 2) as u8];
    jpeg.extend_from_slice(old_exif);
    jpeg.extend_from_slice(&[0xff, APP1, 0, (old_xmp.len() + 2) as u8]);
    jpeg.extend_from_slice(old_xmp);
    jpeg.extend_from_slice(&[0xff, SOS, 0, 2, 1, 2, 3]);

    let updated = replace_metadata_app1s(&jpeg, &exif_payload, &xmp_payload).unwrap();

    assert_eq!(count_windows(&updated, b"Exif\0\0"), 1);
    assert_eq!(count_windows(&updated, XMP_HEADER), 1);
    assert!(updated[6..].starts_with(&exif_payload));
    assert!(updated.windows(xmp_payload.len()).any(|window| window == xmp_payload));
}

#[test]
fn reads_jpeg_dimensions_from_sof() {
    let jpeg = [
        0xff, 0xd8, 0xff, 0xe0, 0x00, 0x02, 0xff, 0xc0, 0x00, 0x08, 0x08, 0x10, 0x00, 0x20, 0x00, 0xff, SOS,
        0x00, 0x02,
    ];

    let dimensions = jpeg_dimensions(&jpeg).unwrap();

    assert_eq!(dimensions.width, 8192);
    assert_eq!(dimensions.height, 4096);
}

#[test]
fn dimensions_refuse_non_jpeg_and_bad_segments() {
    assert_eq!(jpeg_dimensions(&[0x89, 0x50, 0x4e, 0x47]), Err(JpegError::NotJpeg));
    assert_eq!(jpeg_dimensions(&[0xff, 0xd8, 0xff]), Err(JpegError::NotJpeg));
    assert_eq!(jpeg_dimensions(&[0xff, 0xd8, 0xff, 0xe0, 0x00, 0x01]), Err(JpegError::InvalidSegmentLength));
    assert_eq!(jpeg_dimensions(&[0xff, 0xd8, 0xff, 0xe0, 0x00, 0x09, 0x00]), Err(JpegError::InvalidSegmentLength));
    assert_eq!(
        jpeg_dimensions(&[0xff, 0xd8, 0xff, 0xc0, 0x00, 0x04, 0x08, 0x10]),
        Err(JpegError::ShortSof)
    );
    assert_eq!(jpeg_dimensions(&[0xff, 0xd8, 0xff, SOS, 0x00, 0x02]), Err(JpegError::DimensionsNotFound));
}

#[test]
fn dimensions_skip_standalone_markers() {
    let jpeg = [
        0xff, 0xd8, 0xff, 0xd0, 0xff, 0xc2, 0x00, 0x08, 0x08, 0x00, 0x10, 0x00, 0x20, 0x00,
    ];
    let dimensions = jpeg_dimensions(&jpeg).unwrap();
    assert_eq!(dimensions.width, 32);
    assert_eq!(dimensions.height, 16);
}

#[test]
fn replace_keeps_other_segments_and_refuses_bad_input() {
    let jpeg = [0xff, 0xd8, 0xff, 0xe0, 0x00, 0x04, 0xaa, 0xbb, 0xff, 0xd9];
    let updated = replace_metadata_app1s(&jpeg, b"Exif\0\0E", b"X").unwrap();
    assert_eq!(
        updated,
        vec![
            0xff, 0xd8, 0xff, APP1, 0x00, 0x09, b'E', b'x', b'i', b'f', 0, 0, b'E', 0xff, APP1, 0x00, 0x03, b'X',
            0xff, 0xe0, 0x00, 0x04, 0xaa, 0xbb, 0xff, 0xd9,
        ]
    );
    assert_eq!(replace_metadata_app1s(&[0xff, 0xd8, 0xff], b"", b""), Err(JpegError::NotJpeg));
    let big = vec![0u8; 65534];
    assert_eq!(replace_metadata_app1s(&jpeg, &big, b""), Err(JpegError::ExifPayloadTooLarge));
    assert_eq!(replace_metadata_app1s(&jpeg, b"", &big), Err(JpegError::XmpPayloadTooLarge));
    assert_eq!(
        replace_metadata_app1s(&[0xff, 0xd8, 0xff, 0xe0, 0x00, 0x01], b"", b""),
        Err(JpegError::InvalidSegmentLength)
    );
}

#[test]
fn geotagging_twice_gives_the_same_file() {
    let jpeg = [
        0xff, 0xd8, 0xff, 0xe0, 0x00, 0x02, 0xff, 0xc0, 0x00, 0x08, 0x08, 0x10, 0x00, 0x20, 0x00, 0xff, SOS,
        0x00, 0x02, 0x11,
    ];
    let once = geotag_jpeg(&jpeg, &sample_point()).unwrap();
    let twice = geotag_jpeg(&once, &sample_point()).unwrap();
    assert_eq!(once, twice);
    let xmp = build_gpano_xmp_payload(JpegDimensions { width: 8192, height: 4096 });
    assert_eq!(count_windows(&once, &xmp), 1);
}

#[test]
fn markers_are_classified() {
    assert!(is_standalone_marker(0x01));
    assert!(is_standalone_marker(0xd8));
    assert!(is_standalone_marker(0xd9));
    assert!(is_standalone_marker(0xd3));
    assert!(!is_standalone_marker(0xe1));
    assert!(is_sof_marker(0xc0));
    assert!(is_sof_marker(0xcf));
    assert!(!is_sof_marker(0xc4));
    assert!(!is_sof_marker(0xc8));
    assert!(!is_sof_marker(0xcc));
}

#[test]
fn app1_segment_has_length_prefix() {
    let mut out = vec![1u8];
    write_app1_segment(&mut out, b"abc");
    assert_eq!(out, vec![1, 0xff, APP1, 0x00, 0x05, b'a', b'b', b'c']);
}

#[test]
fn pushes_big_endian_values() {
    let mut out = Vec::new();
    push_u16(&mut out, 0x1234);
    push_u32(&mut out, 0x89abcdef);
    push_rational(&mut out, 7, 1000);
    assert_eq!(out, vec![0x12, 0x34, 0x89, 0xab, 0xcd, 0xef, 0, 0, 0, 7, 0, 0, 0x03, 0xe8]);
    let mut entry = Vec::new();
    push_ifd_entry(&mut entry, 0x0001, 2, 2, Value::Inline([b'N', 0, 0, 0]));
    push_ifd_entry(&mut entry, 0x0002, 5, 3, Value::Offset(0x0102));
    assert_eq!(
        entry,
        vec![0, 1, 0, 2, 0, 0, 0, 2, b'N', 0, 0, 0, 0, 2, 0, 5, 0, 0, 0, 3, 0, 0, 1, 2]
    );
}

#[test]
fn ascii_values_must_match_their_count() {
    let mut out = Vec::new();
    assert!(push_ascii(&mut out, "2026:05:27", 11).is_ok());
    assert_eq!(out, b"2026:05:27\0".to_vec());
    assert_eq!(push_ascii(&mut out, "2026", 11), Err(JpegError::AsciiCountMismatch));
}

#[test]
fn exif_payload_records_position_and_time() {
    let payload = build_exif_payload(&sample_point()).unwrap();
    assert!(payload.starts_with(b"Exif\0\0MM\0\x2a\0\0\0\x08"));
    assert_eq!(count_windows(&payload, b"2026:05:27 09:23:16\0"), 1);
    assert_eq!(count_windows(&payload, b"2026:05:27\0"), 1);
    assert_eq!(count_windows(&payload, &[0, 0, 0, 24, 0, 0, 0, 1, 0, 0, 0, 30, 0, 0, 0, 1]), 1);
    assert_eq!(count_windows(&payload, &[0, 0, 0, 121, 0, 0, 0, 1, 0, 0, 0, 30, 0, 0, 0, 1]), 1);
    assert_eq!(count_windows(&payload, &[0x00, 0x01, 0x86, 0xa0, 0x00, 0x00, 0x03, 0xe8]), 1);
    assert_eq!(count_windows(&payload, &[0, 0, 0, 9, 0, 0, 0, 1, 0, 0, 0, 23, 0, 0, 0, 1, 0, 0, 0x3e, 0x80, 0, 0, 0x03, 0xe8]), 1);
}

#[test]
fn gpano_payload_names_the_size() {
    let payload = build_gpano_xmp_payload(JpegDimensions { width: 5760, height: 2880 });
    assert!(payload.starts_with(XMP_HEADER));
    let text = String::from_utf8(payload[XMP_HEADER.len()..].to_vec()).unwrap();
    assert!(text.contains("GPano:FullPanoWidthPixels=\"5760\""));
    assert!(text.contains("GPano:FullPanoHeightPixels=\"2880\""));
    assert!(text.contains("GPano:CroppedAreaImageWidthPixels=\"5760\""));
    assert!(text.ends_with("<?xpacket end=\"w\"?>"));
}

#[test]
fn replacing_twice_changes_nothing() {
    let exif = build_exif_payload(&sample_point()).unwrap();
    let xmp = build_gpano_xmp_payload(JpegDimensions { width: 10, height: 5 });
    let jpeg = [
        0xff, 0xd8, 0xff, APP1, 0x00, 0x05, b'a', b'b', b'c', 0xff, 0xd0, 0xff, 0xe2, 0x00, 0x02, 0xff, SOS, 9,
    ];
    let once = replace_metadata_app1s(&jpeg, &exif, &xmp).unwrap();
    let twice = replace_metadata_app1s(&once, &exif, &xmp).unwrap();
    assert_eq!(once, twice);
}

#[test]
fn exif_refuses_unrepresentable_times() {
    let mut point = sample_point();
    point.time = Timestamp { secs: i64::MAX, nanos: 0 };
    assert_eq!(build_exif_payload(&point), Err(JpegError::InvalidTime));
}

#[test]
fn exif_payload_takes_the_given_date_texts() {
    let point = sample_point();
    let with_texts = build_exif_payload_with_dates(&point, "2001:02:03 04:05:06", "2001:02:03").unwrap();
    assert_eq!(count_windows(&with_texts, b"2001:02:03 04:05:06\0"), 1);
    assert_eq!(count_windows(&with_texts, b"2001:02:03\0"), 1);
    assert_eq!(count_windows(&with_texts, b"2026:05:27"), 0);
    let formatted = build_exif_payload_with_dates(&point, "2026:05:27 09:23:16", "2026:05:27").unwrap();
    assert_eq!(formatted, build_exif_payload(&point).unwrap());
    assert_eq!(
        build_exif_payload_with_dates(&point, "2026:05:27 09:23", "2026:05:27"),
        Err(JpegError::AsciiCountMismatch)
    );
}
