use osv2gpx::gps::{extract_gps_point, unwrap_embedded_mp4};
use osv2gpx::proto::{parse_proto_fields, read_varint};

fn varint(mut v: u64) -> Vec<u8> {
    let mut out = Vec::new();
    loop {
        let byte = (v & 0x7f) as u8;
        v >>= 7;
        if v == 0 {
            out.push(byte);
            return out;
        }
        out.push(byte | 0x80);
    }
}

fn len_field(number: u64, bytes: &[u8]) -> Vec<u8> {
    let mut out = varint(number << 3 | 2);
    out.extend(varint(bytes.len() as u64));
    out.extend_from_slice(bytes);
    out
}

fn fixed64_field(number: u64, value: u64) -> Vec<u8> {
    let mut out = varint(number << 3 | 1);
    out.extend_from_slice(&value.to_le_bytes());
    out
}

fn telemetry(lat: f64, lon: f64, alt_mm: u64) -> Vec<u8> {
    let coords = [fixed64_field(2, lat.to_bits()), fixed64_field(3, lon.to_bits())].concat();
    let mut alt = varint(2 << 3);
    alt.extend(varint(alt_mm));
    let location = [len_field(1, &coords), alt].concat();
    len_field(4, &location)
}

#[test]
fn varints_decode() {
    assert_eq!(read_varint(&[0x05]), Some((5, 1)));
    assert_eq!(read_varint(&[0xac, 0x02]), Some((300, 2)));
    assert_eq!(read_varint(&[0x80]), None);
    assert_eq!(read_varint(&[]), None);
    assert_eq!(read_varint(&varint(u64::MAX)), Some((u64::MAX, 10)));
}

#[test]
fn fields_parse() {
    let bytes = [len_field(1, b"ab"), fixed64_field(2, 7)].concat();
    let fields = parse_proto_fields(&bytes).unwrap();
    assert_eq!(fields.len(), 2);
    assert_eq!((fields[0].number, fields[0].wire), (1, 2));
    assert_eq!(fields[0].bytes, b"ab".to_vec());
    assert_eq!((fields[1].number, fields[1].wire, fields[1].fixed64), (2, 1, 7));
    assert!(parse_proto_fields(&[0x00]).is_none());
    assert!(parse_proto_fields(&[0x0a, 0x05, 0x01]).is_none());
}

#[test]
fn finds_gps_in_nested_messages() {
    let message = len_field(9, &len_field(3, &telemetry(24.5, 121.25, 201_138)));
    let fix = extract_gps_point(&message).unwrap();
    assert_eq!(f64::from_bits(fix.lat_bits), 24.5);
    assert_eq!(f64::from_bits(fix.lon_bits), 121.25);
    assert_eq!(fix.abs_alt_mm, 201_138);
    assert_eq!(fix.rel_alt_bits, 0);
    assert!(extract_gps_point(&telemetry(95.0, 0.0, 0)).is_none());
    assert!(extract_gps_point(&telemetry(0.0, f64::NAN, 0)).is_none());
}

#[test]
fn unwraps_embedded_mp4_samples() {
    let inner = telemetry(1.0, 2.0, 3);
    let mut sample = 16u32.to_be_bytes().to_vec();
    sample.extend_from_slice(b"ftypisom\0\0\0\0");
    sample.extend_from_slice(&((inner.len() + 8) as u32).to_be_bytes());
    sample.extend_from_slice(b"mdat");
    sample.extend_from_slice(&inner);
    assert_eq!(unwrap_embedded_mp4(&sample), inner);
    assert_eq!(unwrap_embedded_mp4(b"plain"), b"plain".to_vec());
    assert!(extract_gps_point(&sample).is_some());
}

#[test]
fn fields_of_concatenated_messages_concatenate() {
    let a = [len_field(1, b"ab"), varint(3 << 3 | 0), varint(300)].concat();
    let b = fixed64_field(2, 7);
    let fa = parse_proto_fields(&a).unwrap();
    let fb = parse_proto_fields(&b).unwrap();
    let fab = parse_proto_fields(&[a.clone(), b.clone()].concat()).unwrap();
    assert_eq!(fab.len(), fa.len() + fb.len());
    let key = |f: &osv2gpx::proto::ProtoField| (f.number, f.wire, f.bytes.clone(), f.uint, f.fixed32, f.fixed64);
    let expected: Vec<_> = fa.iter().chain(fb.iter()).map(key).collect();
    let got: Vec<_> = fab.iter().map(key).collect();
    assert_eq!(got, expected);
    assert_eq!(fab[1].uint, 300);
    // a malformed tail makes the whole message malformed
    assert!(parse_proto_fields(&[a, vec![0x0a, 0x05, 0x01]].concat()).is_none());
}
