//! GPS telemetry in DJI OSV timed-metadata samples: unwrapping an embedded
//! MP4 fragment and finding the telemetry message in nested protobuf.
use vstd::prelude::*;
use crate::bytes::{be_u32_at, be_u64_at, spec_be_u32, spec_be_u64};
use crate::bytes::{spec_le_u32, spec_le_u64};
use crate::proto::{
    fields_view, lemma_read_varint_len, lemma_read_varint_prefix, parse_proto_fields, spec_field,
    spec_parse_field, spec_parse_fields, spec_read_varint, ProtoField, SpecProtoField,
};

verus! {

/// The four bytes `ftyp`.
pub open spec fn ftyp_tag() -> Seq<u8> {
    seq![0x66u8, 0x74u8, 0x79u8, 0x70u8]
}

/// The four bytes `mdat`.
pub open spec fn mdat_tag() -> Seq<u8> {
    seq![0x6du8, 0x64u8, 0x61u8, 0x74u8]
}

/// Walks the MP4 boxes of `s` from `offset` on and gives the payload of the
/// first `mdat` box; `None` when the walk ends, or meets a box whose size is
/// smaller than its header or runs past the end of `s`, before any `mdat`.
/// A 32-bit size of 1 means a 64-bit size follows the type; a size of 0 means
/// the box runs to the end of `s`.
pub open spec fn spec_find_mdat(s: Seq<u8>, offset: nat) -> Option<Seq<u8>>
    decreases s.len() - offset,
{
    if offset + 8 > s.len() {
        None
    } else {
        let size32 = spec_be_u32(s, offset as int);
        if size32 == 1 && offset + 16 > s.len() {
            None
        } else {
            let header: nat = if size32 == 1 { 16 } else { 8 };
            let size: nat = if size32 == 1 {
                spec_be_u64(s, (offset + 8) as int) as nat
            } else if size32 == 0 {
                (s.len() - offset) as nat
            } else {
                size32 as nat
            };
            if size < header || size > s.len() - offset {
                None
            } else if s.subrange((offset + 4) as int, (offset + 8) as int) == mdat_tag() {
                Some(s.subrange((offset + header) as int, (offset + size) as int))
            } else {
                spec_find_mdat(s, offset + size)
            }
        }
    }
}

/// A sample that starts like an MP4 file (at least 16 bytes, `ftyp` at
/// offset 4) stands for the payload of its first `mdat` box; any other
/// sample, or one without a usable `mdat`, stands for itself.
pub open spec fn spec_unwrap_embedded_mp4(s: Seq<u8>) -> Seq<u8> {
    if s.len() < 16 || s.subrange(4, 8) != ftyp_tag() {
        s
    } else {
        match spec_find_mdat(s, 0) {
            Some(p) => p,
            None => s,
        }
    }
}

fn is_tag_at(bytes: &[u8], pos: usize, a: u8, b: u8, c: u8, d: u8) -> (r: bool)
    requires
        pos + 4 <= bytes.len(),
    ensures
        r == (bytes@.subrange(pos as int, pos + 4) == seq![a, b, c, d]),
{
    let r = bytes[pos] == a && bytes[pos + 1] == b && bytes[pos + 2] == c && bytes[pos + 3] == d;
    assert(r == (bytes@.subrange(pos as int, pos + 4) =~= seq![a, b, c, d]));
    r
}

/// The payload that a DJI metadata sample carries: the first `mdat` of an
/// embedded MP4 fragment, or the sample itself.
pub fn unwrap_embedded_mp4(bytes: &[u8]) -> (r: Vec<u8>)
    ensures
        r@ == spec_unwrap_embedded_mp4(bytes@),
{
    let len = bytes.len();
    if len < 16 || !is_tag_at(bytes, 4, 0x66, 0x74, 0x79, 0x70) {
        return crate::proto::copy_range(bytes, 0, len);
    }
    let mut offset: usize = 0;
    while offset <= len && 8 <= len - offset
        invariant
            len == bytes.len(),
            len >= 16,
            bytes@.subrange(4, 8) == ftyp_tag(),
            offset <= len,
            spec_find_mdat(bytes@, 0) == spec_find_mdat(bytes@, offset as nat),
        decreases len - offset,
    {
        let size32 = be_u32_at(bytes, offset);
        let mut header_size: u64 = 8;
        let mut size: u64 = size32 as u64;
        if size32 == 1 {
            if len - offset < 16 {
                return crate::proto::copy_range(bytes, 0, len);
            }
            size = be_u64_at(bytes, offset + 8);
            header_size = 16;
        } else if size32 == 0 {
            size = (len - offset) as u64;
        }
        if size < header_size || size > (len - offset) as u64 {
            return crate::proto::copy_range(bytes, 0, len);
        }
        if is_tag_at(bytes, offset + 4, 0x6d, 0x64, 0x61, 0x74) {
            assert(spec_find_mdat(bytes@, offset as nat) == Some(
                bytes@.subrange((offset + header_size) as int, (offset + size) as int),
            ));
            return crate::proto::copy_range(
                bytes,
                offset + header_size as usize,
                offset + size as usize,
            );
        }
        offset = offset + size as usize;
    }
    crate::proto::copy_range(bytes, 0, len)
}

/// A GPS fix as the telemetry message holds it: latitude and longitude as the
/// bit patterns of IEEE-754 doubles (degrees), absolute altitude in
/// millimetres, relative altitude as the bit pattern of an IEEE-754 single
/// (millimetres; 0 where the message gives none).
#[derive(Clone, Copy, Debug, PartialEq, Eq, Structural)]
pub struct GpsFix {
    pub lat_bits: u64,
    pub lon_bits: u64,
    pub abs_alt_mm: u64,
    pub rel_alt_bits: u32,
}

/// Bit pattern of the double 90.0.
pub const LAT_LIMIT_BITS: u64 = 0x4056_8000_0000_0000;

/// Bit pattern of the double 180.0.
pub const LON_LIMIT_BITS: u64 = 0x4066_8000_0000_0000;

/// For the IEEE-754 double with bit pattern `bits` and a positive finite
/// bound with bit pattern `limit_bits`: the double lies in `[-limit, limit]`.
/// Doubles order by their magnitude bits (the low 63), and every NaN has
/// larger magnitude bits than any finite number, so NaN never lies within.
pub open spec fn f64_bits_within(bits: u64, limit_bits: u64) -> bool {
    bits % 0x8000_0000_0000_0000 <= limit_bits
}

pub open spec fn field_matches(f: SpecProtoField, number: u64, wire: Option<u64>) -> bool {
    f.number == number && match wire {
        Some(w) => f.wire == w,
        None => true,
    }
}

/// Index of the first field from `i` on with the given number (and wire
/// type, where one is given).
pub open spec fn spec_first_field(fs: Seq<SpecProtoField>, number: u64, wire: Option<u64>, i: nat) -> Option<nat>
    decreases fs.len() - i,
{
    if i >= fs.len() {
        None
    } else if field_matches(fs[i as int], number, wire) {
        Some(i)
    } else {
        spec_first_field(fs, number, wire, i + 1)
    }
}

/// Index of the last field before `n` with the given number (and wire type,
/// where one is given).
pub open spec fn spec_last_field(fs: Seq<SpecProtoField>, number: u64, wire: Option<u64>, n: nat) -> Option<nat>
    decreases n,
{
    if n == 0 {
        None
    } else if n <= fs.len() && field_matches(fs[n - 1], number, wire) {
        Some((n - 1) as nat)
    } else {
        spec_last_field(fs, number, wire, (n - 1) as nat)
    }
}

proof fn lemma_first_field_in_range(fs: Seq<SpecProtoField>, number: u64, wire: Option<u64>, i: nat)
    ensures
        spec_first_field(fs, number, wire, i) matches Some(k) ==> i <= k < fs.len()
            && field_matches(fs[k as int], number, wire),
    decreases fs.len() - i,
{
    if i < fs.len() && !field_matches(fs[i as int], number, wire) {
        lemma_first_field_in_range(fs, number, wire, i + 1);
    }
}

proof fn lemma_last_field_in_range(fs: Seq<SpecProtoField>, number: u64, wire: Option<u64>, n: nat)
    ensures
        spec_last_field(fs, number, wire, n) matches Some(k) ==> k < n && k < fs.len()
            && field_matches(fs[k as int], number, wire),
    decreases n,
{
    if n > 0 {
        lemma_last_field_in_range(fs, number, wire, (n - 1) as nat);
    }
}

/// Index of the first field with the given number (and wire type, where one
/// is given).
pub fn first_field(fields: &[ProtoField], number: u64, wire: Option<u64>) -> (r: Option<usize>)
    ensures
        match spec_first_field(fields_view(fields@), number, wire, 0) {
            Some(k) => r == Some(k as usize),
            None => r.is_none(),
        },
{
    let ghost fs = fields_view(fields@);
    let mut i: usize = 0;
    while i < fields.len()
        invariant
            i <= fields.len(),
            fs == fields_view(fields@),
            spec_first_field(fs, number, wire, 0) == spec_first_field(fs, number, wire, i as nat),
        decreases fields.len() - i,
    {
        let f = &fields[i];
        assert(fs[i as int] == f@);
        let wire_ok = match wire {
            Some(w) => f.wire == w,
            None => true,
        };
        if f.number == number && wire_ok {
            return Some(i);
        }
        i = i + 1;
    }
    None
}

/// Index of the last field with the given number (and wire type, where one
/// is given).
pub fn last_field(fields: &[ProtoField], number: u64, wire: Option<u64>) -> (r: Option<usize>)
    ensures
        match spec_last_field(fields_view(fields@), number, wire, fields@.len()) {
            Some(k) => r == Some(k as usize),
            None => r.is_none(),
        },
{
    let ghost fs = fields_view(fields@);
    let mut n: usize = fields.len();
    while n > 0
        invariant
            n <= fields.len(),
            fs == fields_view(fields@),
            spec_last_field(fs, number, wire, fields@.len()) == spec_last_field(fs, number, wire, n as nat),
        decreases n,
    {
        let f = &fields[n - 1];
        assert(fs[n - 1] == f@);
        let wire_ok = match wire {
            Some(w) => f.wire == w,
            None => true,
        };
        if f.number == number && wire_ok {
            return Some(n - 1);
        }
        n = n - 1;
    }
    None
}

/// Relative altitude of a telemetry message: the last fixed32 field 1 of the
/// first field 5 (when that field is length-delimited and well formed), or 0.
pub open spec fn spec_rel_alt_bits(fs: Seq<SpecProtoField>) -> u32 {
    match spec_first_field(fs, 5, None, 0) {
        Some(k) => if fs[k as int].wire != 2 {
            0
        } else {
            match spec_parse_fields(fs[k as int].bytes) {
                Some(rf) => match spec_last_field(rf, 1, Some(5), rf.len()) {
                    Some(j) => rf[j as int].fixed32,
                    None => 0,
                },
                None => 0,
            }
        },
        None => 0,
    }
}

/// The GPS fix of a telemetry message: its first field 4 (length-delimited)
/// holds a message whose first field 1 (length-delimited) holds the
/// coordinates and whose first varint field 2 is the absolute altitude; the
/// coordinates message gives the latitude in its last fixed64 field 2 and the
/// longitude in its last fixed64 field 3. No fix where any of these is
/// missing or malformed, or the latitude lies outside [-90, 90] or the
/// longitude outside [-180, 180].
pub open spec fn spec_gps_from_telemetry(fs: Seq<SpecProtoField>) -> Option<GpsFix> {
    match spec_first_field(fs, 4, None, 0) {
        None => None,
        Some(li) => {
            let location = fs[li as int];
            if location.wire != 2 {
                None
            } else {
                match spec_parse_fields(location.bytes) {
                    None => None,
                    Some(loc) => match (spec_first_field(loc, 1, None, 0), spec_first_field(loc, 2, Some(0), 0)) {
                        (Some(ci), Some(ai)) => if loc[ci as int].wire != 2 {
                            None
                        } else {
                            match spec_parse_fields(loc[ci as int].bytes) {
                                None => None,
                                Some(coords) => match (
                                    spec_last_field(coords, 2, Some(1), coords.len()),
                                    spec_last_field(coords, 3, Some(1), coords.len()),
                                ) {
                                    (Some(la), Some(lo)) => {
                                        let lat = coords[la as int].fixed64;
                                        let lon = coords[lo as int].fixed64;
                                        if f64_bits_within(lat, LAT_LIMIT_BITS) && f64_bits_within(lon, LON_LIMIT_BITS) {
                                            Some(GpsFix {
                                                lat_bits: lat,
                                                lon_bits: lon,
                                                abs_alt_mm: loc[ai as int].uint,
                                                rel_alt_bits: spec_rel_alt_bits(fs),
                                            })
                                        } else {
                                            None
                                        }
                                    },
                                    _ => None,
                                },
                            }
                        },
                        _ => None,
                    },
                }
            }
        },
    }
}

fn rel_alt_bits(fields: &[ProtoField]) -> (r: u32)
    ensures
        r == spec_rel_alt_bits(fields_view(fields@)),
{
    let ghost fs = fields_view(fields@);
    proof {
        lemma_first_field_in_range(fs, 5, None, 0);
    }
    match first_field(fields, 5, None) {
        None => 0,
        Some(k) => {
            let rel = &fields[k];
            assert(fs[k as int] == rel@);
            if rel.wire != 2 {
                return 0;
            }
            match parse_proto_fields(rel.bytes.as_slice()) {
                None => 0,
                Some(rf) => {
                    proof {
                        lemma_last_field_in_range(fields_view(rf@), 1, Some(5), rf@.len());
                    }
                    match last_field(rf.as_slice(), 1, Some(5)) {
                        Some(j) => {
                            assert(fields_view(rf@)[j as int] == rf@[j as int]@);
                            rf[j].fixed32
                        },
                        None => 0,
                    }
                },
            }
        },
    }
}

/// The GPS fix that a telemetry message holds, if it holds one.
pub fn gps_from_telemetry_message(fields: &[ProtoField]) -> (r: Option<GpsFix>)
    ensures
        r == spec_gps_from_telemetry(fields_view(fields@)),
{
    let ghost fs = fields_view(fields@);
    proof {
        lemma_first_field_in_range(fs, 4, None, 0);
    }
    let li = match first_field(fields, 4, None) {
        Some(i) => i,
        None => return None,
    };
    let location = &fields[li];
    assert(fs[li as int] == location@);
    if location.wire != 2 {
        return None;
    }
    let loc = match parse_proto_fields(location.bytes.as_slice()) {
        Some(v) => v,
        None => return None,
    };
    let ghost locv = fields_view(loc@);
    proof {
        lemma_first_field_in_range(locv, 1, None, 0);
        lemma_first_field_in_range(locv, 2, Some(0), 0);
    }
    let ci = match first_field(loc.as_slice(), 1, None) {
        Some(i) => i,
        None => return None,
    };
    let ai = match first_field(loc.as_slice(), 2, Some(0)) {
        Some(i) => i,
        None => return None,
    };
    assert(locv[ci as int] == loc@[ci as int]@);
    assert(locv[ai as int] == loc@[ai as int]@);
    if loc[ci].wire != 2 {
        return None;
    }
    let coords = match parse_proto_fields(loc[ci].bytes.as_slice()) {
        Some(v) => v,
        None => return None,
    };
    let ghost cv = fields_view(coords@);
    proof {
        lemma_last_field_in_range(cv, 2, Some(1), cv.len());
        lemma_last_field_in_range(cv, 3, Some(1), cv.len());
    }
    let la = match last_field(coords.as_slice(), 2, Some(1)) {
        Some(i) => i,
        None => return None,
    };
    let lo = match last_field(coords.as_slice(), 3, Some(1)) {
        Some(i) => i,
        None => return None,
    };
    assert(cv[la as int] == coords@[la as int]@);
    assert(cv[lo as int] == coords@[lo as int]@);
    let lat = coords[la].fixed64;
    let lon = coords[lo].fixed64;
    if lat % 0x8000_0000_0000_0000 > LAT_LIMIT_BITS || lon % 0x8000_0000_0000_0000 > LON_LIMIT_BITS {
        return None;
    }
    Some(GpsFix { lat_bits: lat, lon_bits: lon, abs_alt_mm: loc[ai].uint, rel_alt_bits: rel_alt_bits(fields) })
}

/// Searches a message and the messages nested in its length-delimited
/// fields, depth first and in field order, down to nesting depth 8, for the
/// first telemetry message that holds a GPS fix.
pub open spec fn spec_find_gps(fs: Seq<SpecProtoField>, depth: nat) -> Option<GpsFix>
    decreases 8 - depth, fs.len() + 1,
{
    match spec_gps_from_telemetry(fs) {
        Some(p) => Some(p),
        None => if depth >= 8 {
            None
        } else {
            spec_find_gps_in_children(fs, depth, 0)
        },
    }
}

/// The search of [`spec_find_gps`] through the children of `fs[i..]`.
pub open spec fn spec_find_gps_in_children(fs: Seq<SpecProtoField>, depth: nat, i: nat) -> Option<GpsFix>
    decreases 8 - depth, fs.len() - i,
{
    if depth >= 8 || i >= fs.len() {
        None
    } else {
        let f = fs[i as int];
        if f.wire != 2 || f.bytes.len() == 0 {
            spec_find_gps_in_children(fs, depth, i + 1)
        } else {
            match spec_parse_fields(f.bytes) {
                None => spec_find_gps_in_children(fs, depth, i + 1),
                Some(children) => match spec_find_gps(children, depth + 1) {
                    Some(p) => Some(p),
                    None => spec_find_gps_in_children(fs, depth, i + 1),
                },
            }
        }
    }
}

/// The first GPS fix in a message or the messages nested in it (see
/// [`spec_find_gps`]), searching from nesting depth `depth`.
pub fn find_gps_in_fields(fields: &[ProtoField], depth: usize) -> (r: Option<GpsFix>)
    ensures
        r == spec_find_gps(fields_view(fields@), depth as nat),
    decreases if depth >= 8 { 0 } else { 8 - depth },
{
    if let Some(point) = gps_from_telemetry_message(fields) {
        return Some(point);
    }
    if depth >= 8 {
        return None;
    }
    let ghost fs = fields_view(fields@);
    let mut i: usize = 0;
    while i < fields.len()
        invariant
            i <= fields.len(),
            depth < 8,
            fs == fields_view(fields@),
            spec_find_gps(fs, depth as nat) == spec_find_gps_in_children(fs, depth as nat, 0),
            spec_find_gps_in_children(fs, depth as nat, 0) == spec_find_gps_in_children(fs, depth as nat, i as nat),
        decreases fields.len() - i,
    {
        let field = &fields[i];
        assert(fs[i as int] == field@);
        if field.wire != 2 || field.bytes.len() == 0 {
            i = i + 1;
            continue;
        }
        let children = match parse_proto_fields(field.bytes.as_slice()) {
            Some(children) => children,
            None => {
                i = i + 1;
                continue;
            },
        };
        let ghost cs = fields_view(children@);
        assert(spec_parse_fields(fs[i as int].bytes) == Some(cs));
        let found = find_gps_in_fields(children.as_slice(), depth + 1);
        assert(found == spec_find_gps(cs, (depth + 1) as nat));
        if let Some(point) = found {
            assert(spec_find_gps_in_children(fs, depth as nat, i as nat) == Some(point));
            return Some(point);
        }
        i = i + 1;
    }
    None
}

/// Whether a fix lies on the globe: latitude within [-90, 90] and longitude
/// within [-180, 180], neither one NaN.
pub open spec fn fix_on_globe(fix: GpsFix) -> bool {
    f64_bits_within(fix.lat_bits, LAT_LIMIT_BITS) && f64_bits_within(fix.lon_bits, LON_LIMIT_BITS)
}

proof fn lemma_find_gps_on_globe(fs: Seq<SpecProtoField>, depth: nat)
    ensures
        spec_find_gps(fs, depth) matches Some(fix) ==> fix_on_globe(fix),
    decreases 8 - depth, fs.len() + 1,
{
    if spec_gps_from_telemetry(fs) is None && depth < 8 {
        lemma_children_gps_on_globe(fs, depth, 0);
    }
}

proof fn lemma_children_gps_on_globe(fs: Seq<SpecProtoField>, depth: nat, i: nat)
    ensures
        spec_find_gps_in_children(fs, depth, i) matches Some(fix) ==> fix_on_globe(fix),
    decreases 8 - depth, fs.len() - i,
{
    if depth < 8 && i < fs.len() {
        let f = fs[i as int];
        lemma_children_gps_on_globe(fs, depth, i + 1);
        if f.wire == 2 && f.bytes.len() > 0 {
            if let Some(children) = spec_parse_fields(f.bytes) {
                lemma_find_gps_on_globe(children, depth + 1);
            }
        }
    }
}

/// Every fix that extraction finds lies on the globe: its latitude within
/// [-90, 90] and its longitude within [-180, 180].
pub proof fn law_extracted_fix_on_globe(bytes: Seq<u8>)
    ensures
        spec_extract_gps_point(bytes) matches Some(fix) ==> fix_on_globe(fix),
{
    if let Some(fs) = spec_parse_fields(spec_unwrap_embedded_mp4(bytes)) {
        lemma_find_gps_on_globe(fs, 0);
    }
}

/// The GPS fix of an OSV metadata sample: the first telemetry message with a
/// fix in the protobuf payload of the sample (see [`spec_unwrap_embedded_mp4`]
/// and [`spec_find_gps`]); none when the payload is not well-formed protobuf.
pub open spec fn spec_extract_gps_point(bytes: Seq<u8>) -> Option<GpsFix> {
    match spec_parse_fields(spec_unwrap_embedded_mp4(bytes)) {
        Some(fs) => spec_find_gps(fs, 0),
        None => None,
    }
}

/// The GPS fix of an OSV metadata sample, if it holds one.
pub fn extract_gps_point(bytes: &[u8]) -> (r: Option<GpsFix>)
    ensures
        r == spec_extract_gps_point(bytes@),
{
    let payload = unwrap_embedded_mp4(bytes);
    let fields = parse_proto_fields(payload.as_slice())?;
    find_gps_in_fields(fields.as_slice(), 0)
}

proof fn lemma_one_byte_varint(s: Seq<u8>)
    requires
        s.len() > 0,
        s[0] < 128,
    ensures
        spec_read_varint(s) == Some((s[0] as u64, 1nat)),
{
    assert(crate::proto::varint_end_from(s, 0) == Some(1nat));
    assert(crate::proto::pow128(0) == 1);
    assert(s[0] % 128 == s[0]);
    assert(crate::proto::varint_group(s[0], 0) == s[0] as nat);
    assert(crate::proto::varint_sum(s, 0) == 0);
    assert(crate::proto::varint_sum(s, 1) == s[0] as nat);
}

/// The coordinates message of a telemetry sample: latitude as fixed64
/// field 2, longitude as fixed64 field 3, each given as its 8
/// little-endian bytes.
pub open spec fn coords_message(lat_le: Seq<u8>, lon_le: Seq<u8>) -> Seq<u8> {
    seq![0x11u8] + lat_le + seq![0x19u8] + lon_le
}

/// The location message: the coordinates as field 1, then the absolute
/// altitude as varint field 2, given as its varint bytes.
pub open spec fn location_message(lat_le: Seq<u8>, lon_le: Seq<u8>, alt_varint: Seq<u8>) -> Seq<u8> {
    seq![0x0au8, 18u8] + coords_message(lat_le, lon_le) + seq![0x10u8] + alt_varint
}

/// The value of the varint that starts `s` (0 where there is none).
pub open spec fn varint_value(s: Seq<u8>) -> u64 {
    match spec_read_varint(s) {
        Some((v, _)) => v,
        None => 0,
    }
}

/// A telemetry sample holding only a location: the location message as
/// field 4.
pub open spec fn telemetry_sample(lat_le: Seq<u8>, lon_le: Seq<u8>, alt_varint: Seq<u8>) -> Seq<u8> {
    seq![0x22u8, (21 + alt_varint.len()) as u8] + location_message(lat_le, lon_le, alt_varint)
}

proof fn lemma_parse_coords(lat_le: Seq<u8>, lon_le: Seq<u8>)
    requires
        lat_le.len() == 8,
        lon_le.len() == 8,
    ensures
        spec_parse_fields(coords_message(lat_le, lon_le)) == Some(
            seq![
                spec_field(2, 1, Seq::empty(), 0, 0, spec_le_u64(lat_le, 0) as u64),
                spec_field(3, 1, Seq::empty(), 0, 0, spec_le_u64(lon_le, 0) as u64),
            ],
        ),
{
    let c = coords_message(lat_le, lon_le);
    lemma_one_byte_varint(c);
    assert(spec_le_u64(c, 1) == spec_le_u64(lat_le, 0)) by {
        assert forall|k: int| 0 <= k < 8 implies c[1 + k] == lat_le[k] by {}
    }
    let f1 = spec_field(2, 1, Seq::empty(), 0, 0, spec_le_u64(lat_le, 0) as u64);
    assert(spec_parse_field(c) == Some((f1, 9nat)));
    let r = c.skip(9);
    assert(r =~= seq![0x19u8] + lon_le);
    lemma_one_byte_varint(r);
    assert(spec_le_u64(r, 1) == spec_le_u64(lon_le, 0)) by {
        assert forall|k: int| 0 <= k < 8 implies r[1 + k] == lon_le[k] by {}
    }
    let f2 = spec_field(3, 1, Seq::empty(), 0, 0, spec_le_u64(lon_le, 0) as u64);
    assert(spec_parse_field(r) == Some((f2, 9nat)));
    assert(r.skip(9) =~= Seq::<u8>::empty());
    assert(spec_parse_fields(r.skip(9)) == Some(Seq::<SpecProtoField>::empty()));
    assert(spec_parse_fields(r) == Some(seq![f2])) by {
        assert(seq![f2] + Seq::<SpecProtoField>::empty() =~= seq![f2]);
    }
    assert(spec_parse_fields(c) == Some(seq![f1] + seq![f2]));
    assert(seq![f1] + seq![f2] =~= seq![f1, f2]);
}

proof fn lemma_parse_location(lat_le: Seq<u8>, lon_le: Seq<u8>, alt_varint: Seq<u8>)
    requires
        lat_le.len() == 8,
        lon_le.len() == 8,
        spec_read_varint(alt_varint) matches Some((_, n)) && n == alt_varint.len(),
    ensures
        spec_parse_fields(location_message(lat_le, lon_le, alt_varint)) == Some(
            seq![
                spec_field(1, 2, coords_message(lat_le, lon_le), 0, 0, 0),
                spec_field(2, 0, Seq::empty(), varint_value(alt_varint), 0, 0),
            ],
        ),
{
    let l = location_message(lat_le, lon_le, alt_varint);
    let c = coords_message(lat_le, lon_le);
    lemma_one_byte_varint(l);
    lemma_one_byte_varint(l.skip(1));
    assert(l.subrange(2, 20) =~= c);
    let f1 = spec_field(1, 2, c, 0, 0, 0);
    assert(spec_parse_field(l) == Some((f1, 20nat)));
    let r = l.skip(20);
    assert(r =~= seq![0x10u8] + alt_varint);
    lemma_one_byte_varint(r);
    assert(r.skip(1) =~= alt_varint);
    let alt = varint_value(alt_varint);
    let f2 = spec_field(2, 0, Seq::empty(), alt, 0, 0);
    assert(spec_parse_field(r) == Some((f2, r.len())));
    assert(r.skip(r.len() as int) =~= Seq::<u8>::empty());
    assert(spec_parse_fields(r.skip(r.len() as int)) == Some(Seq::<SpecProtoField>::empty()));
    assert(spec_parse_fields(r) == Some(seq![f2])) by {
        assert(seq![f2] + Seq::<SpecProtoField>::empty() =~= seq![f2]);
    }
    assert(spec_parse_fields(l) == Some(seq![f1] + seq![f2]));
    assert(seq![f1] + seq![f2] =~= seq![f1, f2]);
}

proof fn lemma_parse_sample(lat_le: Seq<u8>, lon_le: Seq<u8>, alt_varint: Seq<u8>)
    requires
        lat_le.len() == 8,
        lon_le.len() == 8,
        spec_read_varint(alt_varint) matches Some((_, n)) && n == alt_varint.len(),
    ensures
        telemetry_sample(lat_le, lon_le, alt_varint).len() >= 16,
        telemetry_sample(lat_le, lon_le, alt_varint)[4] == 0x11u8,
        spec_unwrap_embedded_mp4(telemetry_sample(lat_le, lon_le, alt_varint)) == telemetry_sample(lat_le, lon_le, alt_varint),
        spec_parse_fields(telemetry_sample(lat_le, lon_le, alt_varint)) == Some(
            seq![spec_field(4, 2, location_message(lat_le, lon_le, alt_varint), 0, 0, 0)],
        ),
{
    let s = telemetry_sample(lat_le, lon_le, alt_varint);
    let l = location_message(lat_le, lon_le, alt_varint);
    let c = coords_message(lat_le, lon_le);
    lemma_read_varint_len(alt_varint);
    assert(s.len() >= 16);
    assert(s[4] == 0x11u8);
    assert(s.subrange(4, 8)[0] != ftyp_tag()[0]);
    assert(spec_unwrap_embedded_mp4(s) == s);
    lemma_one_byte_varint(s);
    lemma_one_byte_varint(s.skip(1));
    assert(s.subrange(2, s.len() as int) =~= l);
    let top = spec_field(4, 2, l, 0, 0, 0);
    assert(spec_parse_field(s) == Some((top, s.len())));
    assert(s.skip(s.len() as int) =~= Seq::<u8>::empty());
    assert(spec_parse_fields(s.skip(s.len() as int)) == Some(Seq::<SpecProtoField>::empty()));
    assert(spec_parse_fields(s) == Some(seq![top])) by {
        assert(seq![top] + Seq::<SpecProtoField>::empty() =~= seq![top]);
    }
}

proof fn lemma_gps_of_fields(lat_le: Seq<u8>, lon_le: Seq<u8>, alt_varint: Seq<u8>, fs: Seq<SpecProtoField>)
    requires
        lat_le.len() == 8,
        lon_le.len() == 8,
        spec_read_varint(alt_varint) matches Some((_, n)) && n == alt_varint.len(),
        (spec_le_u64(lat_le, 0) as u64) % 0x8000_0000_0000_0000 <= 0x4056_8000_0000_0000u64,
        (spec_le_u64(lon_le, 0) as u64) % 0x8000_0000_0000_0000 <= 0x4066_8000_0000_0000u64,
        fs.len() >= 1,
        fs[0] == spec_field(4, 2, location_message(lat_le, lon_le, alt_varint), 0, 0, 0),
    ensures
        spec_gps_from_telemetry(fs) == Some(
            GpsFix {
                lat_bits: spec_le_u64(lat_le, 0) as u64,
                lon_bits: spec_le_u64(lon_le, 0) as u64,
                abs_alt_mm: varint_value(alt_varint),
                rel_alt_bits: spec_rel_alt_bits(fs),
            },
        ),
{
    let l = location_message(lat_le, lon_le, alt_varint);
    let c = coords_message(lat_le, lon_le);
    lemma_parse_location(lat_le, lon_le, alt_varint);
    lemma_parse_coords(lat_le, lon_le);
    let loc = spec_parse_fields(l)->0;
    let coords = spec_parse_fields(c)->0;
    assert(spec_first_field(fs, 4, None, 0) == Some(0nat));
    assert(spec_first_field(loc, 1, None, 0) == Some(0nat));
    assert(spec_first_field(loc, 2, Some(0), 1) == Some(1nat));
    assert(spec_first_field(loc, 2, Some(0), 0) == Some(1nat));
    assert(spec_last_field(coords, 2, Some(1), 1) == Some(0nat));
    assert(spec_last_field(coords, 2, Some(1), 2) == Some(0nat));
    assert(spec_last_field(coords, 3, Some(1), 2) == Some(1nat));
}

/// Extraction finds every fix on the globe, in every hemisphere: a
/// telemetry sample whose location holds the latitude double `lat_le` and
/// the longitude double `lon_le` (each as its 8 little-endian bytes) and the
/// altitude varint `alt_varint` gives exactly that fix whenever the
/// magnitude of the latitude (its bits without the sign bit) is at most
/// that of the double 90 and the magnitude of the longitude at most that of
/// the double 180,
/// whatever their signs.
pub proof fn law_fix_extracted_in_every_hemisphere(lat_le: Seq<u8>, lon_le: Seq<u8>, alt_varint: Seq<u8>)
    requires
        lat_le.len() == 8,
        lon_le.len() == 8,
        spec_read_varint(alt_varint) matches Some((_, n)) && n == alt_varint.len(),
        (spec_le_u64(lat_le, 0) as u64) % 0x8000_0000_0000_0000 <= 0x4056_8000_0000_0000u64,
        (spec_le_u64(lon_le, 0) as u64) % 0x8000_0000_0000_0000 <= 0x4066_8000_0000_0000u64,
    ensures
        spec_extract_gps_point(telemetry_sample(lat_le, lon_le, alt_varint)) == Some(
            GpsFix {
                lat_bits: spec_le_u64(lat_le, 0) as u64,
                lon_bits: spec_le_u64(lon_le, 0) as u64,
                abs_alt_mm: varint_value(alt_varint),
                rel_alt_bits: 0,
            },
        ),
{
    let s = telemetry_sample(lat_le, lon_le, alt_varint);
    let l = location_message(lat_le, lon_le, alt_varint);
    let c = coords_message(lat_le, lon_le);
    lemma_parse_sample(lat_le, lon_le, alt_varint);
    let top = spec_field(4, 2, l, 0, 0, 0);
    let fs = seq![top];
    assert(spec_first_field(fs, 5, None, 1) == None::<nat>);
    assert(spec_first_field(fs, 5, None, 0) == None::<nat>);
    lemma_gps_of_fields(lat_le, lon_le, alt_varint, fs);
    assert(spec_rel_alt_bits(fs) == 0);
}

/// A relative altitude message for a telemetry sample: the altitude float
/// `rel_le` (its 4 little-endian bytes) as fixed32 field 1 of field 5.
pub open spec fn relative_altitude_message(rel_le: Seq<u8>) -> Seq<u8> {
    seq![0x2au8, 5u8, 0x0du8] + rel_le
}

proof fn lemma_parse_relative_altitude(rel_le: Seq<u8>)
    requires
        rel_le.len() == 4,
    ensures
        spec_parse_fields(relative_altitude_message(rel_le)) == Some(
            seq![spec_field(5, 2, seq![0x0du8] + rel_le, 0, 0, 0)],
        ),
        spec_parse_fields(seq![0x0du8] + rel_le) == Some(
            seq![spec_field(1, 5, Seq::empty(), 0, spec_le_u32(rel_le, 0) as u32, 0)],
        ),
{
    let r = relative_altitude_message(rel_le);
    let inner = seq![0x0du8] + rel_le;
    lemma_one_byte_varint(r);
    lemma_one_byte_varint(r.skip(1));
    assert(r.subrange(2, 7) =~= inner);
    let f5 = spec_field(5, 2, inner, 0, 0, 0);
    assert(spec_parse_field(r) == Some((f5, 7nat)));
    assert(r.skip(7) =~= Seq::<u8>::empty());
    assert(spec_parse_fields(r.skip(7)) == Some(Seq::<SpecProtoField>::empty()));
    assert(spec_parse_fields(r) == Some(seq![f5])) by {
        assert(seq![f5] + Seq::<SpecProtoField>::empty() =~= seq![f5]);
    }
    lemma_one_byte_varint(inner);
    assert(spec_le_u32(inner, 1) == spec_le_u32(rel_le, 0)) by {
        assert forall|k: int| 0 <= k < 4 implies inner[1 + k] == rel_le[k] by {}
    }
    let rf = spec_field(1, 5, Seq::empty(), 0, spec_le_u32(rel_le, 0) as u32, 0);
    assert(spec_parse_field(inner) == Some((rf, 5nat)));
    assert(inner.skip(5) =~= Seq::<u8>::empty());
    assert(spec_parse_fields(inner.skip(5)) == Some(Seq::<SpecProtoField>::empty()));
    assert(spec_parse_fields(inner) == Some(seq![rf])) by {
        assert(seq![rf] + Seq::<SpecProtoField>::empty() =~= seq![rf]);
    }
}

/// Extraction keeps the relative altitude: a telemetry sample as in
/// [`law_fix_extracted_in_every_hemisphere`] followed by a relative altitude
/// message gives the same fix with the relative altitude's bits.
pub proof fn law_fix_keeps_relative_altitude(lat_le: Seq<u8>, lon_le: Seq<u8>, alt_varint: Seq<u8>, rel_le: Seq<u8>)
    requires
        lat_le.len() == 8,
        lon_le.len() == 8,
        rel_le.len() == 4,
        spec_read_varint(alt_varint) matches Some((_, n)) && n == alt_varint.len(),
        (spec_le_u64(lat_le, 0) as u64) % 0x8000_0000_0000_0000 <= 0x4056_8000_0000_0000u64,
        (spec_le_u64(lon_le, 0) as u64) % 0x8000_0000_0000_0000 <= 0x4066_8000_0000_0000u64,
    ensures
        spec_extract_gps_point(telemetry_sample(lat_le, lon_le, alt_varint) + relative_altitude_message(rel_le)) == Some(
            GpsFix {
                lat_bits: spec_le_u64(lat_le, 0) as u64,
                lon_bits: spec_le_u64(lon_le, 0) as u64,
                abs_alt_mm: varint_value(alt_varint),
                rel_alt_bits: spec_le_u32(rel_le, 0) as u32,
            },
        ),
{
    let s1 = telemetry_sample(lat_le, lon_le, alt_varint);
    let r = relative_altitude_message(rel_le);
    let s = s1 + r;
    let l = location_message(lat_le, lon_le, alt_varint);
    let c = coords_message(lat_le, lon_le);
    lemma_parse_sample(lat_le, lon_le, alt_varint);
    assert(s.len() >= 16);
    assert(s[4] == 0x11u8);
    assert(s.subrange(4, 8)[0] != ftyp_tag()[0]);
    assert(spec_unwrap_embedded_mp4(s) == s);
    let top = spec_field(4, 2, l, 0, 0, 0);
    let inner = seq![0x0du8] + rel_le;
    let f5 = spec_field(5, 2, inner, 0, 0, 0);
    let rf = spec_field(1, 5, Seq::empty(), 0, spec_le_u32(rel_le, 0) as u32, 0);
    lemma_parse_relative_altitude(rel_le);
    crate::proto::law_parse_fields_concat(s1, r);
    let fs = seq![top] + seq![f5];
    assert(spec_parse_fields(s) == Some(fs));
    assert(fs[0] == top);
    assert(fs[1] == f5);
    assert(spec_first_field(fs, 5, None, 1) == Some(1nat));
    assert(spec_first_field(fs, 5, None, 0) == Some(1nat));
    let rfs = seq![rf];
    assert(spec_last_field(rfs, 1, Some(5), 1) == Some(0nat));
    assert(spec_rel_alt_bits(fs) == spec_le_u32(rel_le, 0) as u32);
    lemma_gps_of_fields(lat_le, lon_le, alt_varint, fs);
}

} // verus!
