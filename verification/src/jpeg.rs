//! JPEG metadata: reading the image size from the frame header and writing
//! GPS EXIF and GPano XMP APP1 segments in place of the old ones.
use vstd::prelude::*;
use crate::bytes::{append_range, be16_seq, be32_seq, be64_seq, be_u16_at, big_endian_value, lemma_big_endian_value4, spec_be_u16};
use vstd::string::StringSliceAdditionalSpecFns;
use vstd::utf8::encode_utf8;
use crate::time::{chrono_utc_format, chrono_utc_valid, format_utc, utc_clock, Timestamp};

verus! {

/// APP1 segment marker.
pub const APP1: u8 = 0xe1;

/// Start-of-scan marker.
pub const SOS: u8 = 0xda;

/// Why a JPEG could not be read or rewritten.
#[derive(Clone, Copy, Debug, PartialEq, Eq, Structural)]
pub enum JpegError {
    /// The bytes do not start with the SOI marker (or hold fewer than 4 bytes).
    NotJpeg,
    /// The EXIF payload does not fit an APP1 segment.
    ExifPayloadTooLarge,
    /// The XMP payload does not fit an APP1 segment.
    XmpPayloadTooLarge,
    /// A segment length is below 2 or runs past the end of the file.
    InvalidSegmentLength,
    /// A frame header is too short to hold the image size.
    ShortSof,
    /// No frame header comes before the scan.
    DimensionsNotFound,
    /// A date text does not have the length its EXIF field requires.
    AsciiCountMismatch,
    /// The instant lies outside the range that chrono can represent.
    InvalidTime,
}

/// The 6 bytes `Exif\0\0` that open an EXIF APP1 payload.
pub open spec fn exif_header() -> Seq<u8> {
    seq![0x45u8, 0x78u8, 0x69u8, 0x66u8, 0x00u8, 0x00u8]
}

/// The 29 bytes `http://ns.adobe.com/xap/1.0/\0` that open an XMP APP1 payload.
pub open spec fn xmp_header() -> Seq<u8> {
    seq![
        0x68u8, 0x74u8, 0x74u8, 0x70u8, 0x3au8, 0x2fu8, 0x2fu8, 0x6eu8, 0x73u8, 0x2eu8,
        0x61u8, 0x64u8, 0x6fu8, 0x62u8, 0x65u8, 0x2eu8, 0x63u8, 0x6fu8, 0x6du8, 0x2fu8,
        0x78u8, 0x61u8, 0x70u8, 0x2fu8, 0x31u8, 0x2eu8, 0x30u8, 0x2fu8, 0x00u8,
    ]
}

pub fn exif_header_bytes() -> (r: Vec<u8>)
    ensures
        r@ == exif_header(),
{
    let r = vec![0x45u8, 0x78u8, 0x69u8, 0x66u8, 0x00u8, 0x00u8];
    assert(r@ =~= exif_header());
    r
}

pub fn xmp_header_bytes() -> (r: Vec<u8>)
    ensures
        r@ == xmp_header(),
{
    let r = vec![
        0x68u8, 0x74u8, 0x74u8, 0x70u8, 0x3au8, 0x2fu8, 0x2fu8, 0x6eu8, 0x73u8, 0x2eu8,
        0x61u8, 0x64u8, 0x6fu8, 0x62u8, 0x65u8, 0x2eu8, 0x63u8, 0x6fu8, 0x6du8, 0x2fu8,
        0x78u8, 0x61u8, 0x70u8, 0x2fu8, 0x31u8, 0x2eu8, 0x30u8, 0x2fu8, 0x00u8,
    ];
    assert(r@ =~= xmp_header());
    r
}

/// `s` begins with `p`.
pub open spec fn seq_starts_with(s: Seq<u8>, p: Seq<u8>) -> bool {
    p.len() <= s.len() && s.subrange(0, p.len() as int) == p
}

/// Whether `s[start..end]` begins with `p`.
pub fn range_starts_with(s: &[u8], start: usize, end: usize, p: &[u8]) -> (r: bool)
    requires
        start <= end <= s.len(),
    ensures
        r == seq_starts_with(s@.subrange(start as int, end as int), p@),
{
    let ghost seg = s@.subrange(start as int, end as int);
    if p.len() > end - start {
        return false;
    }
    let mut i: usize = 0;
    while i < p.len()
        invariant
            i <= p.len() <= end - start,
            start <= end <= s.len(),
            seg == s@.subrange(start as int, end as int),
            forall|k: int| 0 <= k < i ==> seg[k] == p@[k],
        decreases p.len() - i,
    {
        if s[start + i] != p[i] {
            assert(seg.subrange(0, p@.len() as int)[i as int] != p@[i as int]);
            return false;
        }
        i = i + 1;
    }
    assert(seg.subrange(0, p@.len() as int) =~= p@);
    true
}

/// Markers that stand alone, without a length: TEM, SOI, EOI and RST0..RST7.
pub open spec fn spec_is_standalone_marker(marker: u8) -> bool {
    marker == 0x01 || marker == 0xd8 || marker == 0xd9 || (0xd0 <= marker && marker <= 0xd7)
}

pub fn is_standalone_marker(marker: u8) -> (r: bool)
    ensures
        r == spec_is_standalone_marker(marker),
{
    marker == 0x01 || marker == 0xd8 || marker == 0xd9 || (0xd0 <= marker && marker <= 0xd7)
}

/// Start-of-frame markers: SOF0..SOF3, SOF5..SOF7, SOF9..SOF11, SOF13..SOF15.
pub open spec fn spec_is_sof_marker(marker: u8) -> bool {
    (0xc0 <= marker && marker <= 0xc3) || (0xc5 <= marker && marker <= 0xc7) || (0xc9 <= marker
        && marker <= 0xcb) || (0xcd <= marker && marker <= 0xcf)
}

pub fn is_sof_marker(marker: u8) -> (r: bool)
    ensures
        r == spec_is_sof_marker(marker),
{
    (0xc0 <= marker && marker <= 0xc3) || (0xc5 <= marker && marker <= 0xc7) || (0xc9 <= marker
        && marker <= 0xcb) || (0xcd <= marker && marker <= 0xcf)
}

/// The bytes open with the SOI marker (and hold at least 4 bytes).
pub open spec fn looks_like_jpeg(j: Seq<u8>) -> bool {
    j.len() >= 4 && j[0] == 0xff && j[1] == 0xd8
}

/// Width and height of a JPEG image in pixels.
#[derive(Clone, Copy, Debug, PartialEq, Eq, Structural)]
pub struct JpegDimensions {
    pub width: u16,
    pub height: u16,
}

/// Walks the marker segments of `j` from `pos` on, up to the scan, and reads
/// the size from the first frame header: height at payload bytes 1..3, width
/// at payload bytes 3..5, both big-endian.
pub open spec fn spec_dimensions_from(j: Seq<u8>, pos: int) -> Result<JpegDimensions, JpegError>
    decreases j.len() - pos,
{
    if pos < 0 || pos + 4 > j.len() || j[pos] != 0xff {
        Err(JpegError::DimensionsNotFound)
    } else {
        let marker = j[pos + 1];
        if marker == SOS {
            Err(JpegError::DimensionsNotFound)
        } else if spec_is_standalone_marker(marker) {
            spec_dimensions_from(j, pos + 2)
        } else {
            let len = spec_be_u16(j, pos + 2);
            if len < 2 || pos + 2 + len > j.len() {
                Err(JpegError::InvalidSegmentLength)
            } else if spec_is_sof_marker(marker) {
                if pos + 4 + 5 > j.len() {
                    Err(JpegError::ShortSof)
                } else {
                    Ok(JpegDimensions {
                        width: spec_be_u16(j, pos + 7) as u16,
                        height: spec_be_u16(j, pos + 5) as u16,
                    })
                }
            } else {
                spec_dimensions_from(j, pos + 2 + len)
            }
        }
    }
}

pub open spec fn spec_jpeg_dimensions(j: Seq<u8>) -> Result<JpegDimensions, JpegError> {
    if !looks_like_jpeg(j) {
        Err(JpegError::NotJpeg)
    } else {
        spec_dimensions_from(j, 2)
    }
}

/// The image size that the first frame header of a JPEG gives.
pub fn jpeg_dimensions(jpeg: &[u8]) -> (r: Result<JpegDimensions, JpegError>)
    ensures
        r == spec_jpeg_dimensions(jpeg@),
{
    if jpeg.len() < 4 || jpeg[0] != 0xff || jpeg[1] != 0xd8 {
        return Err(JpegError::NotJpeg);
    }
    let mut pos: usize = 2;
    while pos <= jpeg.len() && 4 <= jpeg.len() - pos && jpeg[pos] == 0xff
        invariant
            2 <= pos,
            looks_like_jpeg(jpeg@),
            spec_jpeg_dimensions(jpeg@) == spec_dimensions_from(jpeg@, (pos) as int),
        decreases jpeg.len() - pos,
    {
        let marker = jpeg[pos + 1];
        if marker == SOS {
            return Err(JpegError::DimensionsNotFound);
        }
        if is_standalone_marker(marker) {
            pos = pos + 2;
            continue;
        }
        let len = be_u16_at(jpeg, pos + 2) as usize;
        if len < 2 || len > jpeg.len() - pos - 2 {
            return Err(JpegError::InvalidSegmentLength);
        }
        if is_sof_marker(marker) {
            let payload_start = pos + 4;
            if jpeg.len() - payload_start < 5 {
                return Err(JpegError::ShortSof);
            }
            let height = be_u16_at(jpeg, payload_start + 1);
            let width = be_u16_at(jpeg, payload_start + 3);
            return Ok(JpegDimensions { width, height });
        }
        pos = pos + 2 + len;
    }
    Err(JpegError::DimensionsNotFound)
}

/// An APP1 segment that carries `payload`: the marker, the big-endian
/// segment length `payload.len() + 2` (modulo 2^16) and the payload.
pub open spec fn app1_segment(payload: Seq<u8>) -> Seq<u8> {
    seq![0xffu8, APP1] + be16_seq(payload.len() + 2int) + payload
}

/// Appends an APP1 segment that carries `payload`.
pub fn write_app1_segment(out: &mut Vec<u8>, payload: &[u8])
    ensures
        final(out)@ == old(out)@ + app1_segment(payload@),
{
    out.push(0xff);
    out.push(APP1);
    let n = payload.len() % 65536;
    let seg_len = ((n + 2) % 65536) as u16;
    assert(seg_len == (payload@.len() + 2) % 65536);
    push_u16(out, seg_len);
    append_range(out, payload, 0, payload.len());
    assert(payload@.subrange(0, payload@.len() as int) =~= payload@);
    reveal(be16_seq);
    assert(final(out)@ =~= old(out)@ + app1_segment(payload@));
}

/// An APP1 segment whose payload is EXIF or XMP metadata.
pub open spec fn is_metadata_app1(marker: u8, payload: Seq<u8>) -> bool {
    marker == APP1 && (seq_starts_with(payload, exif_header()) || seq_starts_with(payload, xmp_header()))
}

/// The bytes of `j` from `pos` on, without the EXIF and XMP APP1 segments
/// that come before the scan. Everything from the scan on, or from where the
/// segment structure ends, is kept as it is.
pub open spec fn spec_kept_segments(j: Seq<u8>, pos: int) -> Result<Seq<u8>, JpegError>
    decreases j.len() - pos,
{
    if pos < 0 || pos >= j.len() {
        Ok(Seq::empty())
    } else if pos + 4 > j.len() || j[pos] != 0xff {
        Ok(j.subrange(pos, j.len() as int))
    } else {
        let marker = j[pos + 1];
        if marker == SOS {
            Ok(j.subrange(pos, j.len() as int))
        } else if spec_is_standalone_marker(marker) {
            match spec_kept_segments(j, pos + 2) {
                Ok(rest) => Ok(j.subrange(pos, pos + 2) + rest),
                Err(e) => Err(e),
            }
        } else {
            let len = spec_be_u16(j, pos + 2);
            if len < 2 || pos + 2 + len > j.len() {
                Err(JpegError::InvalidSegmentLength)
            } else {
                let end = pos + 2 + len;
                match spec_kept_segments(j, end) {
                    Ok(rest) => if is_metadata_app1(marker, j.subrange(pos + 4, end)) {
                        Ok(rest)
                    } else {
                        Ok(j.subrange(pos, end) + rest)
                    },
                    Err(e) => Err(e),
                }
            }
        }
    }
}

/// The JPEG `j` with one EXIF and one XMP APP1 segment, carrying the given
/// payloads, right after SOI, and none of the EXIF and XMP APP1 segments that
/// `j` had before its scan.
pub open spec fn spec_replace_metadata_app1s(j: Seq<u8>, exif: Seq<u8>, xmp: Seq<u8>) -> Result<Seq<u8>, JpegError> {
    if !looks_like_jpeg(j) {
        Err(JpegError::NotJpeg)
    } else if exif.len() + 2 > 65535 {
        Err(JpegError::ExifPayloadTooLarge)
    } else if xmp.len() + 2 > 65535 {
        Err(JpegError::XmpPayloadTooLarge)
    } else {
        match spec_kept_segments(j, 2) {
            Ok(rest) => Ok(j.subrange(0, 2) + app1_segment(exif) + app1_segment(xmp) + rest),
            Err(e) => Err(e),
        }
    }
}

/// What the walk keeps from `pos` on depends on the bytes from `pos` on
/// only.
proof fn lemma_kept_suffix(p: Seq<u8>, s: Seq<u8>, i: int)
    requires
        0 <= i,
    ensures
        spec_kept_segments(p + s, p.len() + i) == spec_kept_segments(s, i),
    decreases s.len() - i,
{
    let j = p + s;
    let pos = p.len() + i;
    if i < s.len() {
        assert(j[pos] == s[i]);
        if i + 4 <= s.len() {
            assert(j[pos + 1] == s[i + 1]);
            assert(j[pos + 2] == s[i + 2]);
            assert(j[pos + 3] == s[i + 3]);
            assert(spec_be_u16(j, pos + 2) == spec_be_u16(s, i + 2));
            let len = spec_be_u16(s, i + 2);
            lemma_kept_suffix(p, s, i + 2);
            if len >= 2 && i + 2 + len <= s.len() {
                lemma_kept_suffix(p, s, i + 2 + len);
                assert(j.subrange(pos + 4, pos + 2 + len) =~= s.subrange(i + 4, i + 2 + len));
                assert(j.subrange(pos, pos + 2 + len) =~= s.subrange(i, i + 2 + len));
            }
            assert(j.subrange(pos, pos + 2) =~= s.subrange(i, i + 2));
        }
        assert(j.subrange(pos, j.len() as int) =~= s.subrange(i, s.len() as int));
    }
}

/// What the walk keeps is kept again, whole, by a second walk.
proof fn lemma_kept_is_fixed(j: Seq<u8>, pos: int)
    requires
        0 <= pos,
        spec_kept_segments(j, pos) is Ok,
    ensures
        spec_kept_segments(j, pos) matches Ok(r) && spec_kept_segments(r, 0) == Ok::<Seq<u8>, JpegError>(r),
    decreases j.len() - pos,
{
    if pos >= j.len() {
        assert(spec_kept_segments(Seq::<u8>::empty(), 0) == Ok::<Seq<u8>, JpegError>(Seq::empty()));
    } else if pos + 4 > j.len() || j[pos] != 0xff || j[pos + 1] == SOS {
        let r = j.subrange(pos, j.len() as int);
        assert(r.subrange(0, r.len() as int) =~= r);
        assert(r[0] == j[pos]);
        if r.len() >= 4 {
            assert(r[1] == j[pos + 1]);
        }
    } else {
        let marker = j[pos + 1];
        if spec_is_standalone_marker(marker) {
            lemma_kept_is_fixed(j, pos + 2);
            let rest = spec_kept_segments(j, pos + 2)->Ok_0;
            let head = j.subrange(pos, pos + 2);
            let r = head + rest;
            lemma_kept_suffix(head, rest, 0);
            assert(r[0] == j[pos] && r[1] == j[pos + 1]);
            assert(r.subrange(0, 2) =~= head);
            assert(r.subrange(0, r.len() as int) =~= r);
        } else {
            let len = spec_be_u16(j, pos + 2);
            let end = pos + 2 + len;
            lemma_kept_is_fixed(j, end);
            let rest = spec_kept_segments(j, end)->Ok_0;
            if !is_metadata_app1(marker, j.subrange(pos + 4, end)) {
                let head = j.subrange(pos, end);
                let r = head + rest;
                lemma_kept_suffix(head, rest, 0);
                assert(r.subrange(0, head.len() as int) =~= head);
                assert(r.subrange(4, head.len() as int) =~= j.subrange(pos + 4, end));
                assert(r[0] == j[pos] && r[1] == j[pos + 1] && r[2] == j[pos + 2] && r[3] == j[pos + 3]);
                assert(spec_be_u16(r, 2) == len);
                assert(spec_kept_segments(r, 0) == Ok::<Seq<u8>, JpegError>(r.subrange(0, 2 + len) + rest));
            }
        }
    }
}

proof fn lemma_be16_round_trip(v: int)
    requires
        0 <= v < 65536,
    ensures
        spec_be_u16(be16_seq(v), 0) == v,
{
    reveal(be16_seq);
}

/// An APP1 segment that carries EXIF or XMP metadata is dropped by the walk.
proof fn lemma_kept_drops_metadata_app1(payload: Seq<u8>, s: Seq<u8>)
    requires
        payload.len() + 2 <= 65535,
        is_metadata_app1(APP1, payload),
    ensures
        spec_kept_segments(app1_segment(payload) + s, 0) == spec_kept_segments(s, 0),
{
    let seg = app1_segment(payload);
    let j = seg + s;
    lemma_be16_round_trip(payload.len() + 2int);
    reveal(be16_seq);
    assert(seg.len() == payload.len() + 4);
    assert(j[0] == 0xff && j[1] == APP1);
    assert(spec_be_u16(j, 2) == spec_be_u16(be16_seq(payload.len() + 2int), 0));
    assert(j.subrange(4, payload.len() + 4int) =~= payload);
    lemma_kept_suffix(seg, s, 0);
}

/// Rewriting the metadata of a JPEG a second time with the same EXIF and
/// XMP payloads changes nothing: the new segments replace themselves.
pub proof fn law_replace_metadata_idempotent(j: Seq<u8>, exif: Seq<u8>, xmp: Seq<u8>)
    requires
        seq_starts_with(exif, exif_header()),
        seq_starts_with(xmp, xmp_header()),
    ensures
        spec_replace_metadata_app1s(j, exif, xmp) matches Ok(out) ==> spec_replace_metadata_app1s(
            out,
            exif,
            xmp,
        ) == Ok::<Seq<u8>, JpegError>(out),
{
    if let Ok(out) = spec_replace_metadata_app1s(j, exif, xmp) {
        let kept = spec_kept_segments(j, 2)->Ok_0;
        let soi = j.subrange(0, 2);
        let ae = app1_segment(exif);
        let ax = app1_segment(xmp);
        assert(out == soi + ae + ax + kept);
        lemma_kept_is_fixed(j, 2);
        assert(out =~= soi + (ae + (ax + kept)));
        lemma_kept_suffix(soi, ae + (ax + kept), 0);
        lemma_kept_drops_metadata_app1(exif, ax + kept);
        lemma_kept_drops_metadata_app1(xmp, kept);
        reveal(be16_seq);
        assert(out[0] == 0xff && out[1] == 0xd8);
        assert(out.subrange(0, 2) =~= soi);
    }
}

/// Rewrites the metadata of a JPEG (see [`spec_replace_metadata_app1s`]).
pub fn replace_metadata_app1s(jpeg: &[u8], exif_payload: &[u8], xmp_payload: &[u8]) -> (r: Result<Vec<u8>, JpegError>)
    ensures
        match spec_replace_metadata_app1s(jpeg@, exif_payload@, xmp_payload@) {
            Ok(s) => r matches Ok(v) && v@ == s,
            Err(e) => r == Err::<Vec<u8>, JpegError>(e),
        },
{
    if jpeg.len() < 4 || jpeg[0] != 0xff || jpeg[1] != 0xd8 {
        return Err(JpegError::NotJpeg);
    }
    if exif_payload.len() > 65533 {
        return Err(JpegError::ExifPayloadTooLarge);
    }
    if xmp_payload.len() > 65533 {
        return Err(JpegError::XmpPayloadTooLarge);
    }
    let exif_hdr = exif_header_bytes();
    let xmp_hdr = xmp_header_bytes();
    let mut out: Vec<u8> = Vec::new();
    append_range(&mut out, jpeg, 0, 2);
    write_app1_segment(&mut out, exif_payload);
    write_app1_segment(&mut out, xmp_payload);
    let ghost head = out@;
    assert(head =~= jpeg@.subrange(0, 2) + app1_segment(exif_payload@) + app1_segment(xmp_payload@));
    let mut pos: usize = 2;
    while pos < jpeg.len()
        invariant
            2 <= pos <= jpeg.len(),
            looks_like_jpeg(jpeg@),
            exif_payload@.len() + 2 <= 65535,
            xmp_payload@.len() + 2 <= 65535,
            exif_hdr@ == exif_header(),
            xmp_hdr@ == xmp_header(),
            spec_kept_segments(jpeg@, 2) == match spec_kept_segments(jpeg@, (pos) as int) {
                Ok(rest) => Ok(out@.subrange(head.len() as int, out@.len() as int) + rest),
                Err(e) => Err(e),
            },
            head.len() <= out@.len(),
            out@.subrange(0, head.len() as int) == head,
        decreases jpeg.len() - pos,
    {
        let ghost before = out@;
        if jpeg.len() - pos < 4 || jpeg[pos] != 0xff {
            append_range(&mut out, jpeg, pos, jpeg.len());
            assert(out@.subrange(head.len() as int, out@.len() as int) =~= before.subrange(head.len() as int, before.len() as int) + jpeg@.subrange(pos as int, jpeg@.len() as int));
            assert(out@.subrange(0, head.len() as int) =~= before.subrange(0, head.len() as int));
            assert(spec_kept_segments(jpeg@, jpeg@.len() as int) == Ok::<Seq<u8>, JpegError>(Seq::empty()));
            pos = jpeg.len();
            assert(out@.subrange(head.len() as int, out@.len() as int) + Seq::<u8>::empty() =~= out@.subrange(head.len() as int, out@.len() as int));
            continue;
        }
        let marker = jpeg[pos + 1];
        if marker == SOS {
            append_range(&mut out, jpeg, pos, jpeg.len());
            assert(out@.subrange(head.len() as int, out@.len() as int) =~= before.subrange(head.len() as int, before.len() as int) + jpeg@.subrange(pos as int, jpeg@.len() as int));
            assert(out@.subrange(0, head.len() as int) =~= before.subrange(0, head.len() as int));
            assert(spec_kept_segments(jpeg@, jpeg@.len() as int) == Ok::<Seq<u8>, JpegError>(Seq::empty()));
            pos = jpeg.len();
            assert(out@.subrange(head.len() as int, out@.len() as int) + Seq::<u8>::empty() =~= out@.subrange(head.len() as int, out@.len() as int));
            continue;
        }
        if is_standalone_marker(marker) {
            append_range(&mut out, jpeg, pos, pos + 2);
            assert(out@.subrange(head.len() as int, out@.len() as int) =~= before.subrange(head.len() as int, before.len() as int) + jpeg@.subrange(pos as int, pos + 2));
            assert(out@.subrange(0, head.len() as int) =~= before.subrange(0, head.len() as int));
            proof {
                if let Ok(rest) = spec_kept_segments(jpeg@, (pos + 2) as int) {
                    assert(out@.subrange(head.len() as int, out@.len() as int) + rest =~= before.subrange(head.len() as int, before.len() as int) + (jpeg@.subrange(pos as int, pos + 2) + rest));
                }
            }
            pos = pos + 2;
            continue;
        }
        let len = be_u16_at(jpeg, pos + 2) as usize;
        if len < 2 || len > jpeg.len() - pos - 2 {
            return Err(JpegError::InvalidSegmentLength);
        }
        let payload_start = pos + 4;
        let payload_end = pos + 2 + len;
        let is_exif_app1 = marker == APP1 && range_starts_with(jpeg, payload_start, payload_end, exif_hdr.as_slice());
        let is_xmp_app1 = marker == APP1 && range_starts_with(jpeg, payload_start, payload_end, xmp_hdr.as_slice());
        assert((is_exif_app1 || is_xmp_app1) == is_metadata_app1(marker, jpeg@.subrange(payload_start as int, payload_end as int)));
        if !is_exif_app1 && !is_xmp_app1 {
            append_range(&mut out, jpeg, pos, payload_end);
            assert(out@.subrange(head.len() as int, out@.len() as int) =~= before.subrange(head.len() as int, before.len() as int) + jpeg@.subrange(pos as int, payload_end as int));
            assert(out@.subrange(0, head.len() as int) =~= before.subrange(0, head.len() as int));
            proof {
                if let Ok(rest) = spec_kept_segments(jpeg@, (payload_end) as int) {
                    assert(out@.subrange(head.len() as int, out@.len() as int) + rest =~= before.subrange(head.len() as int, before.len() as int) + (jpeg@.subrange(pos as int, payload_end as int) + rest));
                }
            }
        }
        pos = payload_end;
    }
    assert(spec_kept_segments(jpeg@, (pos) as int) == Ok::<Seq<u8>, JpegError>(Seq::empty()));
    assert(out@.subrange(head.len() as int, out@.len() as int) + Seq::<u8>::empty() =~= out@.subrange(head.len() as int, out@.len() as int));
    assert(out@ =~= head + out@.subrange(head.len() as int, out@.len() as int));
    Ok(out)
}

/// Appends the two big-endian bytes of `value`.
pub fn push_u16(out: &mut Vec<u8>, value: u16)
    ensures
        final(out)@ == old(out)@ + be16_seq(value as int),
{
    out.push((value / 256) as u8);
    out.push((value % 256) as u8);
    reveal(be16_seq);
    assert(final(out)@ =~= old(out)@ + be16_seq(value as int));
}

/// Appends the four big-endian bytes of `value`.
pub fn push_u32(out: &mut Vec<u8>, value: u32)
    ensures
        final(out)@ == old(out)@ + be32_seq(value as int),
{
    push_u16(out, (value / 65536) as u16);
    push_u16(out, (value % 65536) as u16);
    reveal(be32_seq);
    reveal(be16_seq);
    assert(final(out)@ =~= old(out)@ + be32_seq(value as int));
}

/// Appends the eight big-endian bytes of `value`.
pub fn push_u64(out: &mut Vec<u8>, value: u64)
    ensures
        final(out)@ == old(out)@ + be64_seq(value as int),
{
    push_u32(out, (value / 0x1_0000_0000) as u32);
    push_u32(out, (value % 0x1_0000_0000) as u32);
    reveal(be64_seq);
    assert(value as int % 0x1_0000_0000_0000_0000 == value as int);
    assert(final(out)@ =~= old(out)@ + be64_seq(value as int));
}

/// The eight bytes of an EXIF RATIONAL.
pub open spec fn rational_bytes(numerator: int, denominator: int) -> Seq<u8> {
    be32_seq(numerator) + be32_seq(denominator)
}

/// Appends an EXIF RATIONAL.
pub fn push_rational(out: &mut Vec<u8>, numerator: u32, denominator: u32)
    ensures
        final(out)@ == old(out)@ + rational_bytes(numerator as int, denominator as int),
{
    push_u32(out, numerator);
    push_u32(out, denominator);
    assert(final(out)@ =~= old(out)@ + rational_bytes(numerator as int, denominator as int));
}

/// The value field of an IFD entry: four bytes held inline, or the offset of
/// the value within the TIFF data.
pub enum Value {
    Inline([u8; 4]),
    Offset(u32),
}

pub open spec fn value_bytes(value: Value) -> Seq<u8> {
    match value {
        Value::Inline(b) => b@,
        Value::Offset(o) => be32_seq(o as int),
    }
}

/// The twelve bytes of an IFD entry.
pub open spec fn ifd_entry_bytes(tag: int, typ: int, count: int, value: Seq<u8>) -> Seq<u8> {
    be16_seq(tag) + be16_seq(typ) + be32_seq(count) + value
}

/// Appends an IFD entry (big-endian).
pub fn push_ifd_entry(out: &mut Vec<u8>, tag: u16, typ: u16, count: u32, value: Value)
    ensures
        final(out)@ == old(out)@ + ifd_entry_bytes(tag as int, typ as int, count as int, value_bytes(value)),
{
    push_u16(out, tag);
    push_u16(out, typ);
    push_u32(out, count);
    match value {
        Value::Inline(bytes) => {
            let ghost before = out@;
            out.push(bytes[0]);
            out.push(bytes[1]);
            out.push(bytes[2]);
            out.push(bytes[3]);
            assert(out@ =~= before + bytes@);
        },
        Value::Offset(offset) => push_u32(out, offset),
    }
    assert(final(out)@ =~= old(out)@ + ifd_entry_bytes(tag as int, typ as int, count as int, value_bytes(value)));
}

/// Appends an EXIF ASCII value: the UTF-8 bytes of `value` and a NUL, where
/// that makes exactly `count` bytes; otherwise leaves `out` as it is.
pub fn push_ascii(out: &mut Vec<u8>, value: &str, count: usize) -> (r: Result<(), JpegError>)
    ensures
        value.spec_bytes().len() + 1 == count ==> r is Ok && final(out)@ == old(out)@ + value.spec_bytes() + seq![0u8],
        value.spec_bytes().len() + 1 != count ==> r == Err::<(), JpegError>(JpegError::AsciiCountMismatch) && final(out)@ == old(out)@,
{
    let bytes = value.as_bytes();
    if bytes.len() >= count || bytes.len() + 1 != count {
        return Err(JpegError::AsciiCountMismatch);
    }
    append_range(out, bytes, 0, bytes.len());
    out.push(0);
    assert(bytes@.subrange(0, bytes@.len() as int) =~= bytes@);
    assert(final(out)@ =~= old(out)@ + value.spec_bytes() + seq![0u8]);
    Ok(())
}


/// An angle as EXIF GPS stores it: whole degrees, whole minutes and seconds
/// in units of 10^-7.
#[derive(Clone, Copy, Debug, PartialEq, Eq, Structural)]
pub struct Dms {
    pub degrees: u32,
    pub minutes: u32,
    pub seconds_e7: u32,
}

/// The three RATIONALs of an angle.
pub open spec fn dms_bytes(d: Dms) -> Seq<u8> {
    rational_bytes(d.degrees as int, 1) + rational_bytes(d.minutes as int, 1) + rational_bytes(
        d.seconds_e7 as int,
        10_000_000,
    )
}

/// Appends the three RATIONALs of an angle.
pub fn push_dms_rationals(out: &mut Vec<u8>, dms: Dms)
    ensures
        final(out)@ == old(out)@ + dms_bytes(dms),
{
    push_rational(out, dms.degrees, 1);
    push_rational(out, dms.minutes, 1);
    push_rational(out, dms.seconds_e7, 10_000_000);
    assert(final(out)@ =~= old(out)@ + dms_bytes(dms));
}

/// What the GPS EXIF of one image records: the hemispheres, the magnitudes
/// of latitude and longitude as angles, whether the altitude is below sea
/// level, its magnitude in millimetres, and the instant.
#[derive(Clone, Copy, Debug, PartialEq, Eq, Structural)]
pub struct ExifGps {
    pub lat_negative: bool,
    pub lat: Dms,
    pub lon_negative: bool,
    pub lon: Dms,
    pub alt_negative: bool,
    pub alt_mm: u32,
    pub time: Timestamp,
}

/// chrono format of the EXIF `DateTimeOriginal` text.
pub const EXIF_DATE_TIME_FORMAT: &'static str = "%Y:%m:%d %H:%M:%S";

/// chrono format of the EXIF `GPSDateStamp` text.
pub const EXIF_DATE_FORMAT: &'static str = "%Y:%m:%d";

/// TIFF header (big-endian, IFD0 at offset 8) and IFD0 with the pointers to
/// the EXIF IFD (offset 38) and the GPS IFD (offset 76).
#[verifier::opaque]
pub open spec fn tiff_head_bytes() -> Seq<u8> {
    seq![0x4du8, 0x4du8] + be16_seq(42) + be32_seq(8) + be16_seq(2) + ifd_entry_bytes(0x8769, 4, 1, be32_seq(38))
        + ifd_entry_bytes(0x8825, 4, 1, be32_seq(76)) + be32_seq(0)
}

/// The EXIF IFD with `DateTimeOriginal` (its text at offset 56), followed by
/// that text and a NUL.
#[verifier::opaque]
pub open spec fn exif_ifd_bytes(date_time: Seq<u8>) -> Seq<u8> {
    be16_seq(1) + ifd_entry_bytes(0x9003, 2, 20, be32_seq(56)) + be32_seq(0) + date_time + seq![0u8]
}

/// The GPS IFD: version 2.3, latitude and longitude with their references,
/// altitude with its reference, time stamp and date stamp; the values that
/// do not fit inline lie at offsets 190 (latitude), 214 (longitude), 238
/// (altitude), 246 (time) and 270 (date).
#[verifier::opaque]
pub open spec fn gps_ifd_bytes(lat_ref: u8, lon_ref: u8, alt_ref: u8) -> Seq<u8> {
    be16_seq(9) + ifd_entry_bytes(0x0000, 1, 4, seq![2u8, 3u8, 0u8, 0u8])
        + ifd_entry_bytes(0x0001, 2, 2, seq![lat_ref, 0u8, 0u8, 0u8])
        + ifd_entry_bytes(0x0002, 5, 3, be32_seq(190))
        + ifd_entry_bytes(0x0003, 2, 2, seq![lon_ref, 0u8, 0u8, 0u8])
        + ifd_entry_bytes(0x0004, 5, 3, be32_seq(214))
        + ifd_entry_bytes(0x0005, 1, 1, seq![alt_ref, 0u8, 0u8, 0u8])
        + ifd_entry_bytes(0x0006, 5, 1, be32_seq(238))
        + ifd_entry_bytes(0x0007, 5, 3, be32_seq(246))
        + ifd_entry_bytes(0x001d, 2, 11, be32_seq(270)) + be32_seq(0)
}

/// The GPS values: latitude, longitude, altitude (millimetres), time stamp
/// (hour, minute, and second with milliseconds).
#[verifier::opaque]
pub open spec fn gps_values_bytes(g: ExifGps, hour: int, minute: int, second_millis: int) -> Seq<u8> {
    dms_bytes(g.lat) + dms_bytes(g.lon) + rational_bytes(g.alt_mm as int, 1000) + rational_bytes(hour, 1)
        + rational_bytes(minute, 1) + rational_bytes(second_millis, 1000)
}

/// The reference letters of the GPS IFD: `S` or `N`, `W` or `E`, and 1
/// (below sea level) or 0.
pub open spec fn gps_refs(g: ExifGps) -> (u8, u8, u8) {
    (
        if g.lat_negative { 0x53u8 } else { 0x4eu8 },
        if g.lon_negative { 0x57u8 } else { 0x45u8 },
        if g.alt_negative { 1u8 } else { 0u8 },
    )
}

/// The whole TIFF structure of the GPS EXIF, with the date stamp (and a NUL)
/// at its end.
pub open spec fn spec_tiff(g: ExifGps, hour: int, minute: int, second_millis: int, date_time: Seq<u8>, date: Seq<u8>) -> Seq<u8> {
    let refs = gps_refs(g);
    tiff_head_bytes() + exif_ifd_bytes(date_time) + gps_ifd_bytes(refs.0, refs.1, refs.2)
        + gps_values_bytes(g, hour, minute, second_millis) + date + seq![0u8]
}

/// The EXIF APP1 payload for `g` with the date and time text `date_time`
/// and the date text `date`: `Exif\0\0` and the TIFF structure, with the
/// instant's UTC hour, minute and second (with milliseconds). No payload for
/// an instant that chrono cannot represent, or texts that do not have the 19
/// and 10 bytes of the EXIF fields.
pub open spec fn spec_exif_payload_with_dates(g: ExifGps, date_time: Seq<char>, date: Seq<char>) -> Result<Seq<u8>, JpegError> {
    let secs = g.time.secs;
    let nanos = g.time.nanos;
    if !chrono_utc_valid(secs, nanos) {
        Err(JpegError::InvalidTime)
    } else {
        let dt = encode_utf8(date_time);
        let d = encode_utf8(date);
        if dt.len() + 1 != 20 {
            Err(JpegError::AsciiCountMismatch)
        } else if d.len() + 1 != 11 {
            Err(JpegError::AsciiCountMismatch)
        } else {
            let day = secs % 86400;
            Ok(exif_header() + spec_tiff(
                g,
                day / 3600,
                (day / 60) % 60,
                (secs % 60) * 1000 + nanos / 1_000_000,
                dt,
                d,
            ))
        }
    }
}

proof fn lemma_gps_ifd_refs(lat_ref: u8, lon_ref: u8, alt_ref: u8)
    ensures
        gps_ifd_bytes(lat_ref, lon_ref, alt_ref).len() == 114,
        gps_ifd_bytes(lat_ref, lon_ref, alt_ref).subrange(14, 26) == seq![
            0x00u8, 0x01u8, 0x00u8, 0x02u8, 0x00u8, 0x00u8, 0x00u8, 0x02u8, lat_ref, 0u8, 0u8, 0u8,
        ],
        gps_ifd_bytes(lat_ref, lon_ref, alt_ref).subrange(38, 50) == seq![
            0x00u8, 0x03u8, 0x00u8, 0x02u8, 0x00u8, 0x00u8, 0x00u8, 0x02u8, lon_ref, 0u8, 0u8, 0u8,
        ],
{
    reveal(gps_ifd_bytes);
    reveal(be16_seq);
    reveal(be32_seq);
    let g = gps_ifd_bytes(lat_ref, lon_ref, alt_ref);
    assert(g.subrange(14, 26) =~= seq![
        0x00u8, 0x01u8, 0x00u8, 0x02u8, 0x00u8, 0x00u8, 0x00u8, 0x02u8, lat_ref, 0u8, 0u8, 0u8,
    ]);
    assert(g.subrange(38, 50) =~= seq![
        0x00u8, 0x03u8, 0x00u8, 0x02u8, 0x00u8, 0x00u8, 0x00u8, 0x02u8, lon_ref, 0u8, 0u8, 0u8,
    ]);
}

proof fn lemma_tiff_prefix_lens(date_time: Seq<u8>)
    requires
        date_time.len() == 19,
    ensures
        tiff_head_bytes().len() == 38,
        exif_ifd_bytes(date_time).len() == 38,
{
    reveal(tiff_head_bytes);
    reveal(exif_ifd_bytes);
    reveal(be16_seq);
    reveal(be32_seq);
}

/// The hemispheres land in the GPS IFD of the payload: the 12 bytes at
/// payload offset 96 are the `GPSLatitudeRef` entry (tag 1, ASCII, 2 bytes)
/// whose value is `S` for a southern and `N` for a northern latitude, and
/// the 12 bytes at offset 120 the `GPSLongitudeRef` entry (tag 3, ASCII, 2
/// bytes) whose value is `W` for a western and `E` for an eastern
/// longitude.
pub proof fn law_exif_hemisphere_refs(g: ExifGps, date_time: Seq<char>, date: Seq<char>)
    ensures
        spec_exif_payload_with_dates(g, date_time, date) matches Ok(p) ==> {
            &&& p.len() >= 132
            &&& p.subrange(96, 104) == seq![0x00u8, 0x01u8, 0x00u8, 0x02u8, 0x00u8, 0x00u8, 0x00u8, 0x02u8]
            &&& p[104] == (if g.lat_negative { 0x53u8 } else { 0x4eu8 })
            &&& p[105] == 0u8
            &&& p.subrange(120, 128) == seq![0x00u8, 0x03u8, 0x00u8, 0x02u8, 0x00u8, 0x00u8, 0x00u8, 0x02u8]
            &&& p[128] == (if g.lon_negative { 0x57u8 } else { 0x45u8 })
            &&& p[129] == 0u8
        },
{
    if let Ok(p) = spec_exif_payload_with_dates(g, date_time, date) {
        let dt = encode_utf8(date_time);
        let refs = gps_refs(g);
        lemma_tiff_prefix_lens(dt);
        lemma_gps_ifd_refs(refs.0, refs.1, refs.2);
        let gi = gps_ifd_bytes(refs.0, refs.1, refs.2);
        let prefix = exif_header() + tiff_head_bytes() + exif_ifd_bytes(dt);
        assert(prefix.len() == 82);
        assert forall|k: int| 0 <= k < 114 implies p[82 + k] == gi[k] by {
            let secs = g.time.secs;
            let nanos = g.time.nanos;
            let day = secs % 86400;
            let rest = gps_values_bytes(g, day / 3600, (day / 60) % 60, (secs % 60) * 1000 + nanos / 1_000_000)
                + encode_utf8(date) + seq![0u8];
            assert(p =~= prefix + gi + rest);
        }
        assert(p.subrange(96, 104) =~= gi.subrange(14, 22));
        assert(gi.subrange(14, 22) =~= gi.subrange(14, 26).subrange(0, 8));
        assert(p[104] == gi.subrange(14, 26)[8]);
        assert(p[105] == gi.subrange(14, 26)[9]);
        assert(p.subrange(120, 128) =~= gi.subrange(38, 46));
        assert(gi.subrange(38, 46) =~= gi.subrange(38, 50).subrange(0, 8));
        assert(p[128] == gi.subrange(38, 50)[8]);
        assert(p[129] == gi.subrange(38, 50)[9]);
    }
}

proof fn lemma_be32_value(x: int)
    requires
        0 <= x < 0x1_0000_0000,
    ensures
        be32_seq(x).len() == 4,
        big_endian_value(be32_seq(x)) == x,
{
    crate::mp4_rewrite::lemma_be32_round_trip(x);
    lemma_big_endian_value4(be32_seq(x), 0);
    assert(be32_seq(x).subrange(0, 4) =~= be32_seq(x));
}

/// The numbers of the GPS values in an EXIF payload, in the order the
/// payload holds them as big-endian 32-bit words from offset 196: latitude
/// and longitude each as degrees/1, minutes/1 and seconds/10^7, altitude in
/// millimetres/1000, then the UTC hour/1, minute/1 and second with
/// milliseconds/1000 of the instant.
pub open spec fn exif_gps_words(g: ExifGps) -> Seq<int> {
    let secs = g.time.secs;
    let day = secs % 86400;
    let hour = day / 3600;
    let minute = (day / 60) % 60;
    let second_millis = (secs % 60) * 1000 + g.time.nanos / 1_000_000;
    seq![
            g.lat.degrees as int,
            1int,
            g.lat.minutes as int,
            1int,
            g.lat.seconds_e7 as int,
            10_000_000int,
            g.lon.degrees as int,
            1int,
            g.lon.minutes as int,
            1int,
            g.lon.seconds_e7 as int,
            10_000_000int,
            g.alt_mm as int,
            1000int,
            hour,
            1int,
            minute,
            1int,
            second_millis,
            1000int,
        ]
}

/// The big-endian 32-bit words of the numbers `w`, one after another.
pub open spec fn be32_words(w: Seq<int>) -> Seq<u8>
    decreases w.len(),
{
    if w.len() == 0 {
        Seq::empty()
    } else {
        be32_words(w.drop_last()) + be32_seq(w.last())
    }
}

proof fn lemma_be32_words_add(a: Seq<int>, b: Seq<int>)
    ensures
        be32_words(a + b) == be32_words(a) + be32_words(b),
    decreases b.len(),
{
    if b.len() == 0 {
        assert(a + b =~= a);
        assert(be32_words(a) + Seq::<u8>::empty() =~= be32_words(a));
    } else {
        lemma_be32_words_add(a, b.drop_last());
        assert((a + b).drop_last() =~= a + b.drop_last());
        assert(be32_words(a) + be32_words(b.drop_last()) + be32_seq(b.last()) =~= be32_words(a) + (be32_words(
            b.drop_last(),
        ) + be32_seq(b.last())));
    }
}

proof fn lemma_be32_words_index(w: Seq<int>)
    requires
        forall|k: int| 0 <= k < w.len() ==> 0 <= #[trigger] w[k] < 0x1_0000_0000,
    ensures
        be32_words(w).len() == 4 * w.len(),
        forall|k: int| 0 <= k < w.len() ==> #[trigger] be32_words(w).subrange(4 * k, 4 * k + 4) == be32_seq(w[k]),
    decreases w.len(),
{
    if w.len() > 0 {
        let front = w.drop_last();
        lemma_be32_words_index(front);
        lemma_be32_value(w.last());
        let bw = be32_words(w);
        assert forall|k: int| 0 <= k < w.len() implies #[trigger] bw.subrange(4 * k, 4 * k + 4) == be32_seq(w[k]) by {
            if k < w.len() - 1 {
                assert(bw.subrange(4 * k, 4 * k + 4) =~= be32_words(front).subrange(4 * k, 4 * k + 4));
                assert(front[k] == w[k]);
            } else {
                assert(bw.subrange(4 * k, 4 * k + 4) =~= be32_seq(w.last()));
            }
        }
    }
}

proof fn lemma_rational_words(x: int, y: int)
    ensures
        rational_bytes(x, y) == be32_words(seq![x, y]),
{
    assert(seq![x, y].drop_last() =~= seq![x]);
    assert(seq![x].drop_last() =~= Seq::<int>::empty());
    assert(be32_words(Seq::<int>::empty()) == Seq::<u8>::empty());
    assert(seq![x].last() == x);
    assert(be32_words(seq![x]) == be32_words(seq![x].drop_last()) + be32_seq(x));
    assert(be32_words(seq![x]) =~= be32_seq(x));
    assert(seq![x, y].last() == y);
    assert(be32_words(seq![x, y]) == be32_words(seq![x]) + be32_seq(y));
}

proof fn lemma_dms_words(d: Dms)
    ensures
        dms_bytes(d) == be32_words(
            seq![d.degrees as int, 1int, d.minutes as int, 1int, d.seconds_e7 as int, 10_000_000int],
        ),
{
    let a = seq![d.degrees as int, 1int];
    let b = seq![d.minutes as int, 1int];
    let c = seq![d.seconds_e7 as int, 10_000_000int];
    lemma_rational_words(d.degrees as int, 1);
    lemma_rational_words(d.minutes as int, 1);
    lemma_rational_words(d.seconds_e7 as int, 10_000_000);
    lemma_be32_words_add(a, b);
    lemma_be32_words_add(a + b, c);
    assert(a + b + c =~= seq![d.degrees as int, 1int, d.minutes as int, 1int, d.seconds_e7 as int, 10_000_000int]);
}

proof fn lemma_gps_values_words(g: ExifGps, hour: int, minute: int, second_millis: int)
    ensures
        gps_values_bytes(g, hour, minute, second_millis) == be32_words(
            seq![
                g.lat.degrees as int,
                1int,
                g.lat.minutes as int,
                1int,
                g.lat.seconds_e7 as int,
                10_000_000int,
                g.lon.degrees as int,
                1int,
                g.lon.minutes as int,
                1int,
                g.lon.seconds_e7 as int,
                10_000_000int,
                g.alt_mm as int,
                1000int,
                hour,
                1int,
                minute,
                1int,
                second_millis,
                1000int,
            ],
        ),
{
    reveal(gps_values_bytes);
    let la = seq![g.lat.degrees as int, 1int, g.lat.minutes as int, 1int, g.lat.seconds_e7 as int, 10_000_000int];
    let lo = seq![g.lon.degrees as int, 1int, g.lon.minutes as int, 1int, g.lon.seconds_e7 as int, 10_000_000int];
    let al = seq![g.alt_mm as int, 1000int];
    let h = seq![hour, 1int];
    let m = seq![minute, 1int];
    let sm = seq![second_millis, 1000int];
    lemma_dms_words(g.lat);
    lemma_dms_words(g.lon);
    lemma_rational_words(g.alt_mm as int, 1000);
    lemma_rational_words(hour, 1);
    lemma_rational_words(minute, 1);
    lemma_rational_words(second_millis, 1000);
    lemma_be32_words_add(la, lo);
    lemma_be32_words_add(la + lo, al);
    lemma_be32_words_add(la + lo + al, h);
    lemma_be32_words_add(la + lo + al + h, m);
    lemma_be32_words_add(la + lo + al + h + m, sm);
    assert(la + lo + al + h + m + sm =~= seq![
        g.lat.degrees as int,
        1int,
        g.lat.minutes as int,
        1int,
        g.lat.seconds_e7 as int,
        10_000_000int,
        g.lon.degrees as int,
        1int,
        g.lon.minutes as int,
        1int,
        g.lon.seconds_e7 as int,
        10_000_000int,
        g.alt_mm as int,
        1000int,
        hour,
        1int,
        minute,
        1int,
        second_millis,
        1000int,
    ]);
}

/// The GPS values land where the GPS IFD points: the `k`-th 4-byte word of
/// the payload from offset 196 on, read most significant byte first, is the
/// `k`-th number of [`exif_gps_words`] (latitude, longitude, altitude and
/// time stamp, each as its numerators and denominators).
pub proof fn law_exif_gps_values(g: ExifGps, date_time: Seq<char>, date: Seq<char>)
    ensures
        spec_exif_payload_with_dates(g, date_time, date) matches Ok(p) ==> {
            &&& p.len() >= 276
            &&& forall|k: int|
                0 <= k < 20 ==> #[trigger] big_endian_value(p.subrange(196 + 4 * k, 200 + 4 * k))
                    == exif_gps_words(g)[k]
        },
{
    if let Ok(p) = spec_exif_payload_with_dates(g, date_time, date) {
        let dt = encode_utf8(date_time);
        let refs = gps_refs(g);
        lemma_tiff_prefix_lens(dt);
        lemma_gps_ifd_refs(refs.0, refs.1, refs.2);
        let w = exif_gps_words(g);
        let secs = g.time.secs;
        let day = secs % 86400;
        let hour = day / 3600;
        let minute = (day / 60) % 60;
        let second_millis = (secs % 60) * 1000 + g.time.nanos / 1_000_000;
        assert forall|k: int| 0 <= k < 20 implies 0 <= #[trigger] w[k] < 0x1_0000_0000 by {}
        lemma_gps_values_words(g, hour, minute, second_millis);
        let gv = gps_values_bytes(g, hour, minute, second_millis);
        assert(gv == be32_words(w));
        lemma_be32_words_index(w);
        let prefix = exif_header() + tiff_head_bytes() + exif_ifd_bytes(dt) + gps_ifd_bytes(refs.0, refs.1, refs.2);
        assert(prefix.len() == 196);
        let rest = encode_utf8(date) + seq![0u8];
        assert(p == prefix + gv + rest);
        assert forall|k: int| 0 <= k < 20 implies #[trigger] big_endian_value(p.subrange(196 + 4 * k, 200 + 4 * k))
            == w[k] by {
            lemma_be32_value(w[k]);
            assert(p.subrange(196 + 4 * k, 200 + 4 * k) =~= gv.subrange(4 * k, 4 * k + 4));
        }
    }
}

/// The EXIF APP1 payload for `g` (see [`spec_exif_payload_with_dates`]),
/// with the date and time texts that chrono formats for the instant in
/// [`EXIF_DATE_TIME_FORMAT`] and [`EXIF_DATE_FORMAT`].
pub open spec fn spec_exif_payload(g: ExifGps) -> Result<Seq<u8>, JpegError> {
    let secs = g.time.secs;
    let nanos = g.time.nanos;
    if !chrono_utc_valid(secs, nanos) {
        Err(JpegError::InvalidTime)
    } else {
        spec_exif_payload_with_dates(
            g,
            chrono_utc_format(secs, nanos, EXIF_DATE_TIME_FORMAT@),
            chrono_utc_format(secs, nanos, EXIF_DATE_FORMAT@),
        )
    }
}

fn push_tiff_head(out: &mut Vec<u8>)
    ensures
        final(out)@ == old(out)@ + tiff_head_bytes(),
{
    let ifd0_offset: usize = 8;
    let ifd0_len: usize = 2 + 2 * 12 + 4;
    let exif_ifd_offset = ifd0_offset + ifd0_len;
    let exif_ifd_len: usize = 2 + 1 * 12 + 4;
    let gps_ifd_offset = exif_ifd_offset + exif_ifd_len + 20;
    out.push(0x4d);
    out.push(0x4d);
    push_u16(out, 42);
    push_u32(out, 8);
    push_u16(out, 2);
    push_ifd_entry(out, 0x8769, 4, 1, Value::Offset(exif_ifd_offset as u32));
    push_ifd_entry(out, 0x8825, 4, 1, Value::Offset(gps_ifd_offset as u32));
    push_u32(out, 0);
    reveal(tiff_head_bytes);
    assert(final(out)@ =~= old(out)@ + tiff_head_bytes());
}

fn push_exif_ifd(out: &mut Vec<u8>, date_time: &str) -> (r: Result<(), JpegError>)
    ensures
        date_time.spec_bytes().len() + 1 == 20 ==> r is Ok && final(out)@ == old(out)@ + exif_ifd_bytes(date_time.spec_bytes()),
        date_time.spec_bytes().len() + 1 != 20 ==> r == Err::<(), JpegError>(JpegError::AsciiCountMismatch),
{
    let exif_ifd_offset: usize = 38;
    let exif_ifd_len: usize = 2 + 1 * 12 + 4;
    push_u16(out, 1);
    push_ifd_entry(out, 0x9003, 2, 20, Value::Offset((exif_ifd_offset + exif_ifd_len) as u32));
    push_u32(out, 0);
    let r = push_ascii(out, date_time, 20);
    reveal(exif_ifd_bytes);
    assert(r is Ok ==> final(out)@ =~= old(out)@ + exif_ifd_bytes(date_time.spec_bytes()));
    r
}

fn push_gps_ifd(out: &mut Vec<u8>, lat_ref: u8, lon_ref: u8, alt_ref: u8)
    ensures
        final(out)@ == old(out)@ + gps_ifd_bytes(lat_ref, lon_ref, alt_ref),
{
    let gps_ifd_offset: usize = 76;
    let gps_ifd_len: usize = 2 + 9 * 12 + 4;
    let lat_data_offset = gps_ifd_offset + gps_ifd_len;
    let lon_data_offset = lat_data_offset + 24;
    let alt_data_offset = lon_data_offset + 24;
    let gps_time_offset = alt_data_offset + 8;
    let gps_date_offset = gps_time_offset + 24;
    push_u16(out, 9);
    push_ifd_entry(out, 0x0000, 1, 4, Value::Inline([2, 3, 0, 0]));
    push_ifd_entry(out, 0x0001, 2, 2, Value::Inline([lat_ref, 0, 0, 0]));
    push_ifd_entry(out, 0x0002, 5, 3, Value::Offset(lat_data_offset as u32));
    push_ifd_entry(out, 0x0003, 2, 2, Value::Inline([lon_ref, 0, 0, 0]));
    push_ifd_entry(out, 0x0004, 5, 3, Value::Offset(lon_data_offset as u32));
    push_ifd_entry(out, 0x0005, 1, 1, Value::Inline([alt_ref, 0, 0, 0]));
    push_ifd_entry(out, 0x0006, 5, 1, Value::Offset(alt_data_offset as u32));
    push_ifd_entry(out, 0x0007, 5, 3, Value::Offset(gps_time_offset as u32));
    push_ifd_entry(out, 0x001d, 2, 11, Value::Offset(gps_date_offset as u32));
    push_u32(out, 0);
    assert([2u8, 3u8, 0u8, 0u8]@ =~= seq![2u8, 3u8, 0u8, 0u8]);
    assert([lat_ref, 0u8, 0u8, 0u8]@ =~= seq![lat_ref, 0u8, 0u8, 0u8]);
    assert([lon_ref, 0u8, 0u8, 0u8]@ =~= seq![lon_ref, 0u8, 0u8, 0u8]);
    assert([alt_ref, 0u8, 0u8, 0u8]@ =~= seq![alt_ref, 0u8, 0u8, 0u8]);
    reveal(gps_ifd_bytes);
    assert(final(out)@ =~= old(out)@ + gps_ifd_bytes(lat_ref, lon_ref, alt_ref));
}

fn push_gps_values(out: &mut Vec<u8>, point: &ExifGps, hour: u32, minute: u32, second_millis: u32)
    ensures
        final(out)@ == old(out)@ + gps_values_bytes(*point, hour as int, minute as int, second_millis as int),
{
    push_dms_rationals(out, point.lat);
    push_dms_rationals(out, point.lon);
    push_rational(out, point.alt_mm, 1000);
    push_rational(out, hour, 1);
    push_rational(out, minute, 1);
    push_rational(out, second_millis, 1000);
    reveal(gps_values_bytes);
    assert(final(out)@ =~= old(out)@ + gps_values_bytes(*point, hour as int, minute as int, second_millis as int));
}

/// Builds the GPS EXIF APP1 payload with the given date and time texts
/// (see [`spec_exif_payload_with_dates`]).
pub fn build_exif_payload_with_dates(point: &ExifGps, date_time: &str, date: &str) -> (r: Result<Vec<u8>, JpegError>)
    ensures
        match spec_exif_payload_with_dates(*point, date_time@, date@) {
            Ok(s) => r matches Ok(v) && v@ == s,
            Err(e) => r == Err::<Vec<u8>, JpegError>(e),
        },
{
    let (hour, minute, second, millis) = match utc_clock(point.time) {
        Some(c) => c,
        None => return Err(JpegError::InvalidTime),
    };
    let mut payload = exif_header_bytes();
    push_tiff_head(&mut payload);
    push_exif_ifd(&mut payload, date_time)?;
    let lat_ref: u8 = if point.lat_negative { 0x53 } else { 0x4e };
    let lon_ref: u8 = if point.lon_negative { 0x57 } else { 0x45 };
    let alt_ref: u8 = if point.alt_negative { 1 } else { 0 };
    push_gps_ifd(&mut payload, lat_ref, lon_ref, alt_ref);
    push_gps_values(&mut payload, point, hour, minute, second * 1000 + millis);
    let ghost before_date = payload@;
    if push_ascii(&mut payload, date, 11).is_err() {
        return Err(JpegError::AsciiCountMismatch);
    }
    proof {
        let secs = point.time.secs;
        let day = secs % 86400;
        let refs = gps_refs(*point);
        assert(refs == (lat_ref, lon_ref, alt_ref));
        assert(payload@ =~= exif_header() + spec_tiff(
            *point,
            day / 3600,
            (day / 60) % 60,
            (secs % 60) * 1000 + point.time.nanos / 1_000_000,
            encode_utf8(date_time@),
            encode_utf8(date@),
        ));
    }
    Ok(payload)
}

/// Builds the GPS EXIF APP1 payload (see [`spec_exif_payload`]).
pub fn build_exif_payload(point: &ExifGps) -> (r: Result<Vec<u8>, JpegError>)
    ensures
        match spec_exif_payload(*point) {
            Ok(s) => r matches Ok(v) && v@ == s,
            Err(e) => r == Err::<Vec<u8>, JpegError>(e),
        },
{
    let date_time = match format_utc(point.time, EXIF_DATE_TIME_FORMAT) {
        Some(s) => s,
        None => return Err(JpegError::InvalidTime),
    };
    let date = match format_utc(point.time, EXIF_DATE_FORMAT) {
        Some(s) => s,
        None => return Err(JpegError::InvalidTime),
    };
    build_exif_payload_with_dates(point, date_time.as_str(), date.as_str())
}

/// Decimal digits of `n`, most significant first, without leading zeros.
pub open spec fn decimal_digits(n: nat) -> Seq<u8>
    decreases n,
{
    if n < 10 {
        seq![(48 + n) as u8]
    } else {
        decimal_digits(n / 10) + seq![(48 + n % 10) as u8]
    }
}

/// Appends the decimal digits of `n`.
pub fn push_decimal(out: &mut Vec<u8>, n: u16)
    ensures
        final(out)@ == old(out)@ + decimal_digits(n as nat),
    decreases n,
{
    if n >= 10 {
        push_decimal(out, n / 10);
    }
    out.push(48 + (n % 10) as u8);
    assert(final(out)@ =~= old(out)@ + decimal_digits(n as nat));
}

/// Appends the UTF-8 bytes of `s`.
pub fn push_str(out: &mut Vec<u8>, s: &str)
    ensures
        final(out)@ == old(out)@ + s.spec_bytes(),
{
    let b = s.as_bytes();
    append_range(out, b, 0, b.len());
    assert(b@.subrange(0, b@.len() as int) =~= b@);
}

/// The GPano XMP packet up to the cropped-area width.
pub const GPANO_HEAD: &'static str = "<?xpacket begin=\"\" id=\"W5M0MpCehiHzreSzNTczkc9d\"?>\n<x:xmpmeta xmlns:x=\"adobe:ns:meta/\">\n  <rdf:RDF xmlns:rdf=\"http://www.w3.org/1999/02/22-rdf-syntax-ns#\">\n    <rdf:Description rdf:about=\"\"\n      xmlns:GPano=\"http://ns.google.com/photos/1.0/panorama/\"\n      GPano:ProjectionType=\"equirectangular\"\n      GPano:UsePanoramaViewer=\"True\"\n      GPano:CroppedAreaImageWidthPixels=\"";

/// Between the cropped-area width and height.
pub const GPANO_CROPPED_HEIGHT: &'static str = "\"\n      GPano:CroppedAreaImageHeightPixels=\"";

/// Between the cropped-area height and the full width.
pub const GPANO_FULL_WIDTH: &'static str = "\"\n      GPano:FullPanoWidthPixels=\"";

/// Between the full width and the full height.
pub const GPANO_FULL_HEIGHT: &'static str = "\"\n      GPano:FullPanoHeightPixels=\"";

/// The rest of the packet after the full height.
pub const GPANO_TAIL: &'static str = "\"\n      GPano:CroppedAreaLeftPixels=\"0\"\n      GPano:CroppedAreaTopPixels=\"0\"/>\n  </rdf:RDF>\n</x:xmpmeta>\n<?xpacket end=\"w\"?>";

/// The GPano XMP APP1 payload that marks an image of the given size as a
/// full equirectangular panorama: the XMP header and the packet with the
/// width and height in decimal.
pub open spec fn spec_gpano_xmp_payload(d: JpegDimensions) -> Seq<u8> {
    xmp_header() + GPANO_HEAD.spec_bytes() + decimal_digits(d.width as nat) + GPANO_CROPPED_HEIGHT.spec_bytes()
        + decimal_digits(d.height as nat) + GPANO_FULL_WIDTH.spec_bytes() + decimal_digits(d.width as nat)
        + GPANO_FULL_HEIGHT.spec_bytes() + decimal_digits(d.height as nat) + GPANO_TAIL.spec_bytes()
}

/// Builds the GPano XMP APP1 payload (see [`spec_gpano_xmp_payload`]).
pub fn build_gpano_xmp_payload(dimensions: JpegDimensions) -> (r: Vec<u8>)
    ensures
        r@ == spec_gpano_xmp_payload(dimensions),
{
    let mut payload = xmp_header_bytes();
    push_str(&mut payload, GPANO_HEAD);
    push_decimal(&mut payload, dimensions.width);
    push_str(&mut payload, GPANO_CROPPED_HEIGHT);
    push_decimal(&mut payload, dimensions.height);
    push_str(&mut payload, GPANO_FULL_WIDTH);
    push_decimal(&mut payload, dimensions.width);
    push_str(&mut payload, GPANO_FULL_HEIGHT);
    push_decimal(&mut payload, dimensions.height);
    push_str(&mut payload, GPANO_TAIL);
    assert(payload@ =~= spec_gpano_xmp_payload(dimensions));
    payload
}

/// The JPEG `jpeg` with its GPS EXIF and GPano XMP metadata replaced by
/// those of `g`: its size comes from its frame header, then the EXIF payload
/// is built, then the APP1 segments are rewritten.
pub open spec fn spec_geotag_jpeg(jpeg: Seq<u8>, g: ExifGps) -> Result<Seq<u8>, JpegError> {
    match spec_jpeg_dimensions(jpeg) {
        Err(e) => Err(e),
        Ok(d) => match spec_exif_payload(g) {
            Err(e) => Err(e),
            Ok(exif) => spec_replace_metadata_app1s(jpeg, exif, spec_gpano_xmp_payload(d)),
        },
    }
}

/// The bytes that geotagging writes back to a JPEG file (see
/// [`spec_geotag_jpeg`]).
pub fn geotag_jpeg(jpeg: &[u8], point: &ExifGps) -> (r: Result<Vec<u8>, JpegError>)
    ensures
        match spec_geotag_jpeg(jpeg@, *point) {
            Ok(s) => r matches Ok(v) && v@ == s,
            Err(e) => r == Err::<Vec<u8>, JpegError>(e),
        },
{
    let dimensions = jpeg_dimensions(jpeg)?;
    let exif = build_exif_payload(point)?;
    let xmp = build_gpano_xmp_payload(dimensions);
    replace_metadata_app1s(jpeg, exif.as_slice(), xmp.as_slice())
}

} // verus!
