//! GPX track files: the first time stamp, the track points, and the file
//! written for a flight.
use vstd::prelude::*;
use vstd::string::StringExecFns;
use crate::text::{trim, trim_white_space};
use crate::time::{
    chrono_rfc3339_utc, spec_nanos_since, chrono_nanos, is_before, nanos_since, parse_rfc3339_utc, ts_le, ts_lt,
    Timestamp,
};
use crate::time::{chrono_utc_format, chrono_utc_valid, exact_nanos_since, format_utc};
use crate::xml::{
    xml_indented_output, XmlOutView, XmlWriter,
    attributes_view, event_limit, spec_decoded, start_attributes, xml_attributes, xml_event_at, XmlEvent,
    XmlEventView, XmlReader,
};

verus! {

/// Why a GPX file could not be read.
#[derive(Debug)]
pub enum GpxError {
    /// The XML reader failed, with its message.
    Xml(String),
    /// An attribute of a track point is malformed or cannot be decoded.
    Attribute(String),
    /// Text inside an element is not UTF-8.
    Decode(String),
    /// The file ended inside an `ele` or `time` element.
    UnexpectedEofInElement,
    /// The file ended inside a `trkpt` element.
    UnexpectedEofInTrackPoint,
    /// The text of a `time` element is not an RFC 3339 time.
    InvalidTime { value: String, reason: String },
    /// The file has no `time` element.
    NoTime,
    /// The reader handed out more events than the file has bytes.
    ReaderStalled,
}

pub enum GpxErrorView {
    Xml { message: Seq<char> },
    Attribute { message: Seq<char> },
    Decode { message: Seq<char> },
    UnexpectedEofInElement,
    UnexpectedEofInTrackPoint,
    InvalidTime { value: Seq<char>, reason: Seq<char> },
    NoTime,
    ReaderStalled,
}

impl View for GpxError {
    type V = GpxErrorView;

    open spec fn view(&self) -> GpxErrorView {
        match self {
            GpxError::Xml(m) => GpxErrorView::Xml { message: m@ },
            GpxError::Attribute(m) => GpxErrorView::Attribute { message: m@ },
            GpxError::Decode(m) => GpxErrorView::Decode { message: m@ },
            GpxError::UnexpectedEofInElement => GpxErrorView::UnexpectedEofInElement,
            GpxError::UnexpectedEofInTrackPoint => GpxErrorView::UnexpectedEofInTrackPoint,
            GpxError::InvalidTime { value, reason } => GpxErrorView::InvalidTime {
                value: value@,
                reason: reason@,
            },
            GpxError::NoTime => GpxErrorView::NoTime,
            GpxError::ReaderStalled => GpxErrorView::ReaderStalled,
        }
    }
}

pub open spec fn tag_time() -> Seq<u8> {
    seq![0x74u8, 0x69u8, 0x6du8, 0x65u8]
}

pub open spec fn tag_ele() -> Seq<u8> {
    seq![0x65u8, 0x6cu8, 0x65u8]
}

pub open spec fn tag_trkpt() -> Seq<u8> {
    seq![0x74u8, 0x72u8, 0x6bu8, 0x70u8, 0x74u8]
}

pub open spec fn key_lat() -> Seq<u8> {
    seq![0x6cu8, 0x61u8, 0x74u8]
}

pub open spec fn key_lon() -> Seq<u8> {
    seq![0x6cu8, 0x6fu8, 0x6eu8]
}

fn tag_time_bytes() -> (r: Vec<u8>)
    ensures
        r@ == tag_time(),
{
    let r: Vec<u8> = vec![0x74u8, 0x69u8, 0x6du8, 0x65u8];
    assert(r@ =~= tag_time());
    r
}

fn tag_ele_bytes() -> (r: Vec<u8>)
    ensures
        r@ == tag_ele(),
{
    let r: Vec<u8> = vec![0x65u8, 0x6cu8, 0x65u8];
    assert(r@ =~= tag_ele());
    r
}

fn tag_trkpt_bytes() -> (r: Vec<u8>)
    ensures
        r@ == tag_trkpt(),
{
    let r: Vec<u8> = vec![0x74u8, 0x72u8, 0x6bu8, 0x70u8, 0x74u8];
    assert(r@ =~= tag_trkpt());
    r
}

fn key_lat_bytes() -> (r: Vec<u8>)
    ensures
        r@ == key_lat(),
{
    let r: Vec<u8> = vec![0x6cu8, 0x61u8, 0x74u8];
    assert(r@ =~= key_lat());
    r
}

fn key_lon_bytes() -> (r: Vec<u8>)
    ensures
        r@ == key_lon(),
{
    let r: Vec<u8> = vec![0x6cu8, 0x6fu8, 0x6eu8];
    assert(r@ =~= key_lon());
    r
}

/// Where the part of `s[..i]` after its last `:` starts: just past that
/// colon, or 0 when there is none.
pub open spec fn local_part_start(s: Seq<u8>, i: nat) -> nat
    decreases i,
{
    if i == 0 || i > s.len() {
        0
    } else if s[i - 1] == 0x3au8 {
        i
    } else {
        local_part_start(s, (i - 1) as nat)
    }
}

/// The part of a qualified name after its last `:`, the whole name when it
/// has none.
pub open spec fn local_part(name: Seq<u8>) -> Seq<u8> {
    name.subrange(local_part_start(name, name.len()) as int, name.len() as int)
}

/// Whether `name` is `local`, or its part after the last `:` is.
pub open spec fn spec_is_local_name(name: Seq<u8>, local: Seq<u8>) -> bool {
    name == local || local_part(name) == local
}


/// A name qualified by a namespace prefix counts as its local part: for
/// any prefix `p` and any `local` without a colon, `p:local` is `local`.
pub proof fn law_prefixed_name_is_local(prefix: Seq<u8>, local: Seq<u8>)
    requires
        !local.contains(0x3au8),
    ensures
        spec_is_local_name(prefix.push(0x3au8) + local, local),
{
    let name = prefix.push(0x3au8) + local;
    let p = prefix.len() + 1;
    assert forall|i: nat| p <= i <= name.len() implies local_part_start(name, i) == p by {
        lemma_local_part_start_above(name, p, i);
    }
    assert(name.subrange(p as int, name.len() as int) =~= local);
}

proof fn lemma_local_part_start_above(name: Seq<u8>, p: nat, i: nat)
    requires
        1 <= p <= i <= name.len(),
        name[p - 1] == 0x3au8,
        forall|j: int| p <= j < name.len() ==> name[j] != 0x3au8,
    ensures
        local_part_start(name, i) == p,
    decreases i,
{
    if i > p {
        lemma_local_part_start_above(name, p, (i - 1) as nat);
    }
}

/// Whether `s[start..]` is `t`.
fn suffix_equals(s: &[u8], start: usize, t: &[u8]) -> (r: bool)
    requires
        start <= s.len(),
    ensures
        r == (s@.subrange(start as int, s@.len() as int) == t@),
{
    if s.len() - start != t.len() {
        proof {
            assert(s@.subrange(start as int, s@.len() as int).len() != t@.len());
        }
        return false;
    }
    let mut i: usize = 0;
    while i < t.len()
        invariant
            start <= s.len(),
            s.len() - start == t.len(),
            i <= t.len(),
            forall|j: int| 0 <= j < i ==> s@[start + j] == t@[j],
        decreases t.len() - i,
    {
        if s[start + i] != t[i] {
            proof {
                assert(s@.subrange(start as int, s@.len() as int)[i as int] != t@[i as int]);
            }
            return false;
        }
        i = i + 1;
    }
    assert(s@.subrange(start as int, s@.len() as int) =~= t@);
    true
}

/// Whether the element or attribute name `name` is `local`, or has `local`
/// as its part after the last `:` (so that `gpx:time` counts as `time`).
pub fn is_local_name(name: &[u8], local: &[u8]) -> (r: bool)
    ensures
        r == spec_is_local_name(name@, local@),
{
    let whole = suffix_equals(name, 0, local);
    assert(name@.subrange(0, name@.len() as int) =~= name@);
    if whole {
        return true;
    }
    let mut i: usize = name.len();
    while i > 0 && name[i - 1] != 0x3au8
        invariant
            i <= name.len(),
            local_part_start(name@, name@.len()) == local_part_start(name@, i as nat),
        decreases i,
    {
        i = i - 1;
    }
    suffix_equals(name, i, local)
}

/// The text of an element whose start tag was event `k - 1`: the text and
/// CDATA from event `k` on, added to `acc`, up to the end tag whose local
/// name is `end`; with the index of the event after the last one read.
pub open spec fn spec_element_text(input: Seq<u8>, k: nat, end: Seq<u8>, acc: Seq<char>) -> (Result<Seq<char>, GpxErrorView>, nat)
    decreases event_limit(input) - k,
{
    if k >= event_limit(input) {
        (Err(GpxErrorView::ReaderStalled), k)
    } else {
        match xml_event_at(input, k) {
            XmlEventView::Text { bytes } => match spec_decoded(bytes) {
                Ok(t) => spec_element_text(input, k + 1, end, acc + t),
                Err(m) => (Err(GpxErrorView::Decode { message: m }), k + 1),
            },
            XmlEventView::CData { bytes } => match spec_decoded(bytes) {
                Ok(t) => spec_element_text(input, k + 1, end, acc + t),
                Err(m) => (Err(GpxErrorView::Decode { message: m }), k + 1),
            },
            XmlEventView::End { name } => if spec_is_local_name(name, end) {
                (Ok(acc), k + 1)
            } else {
                spec_element_text(input, k + 1, end, acc)
            },
            XmlEventView::Eof => (Err(GpxErrorView::UnexpectedEofInElement), k + 1),
            XmlEventView::Error { message } => (Err(GpxErrorView::Xml { message }), k + 1),
            _ => spec_element_text(input, k + 1, end, acc),
        }
    }
}

pub proof fn lemma_element_text_advances(input: Seq<u8>, k: nat, end: Seq<u8>, acc: Seq<char>)
    requires
        k < event_limit(input),
    ensures
        k < spec_element_text(input, k, end, acc).1 <= event_limit(input),
    decreases event_limit(input) - k,
{
    reveal_with_fuel(spec_element_text, 2);
    if k + 1 < event_limit(input) {
        match xml_event_at(input, k) {
            XmlEventView::Text { bytes } => match spec_decoded(bytes) {
                Ok(t) => lemma_element_text_advances(input, k + 1, end, acc + t),
                Err(_) => {},
            },
            XmlEventView::CData { bytes } => match spec_decoded(bytes) {
                Ok(t) => lemma_element_text_advances(input, k + 1, end, acc + t),
                Err(_) => {},
            },
            _ => lemma_element_text_advances(input, k + 1, end, acc),
        }
    }
}

/// What the text of a `time` element says: the instant of its trimmed text,
/// or why there is none.
pub open spec fn spec_parsed_time(value: Seq<char>) -> Result<Timestamp, GpxErrorView> {
    match chrono_rfc3339_utc(trim_white_space(value)) {
        Ok((secs, nanos)) => Ok(Timestamp { secs, nanos }),
        Err(reason) => Err(GpxErrorView::InvalidTime { value, reason }),
    }
}

/// The instant in the `time` element whose start tag was event `k - 1`.
pub open spec fn spec_time_element(input: Seq<u8>, k: nat) -> (Result<Timestamp, GpxErrorView>, nat) {
    let (r, n) = spec_element_text(input, k, tag_time(), Seq::empty());
    match r {
        Ok(v) => (spec_parsed_time(v), n),
        Err(e) => (Err(e), n),
    }
}

/// The first `time` element's instant, looking from event `k` on.
pub open spec fn spec_first_time_from(input: Seq<u8>, k: nat) -> Result<Timestamp, GpxErrorView>
    decreases event_limit(input) - k,
{
    if k >= event_limit(input) {
        Err(GpxErrorView::ReaderStalled)
    } else {
        match xml_event_at(input, k) {
            XmlEventView::Eof => Err(GpxErrorView::NoTime),
            XmlEventView::Error { message } => Err(GpxErrorView::Xml { message }),
            XmlEventView::Start { name, content } => if spec_is_local_name(name, tag_time()) {
                spec_time_element(input, k + 1).0
            } else {
                spec_first_time_from(input, k + 1)
            },
            _ => spec_first_time_from(input, k + 1),
        }
    }
}

/// The instant of the first `time` element (of any namespace) in a GPX
/// file, whose trimmed text is an RFC 3339 time.
pub open spec fn spec_first_gpx_time(input: Seq<u8>) -> Result<Timestamp, GpxErrorView> {
    spec_first_time_from(input, 0)
}

pub open spec fn error_result<T>(r: Result<T, GpxError>) -> Result<T, GpxErrorView> {
    match r {
        Ok(t) => Ok(t),
        Err(e) => Err(e@),
    }
}

pub open spec fn text_result(r: Result<String, GpxError>) -> Result<Seq<char>, GpxErrorView> {
    match r {
        Ok(t) => Ok(t@),
        Err(e) => Err(e@),
    }
}

/// Reads the text of the element whose start tag was the last event read,
/// up to its end tag named `end`.
fn read_element_text(reader: &mut XmlReader, end: &[u8]) -> (r: Result<String, GpxError>)
    requires
        old(reader).wf(),
    ensures
        final(reader).wf(),
        final(reader).input() == old(reader).input(),
        (text_result(r), final(reader).count()) == spec_element_text(
            old(reader).input(),
            old(reader).count(),
            end@,
            Seq::empty(),
        ),
{
    let ghost input = reader.input();
    let ghost k0 = reader.count();
    let mut text = String::new();
    loop
        invariant
            reader.wf(),
            reader.input() == input,
            input == old(reader).input(),
            k0 == old(reader).count(),
            spec_element_text(input, reader.count(), end@, text@) == spec_element_text(
                input,
                k0,
                end@,
                Seq::empty(),
            ),
        decreases event_limit(input) - reader.count(),
    {
        match reader.next() {
            None => return Err(GpxError::ReaderStalled),
            Some(XmlEvent::Text(bytes)) => match reader.decode(bytes.as_slice()) {
                Ok(t) => text.append(t.as_str()),
                Err(m) => return Err(GpxError::Decode(m)),
            },
            Some(XmlEvent::CData(bytes)) => match reader.decode(bytes.as_slice()) {
                Ok(t) => text.append(t.as_str()),
                Err(m) => return Err(GpxError::Decode(m)),
            },
            Some(XmlEvent::End(name)) => {
                if is_local_name(name.as_slice(), end) {
                    return Ok(text);
                }
            },
            Some(XmlEvent::Eof) => return Err(GpxError::UnexpectedEofInElement),
            Some(XmlEvent::Error(m)) => return Err(GpxError::Xml(m)),
            Some(_) => {},
        }
    }
}

/// Reads the instant of the `time` element whose start tag was the last
/// event read.
fn read_time_element(reader: &mut XmlReader) -> (r: Result<Timestamp, GpxError>)
    requires
        old(reader).wf(),
    ensures
        final(reader).wf(),
        final(reader).input() == old(reader).input(),
        (error_result(r), final(reader).count()) == spec_time_element(
            old(reader).input(),
            old(reader).count(),
        ),
{
    let end = tag_time_bytes();
    let value = read_element_text(reader, end.as_slice())?;
    let trimmed = trim(value.as_str());
    match parse_rfc3339_utc(trimmed.as_str()) {
        Ok(t) => Ok(t),
        Err(reason) => Err(GpxError::InvalidTime { value, reason }),
    }
}

/// The instant of the first `time` element of a GPX file: the first element
/// whose local name is `time`, wherever it stands, its text and CDATA
/// trimmed and read as an RFC 3339 time, taken to UTC.
pub fn first_gpx_time(input: &[u8]) -> (r: Result<Timestamp, GpxError>)
    ensures
        error_result(r) == spec_first_gpx_time(input@),
{
    let mut reader = XmlReader::new(input);
    let tag = tag_time_bytes();
    loop
        invariant
            reader.wf(),
            reader.input() == input@,
            tag@ == tag_time(),
            spec_first_time_from(input@, reader.count()) == spec_first_gpx_time(input@),
        decreases event_limit(input@) - reader.count(),
    {
        match reader.next() {
            None => return Err(GpxError::ReaderStalled),
            Some(XmlEvent::Eof) => return Err(GpxError::NoTime),
            Some(XmlEvent::Error(m)) => return Err(GpxError::Xml(m)),
            Some(XmlEvent::Start(start)) => {
                if is_local_name(start.name(), tag.as_slice()) {
                    return read_time_element(&mut reader);
                }
            },
            Some(_) => {},
        }
    }
}

/// A `trkpt` element of a GPX file as it was read: the values of its `lat`
/// and `lon` attributes and the trimmed text of its `ele` elements, each in
/// the order in which they stand (the last one counts, and every one must be
/// a number), and the instant of its last `time` element.
#[derive(Debug)]
pub struct GpxRecord {
    pub lat: Vec<String>,
    pub lon: Vec<String>,
    pub ele: Vec<String>,
    pub time: Option<Timestamp>,
}

pub struct GpxRecordView {
    pub lat: Seq<Seq<char>>,
    pub lon: Seq<Seq<char>>,
    pub ele: Seq<Seq<char>>,
    pub time: Option<Timestamp>,
}

pub open spec fn strings_view(v: Seq<String>) -> Seq<Seq<char>> {
    v.map_values(|s: String| s@)
}

impl View for GpxRecord {
    type V = GpxRecordView;

    open spec fn view(&self) -> GpxRecordView {
        GpxRecordView {
            lat: strings_view(self.lat@),
            lon: strings_view(self.lon@),
            ele: strings_view(self.ele@),
            time: self.time,
        }
    }
}

pub open spec fn records_view(v: Seq<GpxRecord>) -> Seq<GpxRecordView> {
    v.map_values(|r: GpxRecord| r@)
}

/// The values of the attributes whose key is `key`, in order.
pub open spec fn attribute_values(attrs: Seq<(Seq<u8>, Seq<char>)>, key: Seq<u8>) -> Seq<Seq<char>>
    decreases attrs.len(),
{
    if attrs.len() == 0 {
        Seq::empty()
    } else {
        let rest = attribute_values(attrs.drop_last(), key);
        if attrs.last().0 == key {
            rest.push(attrs.last().1)
        } else {
            rest
        }
    }
}

/// The `ele` texts and the `time` of the `trkpt` element read from event `k`
/// on, added to `eles` and replacing `time`, up to the end tag of the
/// `trkpt`; with the index of the event after the last one read.
pub open spec fn spec_track_point_body(
    input: Seq<u8>,
    k: nat,
    eles: Seq<Seq<char>>,
    time: Option<Timestamp>,
) -> (Result<(Seq<Seq<char>>, Option<Timestamp>), GpxErrorView>, nat)
    decreases event_limit(input) - k,
{
    if k >= event_limit(input) {
        (Err(GpxErrorView::ReaderStalled), k)
    } else {
        match xml_event_at(input, k) {
            XmlEventView::Start { name, content } => if spec_is_local_name(name, tag_ele()) {
                proof {
                    if k + 1 < event_limit(input) {
                        lemma_element_text_advances(input, k + 1, tag_ele(), Seq::empty());
                    }
                }
                let (r, n) = spec_element_text(input, k + 1, tag_ele(), Seq::empty());
                match r {
                    Ok(v) => spec_track_point_body(input, n, eles.push(trim_white_space(v)), time),
                    Err(e) => (Err(e), n),
                }
            } else if spec_is_local_name(name, tag_time()) {
                proof {
                    if k + 1 < event_limit(input) {
                        lemma_element_text_advances(input, k + 1, tag_time(), Seq::empty());
                    }
                }
                let (r, n) = spec_time_element(input, k + 1);
                match r {
                    Ok(t) => spec_track_point_body(input, n, eles, Some(t)),
                    Err(e) => (Err(e), n),
                }
            } else {
                spec_track_point_body(input, k + 1, eles, time)
            },
            XmlEventView::End { name } => if spec_is_local_name(name, tag_trkpt()) {
                (Ok((eles, time)), k + 1)
            } else {
                spec_track_point_body(input, k + 1, eles, time)
            },
            XmlEventView::Eof => (Err(GpxErrorView::UnexpectedEofInTrackPoint), k + 1),
            XmlEventView::Error { message } => (Err(GpxErrorView::Xml { message }), k + 1),
            _ => spec_track_point_body(input, k + 1, eles, time),
        }
    }
}

pub proof fn lemma_track_point_body_advances(
    input: Seq<u8>,
    k: nat,
    eles: Seq<Seq<char>>,
    time: Option<Timestamp>,
)
    requires
        k < event_limit(input),
    ensures
        k < spec_track_point_body(input, k, eles, time).1 <= event_limit(input),
    decreases event_limit(input) - k,
{
    reveal_with_fuel(spec_track_point_body, 2);
    if k + 1 < event_limit(input) {
        lemma_element_text_advances(input, k + 1, tag_ele(), Seq::empty());
        lemma_element_text_advances(input, k + 1, tag_time(), Seq::empty());
        let (r1, n1) = spec_element_text(input, k + 1, tag_ele(), Seq::empty());
        let (r2, n2) = spec_time_element(input, k + 1);
        match xml_event_at(input, k) {
            XmlEventView::Start { name, content } => if spec_is_local_name(name, tag_ele()) {
                if let Ok(v) = r1 {
                    if n1 < event_limit(input) {
                        lemma_track_point_body_advances(input, n1, eles.push(trim_white_space(v)), time);
                    }
                }
            } else if spec_is_local_name(name, tag_time()) {
                if let Ok(t) = r2 {
                    if n2 < event_limit(input) {
                        lemma_track_point_body_advances(input, n2, eles, Some(t));
                    }
                }
            } else {
                lemma_track_point_body_advances(input, k + 1, eles, time);
            },
            _ => lemma_track_point_body_advances(input, k + 1, eles, time),
        }
    }
}

/// The records of the `trkpt` elements read from event `k` on, added to
/// `acc`, up to the end of the file.
pub open spec fn spec_records_from(input: Seq<u8>, k: nat, acc: Seq<GpxRecordView>) -> Result<Seq<GpxRecordView>, GpxErrorView>
    decreases event_limit(input) - k,
{
    if k >= event_limit(input) {
        Err(GpxErrorView::ReaderStalled)
    } else {
        match xml_event_at(input, k) {
            XmlEventView::Eof => Ok(acc),
            XmlEventView::Error { message } => Err(GpxErrorView::Xml { message }),
            XmlEventView::Start { name, content } => if spec_is_local_name(name, tag_trkpt()) {
                match xml_attributes(content) {
                    Err(m) => Err(GpxErrorView::Attribute { message: m }),
                    Ok(attrs) => {
                        proof {
                            if k + 1 < event_limit(input) {
                                lemma_track_point_body_advances(input, k + 1, Seq::empty(), None);
                            }
                        }
                        let (r, n) = spec_track_point_body(input, k + 1, Seq::empty(), None);
                        match r {
                            Ok((eles, time)) => spec_records_from(
                                input,
                                n,
                                acc.push(
                                    GpxRecordView {
                                        lat: attribute_values(attrs, key_lat()),
                                        lon: attribute_values(attrs, key_lon()),
                                        ele: eles,
                                        time,
                                    },
                                ),
                            ),
                            Err(e) => Err(e),
                        }
                    },
                }
            } else {
                spec_records_from(input, k + 1, acc)
            },
            _ => spec_records_from(input, k + 1, acc),
        }
    }
}

/// The `trkpt` elements of a GPX file (of any namespace), in file order.
pub open spec fn spec_read_gpx_records(input: Seq<u8>) -> Result<Seq<GpxRecordView>, GpxErrorView> {
    spec_records_from(input, 0, Seq::empty())
}

/// The values of the attributes whose key is `key`.
fn values_for_key(attrs: &Vec<(Vec<u8>, String)>, key: &[u8]) -> (r: Vec<String>)
    ensures
        strings_view(r@) == attribute_values(attributes_view(*attrs), key@),
{
    let ghost av = attributes_view(*attrs);
    let mut r: Vec<String> = Vec::new();
    let mut i: usize = 0;
    while i < attrs.len()
        invariant
            i <= attrs.len(),
            av == attributes_view(*attrs),
            strings_view(r@) == attribute_values(av.subrange(0, i as int), key@),
        decreases attrs.len() - i,
    {
        assert(av.subrange(0, i + 1).drop_last() =~= av.subrange(0, i as int));
        let is_key = suffix_equals(attrs[i].0.as_slice(), 0, key);
        assert(attrs[i as int].0@.subrange(0, attrs[i as int].0@.len() as int) =~= attrs[i as int].0@);
        if is_key {
            r.push(attrs[i].1.clone());
            assert(strings_view(r@) =~= attribute_values(av.subrange(0, i as int), key@).push(av[i as int].1));
        }
        i = i + 1;
    }
    assert(av.subrange(0, attrs.len() as int) =~= av);
    r
}

pub open spec fn body_result(r: Result<(Vec<String>, Option<Timestamp>), GpxError>) -> Result<(Seq<Seq<char>>, Option<Timestamp>), GpxErrorView> {
    match r {
        Ok((e, t)) => Ok((strings_view(e@), t)),
        Err(e) => Err(e@),
    }
}

/// Reads the `ele` texts and the `time` of the `trkpt` element whose start
/// tag was the last event read, up to its end tag.
fn read_track_point_body(reader: &mut XmlReader) -> (r: Result<(Vec<String>, Option<Timestamp>), GpxError>)
    requires
        old(reader).wf(),
    ensures
        final(reader).wf(),
        final(reader).input() == old(reader).input(),
        (body_result(r), final(reader).count()) == spec_track_point_body(
            old(reader).input(),
            old(reader).count(),
            Seq::empty(),
            None,
        ),
{
    let ghost input = reader.input();
    let ghost k0 = reader.count();
    let ele_tag = tag_ele_bytes();
    let time_tag = tag_time_bytes();
    let trkpt_tag = tag_trkpt_bytes();
    let mut eles: Vec<String> = Vec::new();
    let mut time: Option<Timestamp> = None;
    assert(strings_view(eles@) =~= Seq::<Seq<char>>::empty());
    loop
        invariant
            reader.wf(),
            reader.input() == input,
            input == old(reader).input(),
            k0 == old(reader).count(),
            ele_tag@ == tag_ele(),
            time_tag@ == tag_time(),
            trkpt_tag@ == tag_trkpt(),
            spec_track_point_body(input, reader.count(), strings_view(eles@), time)
                == spec_track_point_body(input, k0, Seq::empty(), None),
        decreases event_limit(input) - reader.count(),
    {
        let ghost k = reader.count();
        match reader.next() {
            None => return Err(GpxError::ReaderStalled),
            Some(XmlEvent::Start(start)) => {
                if is_local_name(start.name(), ele_tag.as_slice()) {
                    let value = read_element_text(reader, ele_tag.as_slice())?;
                    let trimmed = trim(value.as_str());
                    proof {
                        if k + 1 < event_limit(input) {
                            lemma_element_text_advances(input, k + 1, tag_ele(), Seq::empty());
                        }
                    }
                    let ghost before = eles@;
                    eles.push(trimmed);
                    assert(strings_view(eles@) =~= strings_view(before).push(trim_white_space(value@)));
                } else if is_local_name(start.name(), time_tag.as_slice()) {
                    let t = read_time_element(reader)?;
                    proof {
                        if k + 1 < event_limit(input) {
                            lemma_element_text_advances(input, k + 1, tag_time(), Seq::empty());
                        }
                    }
                    time = Some(t);
                }
            },
            Some(XmlEvent::End(name)) => {
                if is_local_name(name.as_slice(), trkpt_tag.as_slice()) {
                    return Ok((eles, time));
                }
            },
            Some(XmlEvent::Eof) => return Err(GpxError::UnexpectedEofInTrackPoint),
            Some(XmlEvent::Error(m)) => return Err(GpxError::Xml(m)),
            Some(_) => {},
        }
    }
}

pub open spec fn records_result(r: Result<Vec<GpxRecord>, GpxError>) -> Result<Seq<GpxRecordView>, GpxErrorView> {
    match r {
        Ok(v) => Ok(records_view(v@)),
        Err(e) => Err(e@),
    }
}

/// The `trkpt` elements of a GPX file, in file order: for each, the values
/// of its `lat` and `lon` attributes, the trimmed text of its `ele`
/// elements and the instant of its last `time` element. The numbers are
/// left as text for the caller to read.
pub fn read_gpx_records(input: &[u8]) -> (r: Result<Vec<GpxRecord>, GpxError>)
    ensures
        records_result(r) == spec_read_gpx_records(input@),
{
    let mut reader = XmlReader::new(input);
    let trkpt_tag = tag_trkpt_bytes();
    let lat_key = key_lat_bytes();
    let lon_key = key_lon_bytes();
    let mut records: Vec<GpxRecord> = Vec::new();
    assert(records_view(records@) =~= Seq::<GpxRecordView>::empty());
    loop
        invariant
            reader.wf(),
            reader.input() == input@,
            trkpt_tag@ == tag_trkpt(),
            lat_key@ == key_lat(),
            lon_key@ == key_lon(),
            spec_records_from(input@, reader.count(), records_view(records@))
                == spec_read_gpx_records(input@),
        decreases event_limit(input@) - reader.count(),
    {
        let ghost k = reader.count();
        match reader.next() {
            None => return Err(GpxError::ReaderStalled),
            Some(XmlEvent::Eof) => return Ok(records),
            Some(XmlEvent::Error(m)) => return Err(GpxError::Xml(m)),
            Some(XmlEvent::Start(start)) => {
                if is_local_name(start.name(), trkpt_tag.as_slice()) {
                    let attrs = match start_attributes(&start) {
                        Ok(a) => a,
                        Err(m) => return Err(GpxError::Attribute(m)),
                    };
                    let lat = values_for_key(&attrs, lat_key.as_slice());
                    let lon = values_for_key(&attrs, lon_key.as_slice());
                    let (ele, time) = read_track_point_body(&mut reader)?;
                    proof {
                        if k + 1 < event_limit(input@) {
                            lemma_track_point_body_advances(input@, k + 1, Seq::empty(), None);
                        }
                    }
                    let record = GpxRecord { lat, lon, ele, time };
                    let ghost before = records@;
                    records.push(record);
                    assert(records_view(records@) =~= records_view(before).push(record@));
                }
            },
            Some(_) => {},
        }
    }
}

/// Whether a record makes a track point: it has a latitude, a longitude and
/// a time.
pub open spec fn is_complete(r: GpxRecordView) -> bool {
    r.lat.len() > 0 && r.lon.len() > 0 && r.time is Some
}

/// Whether record `i` comes before record `j` among the track points: by
/// time, and in file order where the times are equal.
pub open spec fn point_before(recs: Seq<GpxRecordView>, i: int, j: int) -> bool {
    let a = recs[i].time.unwrap();
    let b = recs[j].time.unwrap();
    ts_lt(a, b) || (a == b && i < j)
}

/// Whether `order` lists exactly the complete records of `recs`, sorted by
/// time, records with equal times in file order.
pub open spec fn is_point_order(recs: Seq<GpxRecordView>, order: Seq<usize>) -> bool {
    &&& forall|a: int, b: int|
        0 <= a < b < order.len() ==> #[trigger] point_before(recs, order[a] as int, order[b] as int)
    &&& forall|i: int| #![trigger order.contains(i as usize)]
        0 <= i < recs.len() ==> (order.contains(i as usize) <==> is_complete(recs[i]))
    &&& forall|a: int| 0 <= a < order.len() ==> order[a] < recs.len()
}

fn record_is_complete(r: &GpxRecord) -> (b: bool)
    ensures
        b == is_complete(r@),
{
    r.lat.len() > 0 && r.lon.len() > 0 && r.time.is_some()
}

/// The track points of a GPX file in the order in which they are used:
/// the indices of the records with a latitude, a longitude and a time,
/// sorted by time, a stable sort that keeps file order among equal times.
pub fn gpx_point_order(records: &Vec<GpxRecord>) -> (order: Vec<usize>)
    ensures
        is_point_order(records_view(records@), order@),
{
    let ghost recs = records_view(records@);
    let mut order: Vec<usize> = Vec::new();
    let mut i: usize = 0;
    while i < records.len()
        invariant
            i <= records.len(),
            recs == records_view(records@),
            recs.len() == records.len(),
            forall|a: int, b: int|
                0 <= a < b < order@.len() ==> #[trigger] point_before(recs, order@[a] as int, order@[b] as int),
            forall|x: int| #![trigger order@.contains(x as usize)]
                0 <= x < recs.len() ==> (order@.contains(x as usize) <==> (x < i && is_complete(recs[x]))),
            forall|a: int| 0 <= a < order@.len() ==> order@[a] < i,
            forall|a: int| 0 <= a < order@.len() ==> is_complete(#[trigger] recs[order@[a] as int]),
        decreases records.len() - i,
    {
        assert(recs[i as int] == records@[i as int]@);
        if record_is_complete(&records[i]) {
            let t = records[i].time.unwrap();
            let mut j: usize = 0;
            while j < order.len()
                invariant
                    j <= order@.len(),
                    i < records.len(),
                    recs == records_view(records@),
                    recs.len() == records.len(),
                    t == recs[i as int].time.unwrap(),
                    forall|a: int| 0 <= a < order@.len() ==> order@[a] < i,
                    forall|a: int| 0 <= a < order@.len() ==> is_complete(#[trigger] recs[order@[a] as int]),
                    forall|a: int| 0 <= a < j ==> ts_le(#[trigger] recs[order@[a] as int].time.unwrap(), t),
                ensures
                    j <= order@.len(),
                    forall|a: int| 0 <= a < j ==> ts_le(#[trigger] recs[order@[a] as int].time.unwrap(), t),
                    j < order@.len() ==> ts_lt(t, recs[order@[j as int] as int].time.unwrap()),
                decreases order@.len() - j,
            {
                let o = order[j];
                assert(recs[o as int] == records@[o as int]@);
                assert(is_complete(recs[order@[j as int] as int]));
                if is_before(t, records[o].time.unwrap()) {
                    break;
                }
                j = j + 1;
            }
            let ghost before = order@;
            order.insert(j, i);
            assert(order@ == before.insert(j as int, i));
            assert forall|a: int, b: int| 0 <= a < b < order@.len() implies #[trigger] point_before(
                recs,
                order@[a] as int,
                order@[b] as int,
            ) by {
                if b < j {
                    assert(point_before(recs, before[a] as int, before[b] as int));
                } else if b == j {
                    assert(order@[b] == i);
                    assert(order@[a] == before[a]);
                    assert(ts_le(recs[before[a] as int].time.unwrap(), t));
                } else if a == j {
                    assert(order@[b] == before[b - 1]);
                    if b - 1 > j {
                        assert(point_before(recs, before[j as int] as int, before[b - 1] as int));
                    }
                } else if a < j {
                    assert(point_before(recs, before[a] as int, before[b - 1] as int));
                } else {
                    assert(point_before(recs, before[a - 1] as int, before[b - 1] as int));
                }
            }
            assert forall|x: int| #![trigger order@.contains(x as usize)]
                0 <= x < recs.len() implies (order@.contains(x as usize) <==> (x < i + 1 && is_complete(recs[x]))) by {
                if x == i {
                    assert(order@[j as int] == i);
                } else if order@.contains(x as usize) {
                    let a = choose|a: int| 0 <= a < order@.len() && order@[a] == x as usize;
                    if a < j {
                        assert(before[a] == x);
                    } else {
                        assert(before[a - 1] == x);
                    }
                    assert(before.contains(x as usize));
                } else if x < i && is_complete(recs[x]) {
                    assert(before.contains(x as usize));
                    let a = choose|a: int| 0 <= a < before.len() && before[a] == x as usize;
                    if a < j {
                        assert(order@[a] == x);
                    } else {
                        assert(order@[a + 1] == x);
                    }
                }
            }
            assert forall|a: int| 0 <= a < order@.len() implies is_complete(#[trigger] recs[order@[a] as int]) by {
                if a < j {
                    assert(order@[a] == before[a]);
                } else if a > j {
                    assert(order@[a] == before[a - 1]);
                }
            }
        }
        i = i + 1;
    }
    order
}

/// The track points taken in [`gpx_point_order`] have their times in
/// order, as [`interpolate_gps_point`] needs them.
pub proof fn law_point_order_sorts_times(recs: Seq<GpxRecordView>, order: Seq<usize>)
    requires
        is_point_order(recs, order),
    ensures
        sorted_times(order.map_values(|i: usize| recs[i as int].time.unwrap())),
{
    let times = order.map_values(|i: usize| recs[i as int].time.unwrap());
    assert forall|a: int, b: int| 0 <= a <= b < times.len() implies ts_le(#[trigger] times[a], #[trigger] times[b]) by {
        if a < b {
            assert(point_before(recs, order[a] as int, order[b] as int));
        }
    }
}

/// The track points of a GPX file: every `trkpt` record in file order, and
/// the order in which the complete ones are used.
#[derive(Debug)]
pub struct GpxTrack {
    pub records: Vec<GpxRecord>,
    pub order: Vec<usize>,
}

/// Reads the track points of a GPX file: the records of its `trkpt`
/// elements (see [`read_gpx_records`]) and, among them, the complete ones in
/// time order (see [`gpx_point_order`]).
pub fn read_gpx_points(input: &[u8]) -> (r: Result<GpxTrack, GpxError>)
    ensures
        match spec_read_gpx_records(input@) {
            Ok(recs) => r matches Ok(t) && records_view(t.records@) == recs && is_point_order(recs, t.order@),
            Err(e) => r matches Err(e2) && e2@ == e,
        },
{
    let records = read_gpx_records(input)?;
    let order = gpx_point_order(&records);
    Ok(GpxTrack { records, order })
}

/// Where a time falls among the track points: at one of them, or between
/// two neighbours, `elapsed_ns` after the first of `total_ns` between them.
#[derive(Clone, Copy, Debug, PartialEq, Eq, Structural)]
pub enum Interpolation {
    At(usize),
    Between { before: usize, after: usize, elapsed_ns: i64, total_ns: i64 },
}

/// Whether the instants are in order, equal ones allowed.
pub open spec fn sorted_times(times: Seq<Timestamp>) -> bool {
    forall|a: int, b: int| 0 <= a <= b < times.len() ==> ts_le(#[trigger] times[a], #[trigger] times[b])
}

/// Binary search of the sorted instants `times` for `t`: `Ok` with the first
/// index that holds `t`, or `Err` with the index where `t` would go to keep
/// the order.
fn search_times(times: &[Timestamp], t: Timestamp) -> (r: Result<usize, usize>)
    requires
        sorted_times(times@),
    ensures
        match r {
            Ok(i) => {
                &&& i < times@.len()
                &&& times@[i as int] == t
                &&& forall|j: int| 0 <= j < i ==> ts_lt(#[trigger] times@[j], t)
            },
            Err(i) => {
                &&& i <= times@.len()
                &&& forall|j: int| 0 <= j < i ==> ts_lt(#[trigger] times@[j], t)
                &&& forall|j: int| i <= j < times@.len() ==> ts_lt(t, #[trigger] times@[j])
            },
        },
{
    let mut lo: usize = 0;
    let mut hi: usize = times.len();
    while lo < hi
        invariant
            lo <= hi <= times@.len(),
            sorted_times(times@),
            forall|j: int| 0 <= j < lo ==> ts_lt(#[trigger] times@[j], t),
            forall|j: int| hi <= j < times@.len() ==> ts_le(t, #[trigger] times@[j]),
        decreases hi - lo,
    {
        let mid = lo + (hi - lo) / 2;
        if is_before(times[mid], t) {
            assert forall|j: int| 0 <= j <= mid implies ts_lt(#[trigger] times@[j], t) by {
                assert(ts_le(times@[j], times@[mid as int]));
            }
            lo = mid + 1;
        } else {
            assert forall|j: int| mid <= j < times@.len() implies ts_le(t, #[trigger] times@[j]) by {
                assert(ts_le(times@[mid as int], times@[j]));
            }
            hi = mid;
        }
    }
    if lo < times.len() && times[lo] == t {
        Ok(lo)
    } else {
        assert forall|j: int| lo <= j < times@.len() implies ts_lt(t, #[trigger] times@[j]) by {
            assert(ts_le(times@[lo as int], times@[j]));
            assert(times@[lo as int] != t);
        }
        Err(lo)
    }
}

/// How a time strictly between the points `i - 1` and `i` is interpolated:
/// at point `i - 1` where chrono counts no nanoseconds between them, and
/// `None` where a count of nanoseconds does not fit in an `i64`.
pub open spec fn spec_between(times: Seq<Timestamp>, time: Timestamp, i: int) -> Option<Interpolation> {
    let b = times[i - 1];
    let a = times[i];
    match spec_nanos_since(a, b) {
        None => None,
        Some(total) => if total == 0 {
            Some(Interpolation::At((i - 1) as usize))
        } else {
            match spec_nanos_since(time, b) {
                None => None,
                Some(elapsed) => Some(
                    Interpolation::Between {
                        before: (i - 1) as usize,
                        after: i as usize,
                        elapsed_ns: elapsed,
                        total_ns: total,
                    },
                ),
            }
        },
    }
}

/// Whether `time` falls strictly between the points `i - 1` and `i`, all
/// points before `i` being earlier and all from `i` on later.
pub open spec fn splits_at(times: Seq<Timestamp>, time: Timestamp, i: int) -> bool {
    &&& 0 < i < times.len()
    &&& forall|j: int| 0 <= j < i ==> ts_lt(#[trigger] times[j], time)
    &&& forall|j: int| i <= j < times.len() ==> ts_lt(time, #[trigger] times[j])
}

/// Whether `t` is an instant that chrono can represent, outside a leap
/// second.
pub open spec fn non_leap_valid(t: Timestamp) -> bool {
    chrono_utc_valid(t.secs, t.nanos) && t.nanos < 1_000_000_000
}

/// Whether `time` lies within the track, from its first point to its last.
pub open spec fn within_track(times: Seq<Timestamp>, time: Timestamp) -> bool {
    times.len() > 0 && ts_le(times[0], time) && ts_le(time, times.last())
}

/// Whether `r` tells where the track of the points' instants `times` is at
/// `time`: nowhere outside the track; at the first point whose time is
/// `time` where there is one; otherwise as [`spec_between`] the two points
/// around it.
pub open spec fn locates(times: Seq<Timestamp>, time: Timestamp, r: Option<Interpolation>) -> bool {
    &&& !within_track(times, time) ==> r is None
    &&& within_track(times, time) && (exists|i: int| 0 <= i < times.len() && times[i] == time)
        ==> (r matches Some(Interpolation::At(i)) && i < times.len() && times[i as int] == time
        && forall|j: int| 0 <= j < i ==> #[trigger] times[j] != time)
    &&& forall|i: int| #[trigger] splits_at(times, time, i) ==> r == spec_between(times, time, i)
}

/// Where the track is at `time`, for the points' instants `times` in order:
/// `None` outside the track; at the first point whose time is `time` where there is
/// one; otherwise between the two points around it.
pub fn interpolate_gps_point(times: &Vec<Timestamp>, time: Timestamp) -> (r: Option<Interpolation>)
    requires
        sorted_times(times@),
    ensures
        locates(times@, time, r),
        r matches Some(Interpolation::Between { before, after, elapsed_ns, total_ns }) ==> {
            &&& after == before + 1
            &&& after < times@.len()
            &&& ts_lt(times@[before as int], time)
            &&& ts_lt(time, times@[after as int])
            &&& elapsed_ns == chrono_nanos(time, times@[before as int])
            &&& total_ns == chrono_nanos(times@[after as int], times@[before as int])
            &&& (non_leap_valid(times@[before as int]) && non_leap_valid(times@[after as int])
                && non_leap_valid(time)) ==> {
                &&& elapsed_ns == exact_nanos_since(time, times@[before as int])
                &&& total_ns == exact_nanos_since(times@[after as int], times@[before as int])
                &&& 0 < elapsed_ns < total_ns
            }
        },
{
    if times.len() == 0 {
        return None;
    }
    let last = times.len() - 1;
    if is_before(time, times[0]) || is_before(times[last], time) {
        return None;
    }
    match search_times(times.as_slice(), time) {
        Ok(i) => Some(Interpolation::At(i)),
        Err(i) => {
            if i == 0 || i >= times.len() {
                return None;
            }
            proof {
                assert forall|k: int| 0 <= k < times@.len() implies times@[k] != time by {
                    if k < i {
                        assert(ts_lt(times@[k], time));
                    } else {
                        assert(ts_lt(time, times@[k]));
                    }
                }
                assert forall|k: int| #[trigger] splits_at(times@, time, k) implies k == i by {
                    if k < i {
                        assert(ts_lt(times@[k], time));
                        assert(ts_lt(time, times@[k]));
                    } else if k > i {
                        assert(ts_lt(times@[i as int], time));
                        assert(ts_lt(time, times@[i as int]));
                    }
                }
            }
            let before = times[i - 1];
            let after = times[i];
            let total = match nanos_since(after, before) {
                Some(n) => n,
                None => return None,
            };
            if total == 0 {
                return Some(Interpolation::At(i - 1));
            }
            let elapsed = match nanos_since(time, before) {
                Some(n) => n,
                None => return None,
            };
            proof {
                assert(ts_lt(before, time));
                assert(ts_lt(time, after));
            }
            Some(Interpolation::Between { before: i - 1, after: i, elapsed_ns: elapsed, total_ns: total })
        },
    }
}

/// Whether chrono holds the points' instants and each gap between
/// neighbouring points, counted in nanoseconds, leaves two seconds of room
/// in an `i64` (room for the leap seconds that chrono counts).
pub open spec fn gaps_fit(times: Seq<Timestamp>) -> bool {
    &&& forall|i: int| 0 <= i < times.len() ==> chrono_utc_valid(#[trigger] times[i].secs, times[i].nanos)
    &&& forall|i: int|
        0 < i < times.len() ==> exact_nanos_since(#[trigger] times[i], times[i - 1]) + 2_000_000_000
            <= i64::MAX
}

proof fn lemma_split_exists(times: Seq<Timestamp>, time: Timestamp, k: int)
    requires
        sorted_times(times),
        0 <= k < times.len(),
        ts_lt(times[0], time),
        ts_lt(time, times.last()),
        forall|j: int| 0 <= j < k ==> ts_lt(#[trigger] times[j], time),
        forall|j: int| 0 <= j < times.len() ==> #[trigger] times[j] != time,
    ensures
        exists|i: int| #[trigger] splits_at(times, time, i),
    decreases times.len() - k,
{
    if ts_lt(time, times[k]) {
        assert(k > 0);
        assert forall|j: int| k <= j < times.len() implies ts_lt(time, #[trigger] times[j]) by {
            assert(ts_le(times[k], times[j]));
        }
        assert(splits_at(times, time, k));
    } else {
        assert(times[k] != time);
        assert(k + 1 < times.len());
        lemma_split_exists(times, time, k + 1);
    }
}

/// Interpolation gives no place exactly outside the track: for points in
/// time order whose instants and gaps chrono can count, an instant that
/// chrono holds gets `None` if and only if it lies before the first point or
/// after the last.
pub proof fn law_interpolation_none_exactly_outside(times: Seq<Timestamp>, time: Timestamp, r: Option<Interpolation>)
    requires
        sorted_times(times),
        gaps_fit(times),
        chrono_utc_valid(time.secs, time.nanos),
        locates(times, time, r),
    ensures
        r is None <==> !within_track(times, time),
{
    if within_track(times, time) {
        if exists|i: int| 0 <= i < times.len() && times[i] == time {
            assert(r is Some);
        } else {
            assert(ts_lt(times[0], time));
            assert(ts_lt(time, times.last()));
            lemma_split_exists(times, time, 0);
            let i = choose|i: int| #[trigger] splits_at(times, time, i);
            let b = times[i - 1];
            let a = times[i];
            assert(chrono_utc_valid(b.secs, b.nanos));
            assert(chrono_utc_valid(a.secs, a.nanos));
            assert(ts_lt(b, time));
            assert(ts_lt(time, a));
            assert(exact_nanos_since(a, b) + 2_000_000_000 <= i64::MAX);
            assert(i64::MIN <= chrono_nanos(a, b) <= i64::MAX);
            assert(i64::MIN <= chrono_nanos(time, b) <= i64::MAX);
            assert(spec_between(times, time, i) is Some);
        }
    }
}

/// A track point to write, its numbers already written out as text.
#[derive(Debug)]
pub struct GpxPoint {
    pub lat: String,
    pub lon: String,
    pub ele: String,
    pub time: Timestamp,
}

pub struct GpxPointView {
    pub lat: Seq<char>,
    pub lon: Seq<char>,
    pub ele: Seq<char>,
    pub time: Timestamp,
}

impl View for GpxPoint {
    type V = GpxPointView;

    open spec fn view(&self) -> GpxPointView {
        GpxPointView { lat: self.lat@, lon: self.lon@, ele: self.ele@, time: self.time }
    }
}

pub open spec fn points_view(v: Seq<GpxPoint>) -> Seq<GpxPointView> {
    v.map_values(|p: GpxPoint| p@)
}

/// Why a GPX file could not be written.
#[derive(Debug)]
pub enum GpxWriteError {
    /// The time of the point at this index is not one that chrono can
    /// represent.
    InvalidTime { index: usize },
    /// The XML writer failed, with its message.
    Write(String),
}

/// How the time of a track point is written: UTC with milliseconds.
pub open spec fn gpx_time_format() -> Seq<char> {
    GPX_TIME_FORMAT@
}

/// chrono format of the time of a track point: UTC with milliseconds.
pub const GPX_TIME_FORMAT: &'static str = "%Y-%m-%dT%H:%M:%S%.3fZ";

/// The attributes of the `gpx` root element.
pub open spec fn gpx_root_attrs() -> Seq<(Seq<char>, Seq<char>)> {
    seq![
        ("version"@, "1.1"@),
        ("creator"@, "osv2gpx"@),
        ("xmlns"@, "http://www.topografix.com/GPX/1/1"@),
        ("xmlns:xsi"@, "http://www.w3.org/2001/XMLSchema-instance"@),
        ("xsi:schemaLocation"@, "http://www.topografix.com/GPX/1/1 http://www.topografix.com/GPX/1/1/gpx.xsd"@),
    ]
}

/// An element holding only text.
pub open spec fn text_element(name: Seq<char>, text: Seq<char>) -> Seq<XmlOutView> {
    seq![
        XmlOutView::Start { name, attrs: Seq::empty() },
        XmlOutView::Text { text },
        XmlOutView::End { name },
    ]
}

/// The `trkpt` element of a point: its position as attributes, its
/// elevation, and its time in [`gpx_time_format`].
pub open spec fn point_events(p: GpxPointView) -> Seq<XmlOutView> {
    seq![XmlOutView::Start { name: "trkpt"@, attrs: seq![("lat"@, p.lat), ("lon"@, p.lon)] }]
        + text_element("ele"@, p.ele)
        + text_element("time"@, chrono_utc_format(p.time.secs, p.time.nanos, gpx_time_format()))
        + seq![XmlOutView::End { name: "trkpt"@ }]
}

pub open spec fn points_events(ps: Seq<GpxPointView>) -> Seq<XmlOutView>
    decreases ps.len(),
{
    if ps.len() == 0 {
        Seq::empty()
    } else {
        points_events(ps.drop_last()) + point_events(ps.last())
    }
}

/// The events before the track points: the declaration, the `gpx` root,
/// a `trk` with its `name`, and the `trkseg`.
pub open spec fn gpx_head_events(name: Seq<char>) -> Seq<XmlOutView> {
    seq![
        XmlOutView::Decl,
        XmlOutView::Start { name: "gpx"@, attrs: gpx_root_attrs() },
        XmlOutView::Start { name: "trk"@, attrs: Seq::empty() },
    ] + text_element("name"@, name) + seq![XmlOutView::Start { name: "trkseg"@, attrs: Seq::empty() }]
}

/// The events after the track points, closing what the head opened.
pub open spec fn gpx_tail_events() -> Seq<XmlOutView> {
    seq![
        XmlOutView::End { name: "trkseg"@ },
        XmlOutView::End { name: "trk"@ },
        XmlOutView::End { name: "gpx"@ },
    ]
}

/// The events of a GPX 1.1 file with one track named `name` of one
/// segment of the points `ps`.
pub open spec fn gpx_events(ps: Seq<GpxPointView>, name: Seq<char>) -> Seq<XmlOutView> {
    gpx_head_events(name) + points_events(ps) + gpx_tail_events()
}

/// The `k`-th of the eight events that write the point `p` as a `trkpt`
/// element: the start tag with `lat` and `lon`, the `ele` element, the
/// `time` element (UTC with milliseconds) and the end tag.
pub open spec fn trkpt_event(p: GpxPointView, k: int) -> XmlOutView {
    if k == 0 {
        XmlOutView::Start { name: "trkpt"@, attrs: seq![("lat"@, p.lat), ("lon"@, p.lon)] }
    } else if k == 1 {
        XmlOutView::Start { name: "ele"@, attrs: Seq::empty() }
    } else if k == 2 {
        XmlOutView::Text { text: p.ele }
    } else if k == 3 {
        XmlOutView::End { name: "ele"@ }
    } else if k == 4 {
        XmlOutView::Start { name: "time"@, attrs: Seq::empty() }
    } else if k == 5 {
        XmlOutView::Text { text: chrono_utc_format(p.time.secs, p.time.nanos, GPX_TIME_FORMAT@) }
    } else if k == 6 {
        XmlOutView::End { name: "time"@ }
    } else {
        XmlOutView::End { name: "trkpt"@ }
    }
}

proof fn lemma_points_events_layout(ps: Seq<GpxPointView>)
    ensures
        points_events(ps).len() == 8 * ps.len(),
        forall|i: int, k: int|
            0 <= i < ps.len() && 0 <= k < 8 ==> #[trigger] points_events(ps)[8 * i + k] == trkpt_event(ps[i], k),
    decreases ps.len(),
{
    if ps.len() > 0 {
        let front = ps.drop_last();
        lemma_points_events_layout(front);
        let pe = point_events(ps.last());
        assert(pe.len() == 8);
        assert forall|k: int| 0 <= k < 8 implies pe[k] == trkpt_event(ps.last(), k) by {}
        assert forall|i: int, k: int| 0 <= i < ps.len() && 0 <= k < 8 implies #[trigger] points_events(ps)[8 * i + k]
            == trkpt_event(ps[i], k) by {
            if i < ps.len() - 1 {
                assert(front[i] == ps[i]);
                assert(points_events(ps)[8 * i + k] == points_events(front)[8 * i + k]);
            } else {
                assert(points_events(ps)[8 * i + k] == pe[k]);
            }
        }
    }
}

/// The GPX document lists the points in the order given: its events are
/// seven opening ones (the declaration, `gpx`, `trk`, the three of `name`
/// and `trkseg`), then for each point `ps[i]`, in order, the eight events
/// of its `trkpt` element (see [`trkpt_event`]), then the three that close
/// `trkseg`, `trk` and `gpx`.
pub proof fn law_gpx_points_in_order(ps: Seq<GpxPointView>, name: Seq<char>)
    ensures
        gpx_events(ps, name).len() == 7 + 8 * ps.len() + 3,
        gpx_events(ps, name)[0] == XmlOutView::Decl,
        gpx_events(ps, name)[4] == (XmlOutView::Text { text: name }),
        gpx_events(ps, name)[6] == (XmlOutView::Start { name: "trkseg"@, attrs: Seq::empty() }),
        forall|i: int, k: int|
            0 <= i < ps.len() && 0 <= k < 8 ==> #[trigger] gpx_events(ps, name)[7 + 8 * i + k] == trkpt_event(ps[i], k),
        gpx_events(ps, name)[7 + 8 * ps.len() as int] == (XmlOutView::End { name: "trkseg"@ }),
{
    lemma_points_events_layout(ps);
    let head = gpx_head_events(name);
    assert(head.len() == 7);
    let e = gpx_events(ps, name);
    assert forall|i: int, k: int| 0 <= i < ps.len() && 0 <= k < 8 implies #[trigger] e[7 + 8 * i + k] == trkpt_event(
        ps[i],
        k,
    ) by {
        assert(e[7 + 8 * i + k] == points_events(ps)[8 * i + k]);
    }
}

/// Whether chrono can represent the time of every point.
pub open spec fn all_times_valid(ps: Seq<GpxPointView>) -> bool {
    forall|i: int| 0 <= i < ps.len() ==> chrono_utc_valid(#[trigger] ps[i].time.secs, ps[i].time.nanos)
}

fn attribute(key: &str, value: &str) -> (r: (String, String))
    ensures
        r.0@ == key@,
        r.1@ == value@,
{
    (String::from_str(key), String::from_str(value))
}

fn wrote(r: Result<(), String>) -> (o: Result<(), GpxWriteError>)
    ensures
        o is Ok <==> r is Ok,
        o matches Err(e) ==> e is Write,
{
    match r {
        Ok(()) => Ok(()),
        Err(m) => Err(GpxWriteError::Write(m)),
    }
}

fn write_text_element(w: &mut XmlWriter, name: &str, text: &str) -> (r: Result<(), GpxWriteError>)
    ensures
        r is Ok,
        final(w).written() == old(w).written() + text_element(name@, text@),
{
    let no_attrs: Vec<(String, String)> = Vec::new();
    assert(crate::xml::out_attrs_view(no_attrs@) =~= Seq::<(Seq<char>, Seq<char>)>::empty());
    if let Err(e) = wrote(w.write_start(name, &no_attrs)) {
        return Err(e);
    }
    if let Err(e) = wrote(w.write_text(text)) {
        return Err(e);
    }
    if let Err(e) = wrote(w.write_end(name)) {
        return Err(e);
    }
    assert(w.written() =~= old(w).written() + text_element(name@, text@));
    Ok(())
}

fn write_bare_start(w: &mut XmlWriter, name: &str) -> (r: Result<(), GpxWriteError>)
    ensures
        r is Ok,
        final(w).written() == old(w).written().push(
            XmlOutView::Start { name: name@, attrs: Seq::empty() },
        ),
{
    let no_attrs: Vec<(String, String)> = Vec::new();
    assert(crate::xml::out_attrs_view(no_attrs@) =~= Seq::<(Seq<char>, Seq<char>)>::empty());
    wrote(w.write_start(name, &no_attrs))
}

fn write_point(w: &mut XmlWriter, p: &GpxPoint, time: &String) -> (r: Result<(), GpxWriteError>)
    requires
        time@ == chrono_utc_format(p.time.secs, p.time.nanos, gpx_time_format()),
    ensures
        r is Ok,
        final(w).written() == old(w).written() + point_events(p@),
{
    let attrs = vec![attribute("lat", p.lat.as_str()), attribute("lon", p.lon.as_str())];
    assert(crate::xml::out_attrs_view(attrs@) =~= seq![("lat"@, p.lat@), ("lon"@, p.lon@)]);
    if let Err(e) = wrote(w.write_start("trkpt", &attrs)) {
        return Err(e);
    }
    if let Err(e) = write_text_element(w, "ele", p.ele.as_str()) {
        return Err(e);
    }
    if let Err(e) = write_text_element(w, "time", time.as_str()) {
        return Err(e);
    }
    if let Err(e) = wrote(w.write_end("trkpt")) {
        return Err(e);
    }
    assert(w.written() =~= old(w).written() + point_events(p@));
    Ok(())
}

/// The GPX 1.1 file for a track of the points `points` named `name`, as
/// written with two-space indentation and a final newline. Each point's time
/// is written in UTC with milliseconds; a point whose time chrono cannot
/// represent is refused.
pub fn write_gpx(points: &Vec<GpxPoint>, name: &str) -> (r: Result<Vec<u8>, GpxWriteError>)
    ensures
        r matches Ok(b) ==> {
            &&& all_times_valid(points_view(points@))
            &&& b@ == xml_indented_output(gpx_events(points_view(points@), name@)).push(0x0au8)
        },
        r matches Err(GpxWriteError::InvalidTime { index }) ==> {
            &&& index < points@.len()
            &&& !chrono_utc_valid(points@[index as int].time.secs, points@[index as int].time.nanos)
            &&& forall|j: int| 0 <= j < index ==> chrono_utc_valid(#[trigger] points@[j].time.secs, points@[j].time.nanos)
        },
        !all_times_valid(points_view(points@)) ==> r is Err,
        all_times_valid(points_view(points@)) ==> r is Ok,
{
    let ghost ps = points_view(points@);
    let mut w = XmlWriter::new();
    if let Err(e) = wrote(w.write_decl()) {
        return Err(e);
    }
    let root_attrs = vec![
        attribute("version", "1.1"),
        attribute("creator", "osv2gpx"),
        attribute("xmlns", "http://www.topografix.com/GPX/1/1"),
        attribute("xmlns:xsi", "http://www.w3.org/2001/XMLSchema-instance"),
        attribute(
            "xsi:schemaLocation",
            "http://www.topografix.com/GPX/1/1 http://www.topografix.com/GPX/1/1/gpx.xsd",
        ),
    ];
    assert(crate::xml::out_attrs_view(root_attrs@) =~= gpx_root_attrs());
    if let Err(e) = wrote(w.write_start("gpx", &root_attrs)) {
        return Err(e);
    }
    if let Err(e) = write_bare_start(&mut w, "trk") {
        return Err(e);
    }
    if let Err(e) = write_text_element(&mut w, "name", name) {
        return Err(e);
    }
    if let Err(e) = write_bare_start(&mut w, "trkseg") {
        return Err(e);
    }
    assert(w.written() =~= gpx_head_events(name@));
    let mut i: usize = 0;
    while i < points.len()
        invariant
            i <= points.len(),
            ps == points_view(points@),
            ps.len() == points.len(),
            w.written() == gpx_head_events(name@) + points_events(ps.subrange(0, i as int)),
            forall|j: int| 0 <= j < i ==> chrono_utc_valid(#[trigger] points@[j].time.secs, points@[j].time.nanos),
        decreases points.len() - i,
    {
        let p = &points[i];
        let time = match format_utc(p.time, GPX_TIME_FORMAT) {
            Some(t) => t,
            None => {
                assert(!all_times_valid(ps) || !all_times_valid(ps)) by {
                    assert(ps[i as int].time == points@[i as int].time);
                }
                return Err(GpxWriteError::InvalidTime { index: i });
            },
        };
        let ghost before = w.written();
        if let Err(e) = write_point(&mut w, p, &time) {
            return Err(e);
        }
        proof {
            assert(ps.subrange(0, i + 1).drop_last() =~= ps.subrange(0, i as int));
            assert(ps[i as int] == p@);
            assert(w.written() =~= gpx_head_events(name@) + points_events(ps.subrange(0, i + 1)));
        }
        i = i + 1;
    }
    if let Err(e) = wrote(w.write_end("trkseg")) {
        return Err(e);
    }
    if let Err(e) = wrote(w.write_end("trk")) {
        return Err(e);
    }
    if let Err(e) = wrote(w.write_end("gpx")) {
        return Err(e);
    }
    proof {
        assert(ps.subrange(0, points.len() as int) =~= ps);
        assert(w.written() =~= gpx_events(ps, name@));
        assert forall|j: int| 0 <= j < ps.len() implies chrono_utc_valid(#[trigger] ps[j].time.secs, ps[j].time.nanos) by {
            assert(ps[j].time == points@[j].time);
        }
    }
    let mut bytes = w.into_bytes();
    bytes.push(0x0au8);
    Ok(bytes)
}

} // verus!
