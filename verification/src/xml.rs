//! Reading and writing XML through quick-xml, with the events as plain
//! values.
use vstd::prelude::*;
use vstd::utf8::{decode_utf8, valid_utf8};
use quick_xml::events::{BytesDecl, BytesEnd, BytesStart, BytesText, Event};
use quick_xml::{Reader, Writer};
use std::io::Cursor;

verus! {

#[verifier::external_type_specification]
#[verifier::external_body]
#[verifier::reject_recursive_types(R)]
pub struct ExQuickXmlReader<R>(Reader<R>);

#[verifier::external_type_specification]
#[verifier::external_body]
#[verifier::reject_recursive_types(W)]
pub struct ExQuickXmlWriter<W>(Writer<W>);

#[verifier::external_type_specification]
#[verifier::external_body]
#[verifier::reject_recursive_types(T)]
pub struct ExIoCursor<T>(Cursor<T>);

#[verifier::external_type_specification]
#[verifier::external_body]
pub struct ExBytesStart<'a>(BytesStart<'a>);

/// An event of an XML reader, as plain values. Text and CDATA carry their
/// raw content.
pub enum XmlEventView {
    Start { name: Seq<u8>, content: Seq<u8> },
    End { name: Seq<u8> },
    Text { bytes: Seq<u8> },
    CData { bytes: Seq<u8> },
    Eof,
    Error { message: Seq<char> },
    Other,
}

/// The event that quick-xml's `Reader::read_event_into` gives at its `k`-th
/// call (counted from 0) on a reader over `input` that trims the whitespace
/// around text, as an [`XmlEventView`]: for a start tag its name and its
/// content between `<` and `>`, for an end tag its name, for text and CDATA
/// their raw content, for a reader error its message.
pub uninterp spec fn xml_event_at(input: Seq<u8>, k: nat) -> XmlEventView;

/// The message of the error that quick-xml's `Decoder::decode` gives for
/// the bytes `bytes` that are not valid UTF-8.
pub uninterp spec fn xml_decode_error(bytes: Seq<u8>) -> Seq<char>;

/// What text and CDATA content decodes to: its UTF-8 decoding, or the
/// message of the decoding error.
pub open spec fn spec_decoded(bytes: Seq<u8>) -> Result<Seq<char>, Seq<char>> {
    if valid_utf8(bytes) {
        Ok(decode_utf8(bytes))
    } else {
        Err(xml_decode_error(bytes))
    }
}

/// The attributes that quick-xml finds in the content `content` of a start
/// tag, as pairs of the key's bytes and the value decoded as UTF-8 and
/// unescaped, in the order in which they stand; or the message of the first
/// attribute that is malformed or cannot be decoded.
pub uninterp spec fn xml_attributes(content: Seq<u8>) -> Result<Seq<(Seq<u8>, Seq<char>)>, Seq<char>>;

/// A start tag that a reader gave: its name, its content between `<` and
/// `>`, and the tag itself for quick-xml to read its attributes from.
pub struct XmlStart {
    name: Vec<u8>,
    content: Vec<u8>,
    raw: BytesStart<'static>,
}

impl XmlStart {
    pub closed spec fn spec_name(&self) -> Seq<u8> {
        self.name@
    }

    pub closed spec fn spec_content(&self) -> Seq<u8> {
        self.content@
    }

    pub fn name(&self) -> (r: &[u8])
        ensures
            r@ == self.spec_name(),
    {
        self.name.as_slice()
    }
}

/// An event of an XML reader.
pub enum XmlEvent {
    Start(XmlStart),
    End(Vec<u8>),
    Text(Vec<u8>),
    CData(Vec<u8>),
    Eof,
    Error(String),
    Other,
}

impl View for XmlEvent {
    type V = XmlEventView;

    open spec fn view(&self) -> XmlEventView {
        match self {
            XmlEvent::Start(s) => XmlEventView::Start { name: s.spec_name(), content: s.spec_content() },
            XmlEvent::End(n) => XmlEventView::End { name: n@ },
            XmlEvent::Text(t) => XmlEventView::Text { bytes: t@ },
            XmlEvent::CData(t) => XmlEventView::CData { bytes: t@ },
            XmlEvent::Eof => XmlEventView::Eof,
            XmlEvent::Error(m) => XmlEventView::Error { message: m@ },
            XmlEvent::Other => XmlEventView::Other,
        }
    }
}

/// How many events a reader over `input` hands out: one per byte and one
/// more, which covers every event up to the end of the input, since every
/// event before the end consumes at least one byte.
pub open spec fn event_limit(input: Seq<u8>) -> nat {
    if input.len() < usize::MAX {
        input.len() + 1
    } else {
        input.len()
    }
}

/// An XML reader over a byte string, counting the events it has handed out.
pub struct XmlReader {
    reader: Reader<Cursor<Vec<u8>>>,
    input: Ghost<Seq<u8>>,
    count: usize,
    limit: usize,
}

/// Calls quick-xml's `Reader::from_reader` on a cursor over a copy of
/// `input` and sets `trim_text(true)`. The reader is an opaque value: its
/// contract states nothing of it, and [`XmlReader::new`] records the input
/// it was made from beside it.
#[verifier::external_body]
fn open_reader(input: &[u8]) -> Reader<Cursor<Vec<u8>>> {
    let mut reader = Reader::from_reader(Cursor::new(input.to_vec()));
    reader.config_mut().trim_text(true);
    reader
}

impl XmlReader {
    pub closed spec fn input(&self) -> Seq<u8> {
        self.input@
    }

    /// The number of events handed out so far.
    pub closed spec fn count(&self) -> nat {
        self.count as nat
    }

    pub closed spec fn wf(&self) -> bool {
        &&& self.limit as nat == event_limit(self.input@)
        &&& self.count <= self.limit
    }

    pub fn new(input: &[u8]) -> (r: XmlReader)
        ensures
            r.wf(),
            r.input() == input@,
            r.count() == 0,
    {
        let limit = if input.len() < usize::MAX {
            input.len() + 1
        } else {
            input.len()
        };
        XmlReader { reader: open_reader(input), input: Ghost(input@), count: 0, limit }
    }

    /// Calls quick-xml's `Reader::read_event_into` and converts the event.
    /// The contract claims that the event is the one that the reader gives
    /// at its `count`-th call over `input`: [`XmlReader::new`] opens the
    /// reader on `input`, and [`XmlReader::next`], the only caller, counts
    /// each call.
    #[verifier::external_body]
    fn read_event(&mut self) -> (e: XmlEvent)
        ensures
            final(self).input == old(self).input,
            final(self).count == old(self).count,
            final(self).limit == old(self).limit,
            e@ == xml_event_at(old(self).input@, old(self).count as nat),
    {
        let mut buf = Vec::new();
        match self.reader.read_event_into(&mut buf) {
            Ok(Event::Start(s)) => XmlEvent::Start(
                XmlStart { name: s.name().0.to_vec(), content: s.to_vec(), raw: s.into_owned() },
            ),
            Ok(Event::End(e)) => XmlEvent::End(e.name().0.to_vec()),
            Ok(Event::Text(t)) => XmlEvent::Text(t.to_vec()),
            Ok(Event::CData(t)) => XmlEvent::CData(t.to_vec()),
            Ok(Event::Eof) => XmlEvent::Eof,
            Ok(_) => XmlEvent::Other,
            Err(e) => XmlEvent::Error(e.to_string()),
        }
    }

    /// Calls quick-xml's `Decoder::decode` with the reader's decoder. The
    /// contract claims what the crate's code does without its `encoding`
    /// feature: the bytes decode exactly when they are valid UTF-8, to their
    /// UTF-8 decoding, and otherwise the result is the message
    /// [`xml_decode_error`] of the error.
    #[verifier::external_body]
    pub(crate) fn decode(&self, bytes: &[u8]) -> (r: Result<String, String>)
        ensures
            r is Ok <==> valid_utf8(bytes@),
            r matches Ok(s) ==> s@ == decode_utf8(bytes@),
            r matches Err(m) ==> m@ == xml_decode_error(bytes@),
    {
        self.reader.decoder().decode(bytes).map(|c| c.into_owned()).map_err(|e| e.to_string())
    }

    /// The next event, while fewer than [`event_limit`] events have been
    /// handed out; `None` after that.
    pub fn next(&mut self) -> (e: Option<XmlEvent>)
        requires
            old(self).wf(),
        ensures
            final(self).wf(),
            final(self).input() == old(self).input(),
            old(self).count() < event_limit(old(self).input()) ==> {
                &&& e matches Some(ev) && ev@ == xml_event_at(old(self).input(), old(self).count())
                &&& final(self).count() == old(self).count() + 1
            },
            old(self).count() >= event_limit(old(self).input()) ==> {
                &&& e is None
                &&& final(self).count() == old(self).count()
            },
    {
        if self.count < self.limit {
            let e = self.read_event();
            self.count = self.count + 1;
            Some(e)
        } else {
            None
        }
    }
}

pub open spec fn attributes_view(a: Vec<(Vec<u8>, String)>) -> Seq<(Seq<u8>, Seq<char>)> {
    a@.map_values(|p: (Vec<u8>, String)| (p.0@, p.1@))
}

/// Calls quick-xml's `BytesStart::attributes` and `unescape_value` on each
/// attribute, stopping at the first error. The contract claims that the
/// result is [`xml_attributes`] of the tag's content, from which quick-xml
/// reads the attributes (the name ends at the first whitespace byte, and the
/// crate is built without its `encoding` feature, so values decode as
/// UTF-8).
#[verifier::external_body]
pub(crate) fn start_attributes(s: &XmlStart) -> (r: Result<Vec<(Vec<u8>, String)>, String>)
    ensures
        match r {
            Ok(a) => xml_attributes(s.spec_content()) == Ok::<Seq<(Seq<u8>, Seq<char>)>, Seq<char>>(attributes_view(a)),
            Err(m) => xml_attributes(s.spec_content()) == Err::<Seq<(Seq<u8>, Seq<char>)>, Seq<char>>(m@),
        },
{
    s.raw.attributes().map(|a| {
        let a = a.map_err(|e| e.to_string())?;
        let v = a.unescape_value().map_err(|e| e.to_string())?;
        Ok((a.key.0.to_vec(), v.into_owned()))
    }).collect()
}

/// An event to write, as plain values. `Decl` is the declaration
/// `<?xml version="1.0" encoding="UTF-8"?>`; a start tag carries its
/// attributes as key and value, unescaped.
pub enum XmlOutView {
    Decl,
    Start { name: Seq<char>, attrs: Seq<(Seq<char>, Seq<char>)> },
    Text { text: Seq<char> },
    End { name: Seq<char> },
}

/// The bytes that quick-xml's `Writer::new_with_indent(Vec::new(), b' ', 2)`
/// holds after `write_event` of each of `events` in turn, attribute values
/// and text escaped by quick-xml.
pub uninterp spec fn xml_indented_output(events: Seq<XmlOutView>) -> Seq<u8>;

/// A quick-xml writer into memory that indents by two spaces, with the
/// events written so far.
pub struct XmlWriter {
    writer: Writer<Vec<u8>>,
    written: Ghost<Seq<XmlOutView>>,
}

/// Calls quick-xml's `Writer::new_with_indent` on an empty vector, with an
/// indent of two spaces. The writer is an opaque value: its contract states
/// nothing of it, and [`XmlWriter::new`] records beside it that nothing was
/// written yet.
#[verifier::external_body]
fn indented_writer() -> Writer<Vec<u8>> {
    Writer::new_with_indent(Vec::new(), b' ', 2)
}

pub open spec fn out_attrs_view(attrs: Seq<(String, String)>) -> Seq<(Seq<char>, Seq<char>)> {
    attrs.map_values(|p: (String, String)| (p.0@, p.1@))
}

impl XmlWriter {
    /// The events written so far.
    pub closed spec fn written(&self) -> Seq<XmlOutView> {
        self.written@
    }

    pub fn new() -> (w: XmlWriter)
        ensures
            w.written() == Seq::<XmlOutView>::empty(),
    {
        XmlWriter { writer: indented_writer(), written: Ghost(Seq::empty()) }
    }

    /// Calls quick-xml's `Writer::write_event` with the declaration
    /// `BytesDecl::new("1.0", Some("UTF-8"), None)`. The contract claims
    /// that the declaration is the next event written and that the write
    /// succeeds: quick-xml fails only where the inner writer fails, and
    /// writing into a vector does not fail.
    #[verifier::external_body]
    pub(crate) fn write_decl(&mut self) -> (r: Result<(), String>)
        ensures
            r is Ok,
            final(self).written() == old(self).written().push(XmlOutView::Decl),
    {
        let decl = BytesDecl::new("1.0", Some("UTF-8"), None);
        self.writer.write_event(Event::Decl(decl)).map_err(|e| e.to_string())
    }

    /// Calls quick-xml's `Writer::write_event` with a start tag named
    /// `name` and `attrs` pushed onto it in order. The contract claims that
    /// that tag is the next event written and that the write succeeds, as for
    /// [`XmlWriter::write_decl`].
    #[verifier::external_body]
    pub(crate) fn write_start(&mut self, name: &str, attrs: &Vec<(String, String)>) -> (r: Result<(), String>)
        ensures
            r is Ok,
            final(self).written() == old(self).written().push(
                XmlOutView::Start { name: name@, attrs: out_attrs_view(attrs@) },
            ),
    {
        let tag = BytesStart::new(name).with_attributes(attrs.iter().map(|(k, v)| (k.as_str(), v.as_str())));
        self.writer.write_event(Event::Start(tag)).map_err(|e| e.to_string())
    }

    /// Calls quick-xml's `Writer::write_event` with `BytesText::new(text)`.
    /// The contract claims that that text is the next event written and
    /// that the write succeeds, as for [`XmlWriter::write_decl`].
    #[verifier::external_body]
    pub(crate) fn write_text(&mut self, text: &str) -> (r: Result<(), String>)
        ensures
            r is Ok,
            final(self).written() == old(self).written().push(XmlOutView::Text { text: text@ }),
    {
        self.writer.write_event(Event::Text(BytesText::new(text))).map_err(|e| e.to_string())
    }

    /// Calls quick-xml's `Writer::write_event` with an end tag named `name`.
    /// The contract claims that that tag is the next event written and
    /// that the write succeeds, as for [`XmlWriter::write_decl`].
    #[verifier::external_body]
    pub(crate) fn write_end(&mut self, name: &str) -> (r: Result<(), String>)
        ensures
            r is Ok,
            final(self).written() == old(self).written().push(XmlOutView::End { name: name@ }),
    {
        self.writer.write_event(Event::End(BytesEnd::new(name))).map_err(|e| e.to_string())
    }

    /// Calls quick-xml's `Writer::into_inner`. The contract claims that the
    /// bytes are [`xml_indented_output`] of the events written.
    #[verifier::external_body]
    pub(crate) fn into_bytes(self) -> (r: Vec<u8>)
        ensures
            r@ == xml_indented_output(self.written()),
    {
        self.writer.into_inner()
    }
}

} // verus!
