//! Reading and writing XML through `quick_xml`. The reader's events are
//! turned into plain values here; the logic that judges them lives with each
//! format.
use quick_xml::events::attributes::Attribute;
use quick_xml::events::{BytesCData, BytesDecl, BytesEnd, BytesPI, BytesRef, BytesStart, BytesText, Event};
use quick_xml::name::QName;
use quick_xml::{Reader, Writer};
use vstd::prelude::*;

verus! {

#[verifier::external_type_specification]
#[verifier::external_body]
#[verifier::reject_recursive_types(R)]
pub struct ExReader<R>(Reader<R>);

#[verifier::external_type_specification]
#[verifier::external_body]
#[verifier::reject_recursive_types(W)]
pub struct ExWriter<W>(Writer<W>);

#[verifier::external_type_specification]
#[verifier::external_body]
pub struct ExEvent<'a>(Event<'a>);

/// The kinds of XML event.
#[derive(Debug, Clone, Copy, PartialEq, Eq, Structural)]
pub enum XmlKind {
    Start,
    Empty,
    End,
    Text,
    CData,
    Comment,
    Decl,
    PI,
    DocType,
    GeneralRef,
    Eof,
}

/// An attribute as written in the source: its qualified name and its raw,
/// still escaped, value.
#[derive(Debug, Clone, PartialEq, Eq)]
pub struct XmlAttribute {
    pub key: String,
    pub value: String,
}

/// One event of the reader, as plain values: its kind; for elements the
/// qualified name and the attributes (`None` when they are malformed); and
/// its content as written between its delimiters (for text, CDATA and
/// comments the content, for an end tag its name, for an element the tag's
/// inside), from which the event is written back unchanged.
#[derive(Debug, Clone)]
pub struct XmlItem {
    pub kind: XmlKind,
    pub name: String,
    pub attributes: Option<Vec<XmlAttribute>>,
    pub text: String,
}

/// An XML event as plain values.
pub struct XmlItemView {
    pub kind: XmlKind,
    pub name: Seq<char>,
    pub attributes: Option<Seq<(Seq<char>, Seq<char>)>>,
    pub text: Seq<char>,
}

/// The attributes as pairs of key and raw value.
pub open spec fn attributes_view(attributes: Option<Vec<XmlAttribute>>) -> Option<
    Seq<(Seq<char>, Seq<char>)>,
> {
    match attributes {
        Some(v) => Some(v@.map_values(|a: XmlAttribute| (a.key@, a.value@))),
        None => None,
    }
}

impl View for XmlItem {
    type V = XmlItemView;

    open spec fn view(&self) -> XmlItemView {
        XmlItemView {
            kind: self.kind,
            name: self.name@,
            attributes: attributes_view(self.attributes),
            text: self.text@,
        }
    }
}

/// What the `index`-th call of `quick_xml::Reader::read_event` returns on a
/// reader made by `xml_reader` over `source`: the event as plain values, or
/// `None` where the reader reports an error.
pub uninterp spec fn xml_event(source: Seq<u8>, index: nat) -> Option<XmlItemView>;

/// A `quick_xml` reader over a byte slice, with the bytes it reads and how
/// many events it has handed out so far.
pub struct XmlReader<'a> {
    reader: Reader<&'a [u8]>,
    source: Ghost<Seq<u8>>,
    read: Ghost<nat>,
}

impl<'a> XmlReader<'a> {
    /// The bytes the reader reads.
    pub closed spec fn source(&self) -> Seq<u8> {
        self.source@
    }

    /// How many events the reader has handed out.
    pub closed spec fn position(&self) -> nat {
        self.read@
    }
}

/// `quick_xml::Reader::from_reader` over `bytes`, with end names checked
/// against start names. The reader has handed out no event yet.
#[verifier::external_body]
pub(crate) fn xml_reader<'a>(bytes: &'a [u8]) -> (r: XmlReader<'a>)
    ensures
        r.source() == bytes@,
        r.position() == 0,
{
    let mut reader = Reader::from_reader(bytes);
    reader.config_mut().check_end_names = true;
    XmlReader { reader, source: Ghost(bytes@), read: Ghost(0) }
}

/// `quick_xml::Reader::read_event`: the next event's kind, name, attributes
/// and content, or `None` when the XML is malformed. The parts are the
/// reader's next event of `xml_event`: `quick_xml` reads its events from the
/// source bytes alone, one after the other.
#[verifier::external_body]
fn read_raw_event(reader: &mut XmlReader) -> (r: Option<
    (XmlKind, String, Option<Vec<XmlAttribute>>, String),
>)
    ensures
        final(reader).source() == old(reader).source(),
        final(reader).position() == old(reader).position() + 1,
        xml_event(old(reader).source(), old(reader).position()) == match r {
            Some(parts) => Some(
                XmlItemView {
                    kind: parts.0,
                    name: parts.1@,
                    attributes: attributes_view(parts.2),
                    text: parts.3@,
                },
            ),
            None => None::<XmlItemView>,
        },
{
    reader.read = Ghost((reader.read@ + 1) as nat);
    let raw = reader.reader.read_event().ok()?;
    Some((raw_kind(&raw), raw_name(&raw), raw_attributes(&raw), raw_text(&raw)))
}

/// The kind of a `quick_xml` event.
#[verifier::external_body]
fn raw_kind(event: &Event) -> XmlKind {
    match event {
        Event::Start(_) => XmlKind::Start,
        Event::Empty(_) => XmlKind::Empty,
        Event::End(_) => XmlKind::End,
        Event::Text(_) => XmlKind::Text,
        Event::CData(_) => XmlKind::CData,
        Event::Comment(_) => XmlKind::Comment,
        Event::Decl(_) => XmlKind::Decl,
        Event::PI(_) => XmlKind::PI,
        Event::DocType(_) => XmlKind::DocType,
        Event::GeneralRef(_) => XmlKind::GeneralRef,
        Event::Eof => XmlKind::Eof,
    }
}

/// `BytesStart::name` of a start or empty-element event; empty for others.
#[verifier::external_body]
fn raw_name(event: &Event) -> String {
    match event {
        Event::Start(e) | Event::Empty(e) => e.name().as_ref().to_owned(),
        _ => String::new(),
    }
}

/// `BytesStart::attributes` with duplicate and syntax checks, of a start or
/// empty-element event, or `None` when one is malformed; empty for others.
#[verifier::external_body]
fn raw_attributes(event: &Event) -> Option<Vec<XmlAttribute>> {
    match event {
        Event::Start(e) | Event::Empty(e) => e.attributes().with_checks(true).map(|a| {
            a.map(|a| XmlAttribute { key: a.key.as_ref().to_owned(), value: a.value.into_owned() })
        }).collect::<Result<Vec<_>, _>>().ok(),
        _ => Some(Vec::new()),
    }
}

/// The content of an event as written between its delimiters (its `Deref`
/// to `str`).
#[verifier::external_body]
fn raw_text(event: &Event) -> String {
    String::from(&**event)
}

/// Reads the next event, or `None` when the XML is malformed: the reader's
/// next event of `xml_event`.
pub fn next_item(reader: &mut XmlReader) -> (item: Option<XmlItem>)
    ensures
        final(reader).source() == old(reader).source(),
        final(reader).position() == old(reader).position() + 1,
        xml_event(old(reader).source(), old(reader).position()) == match item {
            Some(item) => Some(item@),
            None => None::<XmlItemView>,
        },
{
    match read_raw_event(reader) {
        Some((kind, name, attributes, text)) => Some(XmlItem { kind, name, attributes, text }),
        None => None,
    }
}

/// The events read from `source` from the `index`-th on, with at most `fuel`
/// events: up to and including the end of the document, or up to an error,
/// which is left out.
pub open spec fn events_from(source: Seq<u8>, index: nat, fuel: nat) -> Seq<XmlItemView>
    decreases fuel,
{
    if fuel == 0 {
        Seq::empty()
    } else {
        match xml_event(source, index) {
            None => Seq::empty(),
            Some(e) => if e.kind == XmlKind::Eof {
                seq![e]
            } else {
                seq![e] + events_from(source, index + 1, (fuel - 1) as nat)
            },
        }
    }
}

/// The most events read from a document: one more than its length, which
/// bounds the events that consume input.
pub open spec fn event_budget(source: Seq<u8>) -> nat {
    if source.len() < usize::MAX {
        source.len() + 1
    } else {
        source.len()
    }
}

/// The events `quick_xml` reads from a document.
pub open spec fn xml_document(source: Seq<u8>) -> Seq<XmlItemView> {
    events_from(source, 0, event_budget(source))
}

/// Whether `items` are the events `quick_xml` reads from `source`.
pub open spec fn read_from(source: Seq<u8>, items: Seq<XmlItem>) -> bool {
    items.map_values(|item: XmlItem| item@) == xml_document(source)
}

/// The events `quick_xml` reads from `bytes`, in order, up to and including
/// the end of the document. Where the reader reports malformed XML, the
/// events read before it are returned, without an end.
pub fn read_items(bytes: &[u8]) -> (items: Vec<XmlItem>)
    ensures
        read_from(bytes@, items@),
{
    let mut reader = xml_reader(bytes);
    let mut items: Vec<XmlItem> = Vec::new();
    // Every event but the last consumes input, so the reader reaches the end
    // within this many events.
    let mut fuel = bytes.len().saturating_add(1);
    let ghost budget = fuel as nat;
    assert(budget == event_budget(bytes@));
    while fuel > 0
        invariant
            reader.source() == bytes@,
            reader.position() == items.len(),
            items.len() + fuel == budget,
            budget == event_budget(bytes@),
            items@.map_values(|item: XmlItem| item@) + events_from(bytes@, items.len() as nat, fuel as nat)
                == xml_document(bytes@),
        decreases fuel,
    {
        let ghost before = items@;
        let ghost k = items.len() as nat;
        let ghost f = fuel as nat;
        fuel = fuel - 1;
        match next_item(&mut reader) {
            None => {
                assert(events_from(bytes@, k, f) =~= Seq::<XmlItemView>::empty());
                assert(items@.map_values(|item: XmlItem| item@) =~= before.map_values(|item: XmlItem| item@) + events_from(bytes@, k, f));
                return items;
            },
            Some(item) => {
                let end = item.kind == XmlKind::Eof;
                let ghost v = item@;
                items.push(item);
                assert(items@.map_values(|item: XmlItem| item@) =~= before.map_values(|item: XmlItem| item@) + seq![v]);
                if end {
                    assert(events_from(bytes@, k, f) == seq![v]);
                    assert(items@.map_values(|item: XmlItem| item@) =~= before.map_values(|item: XmlItem| item@) + events_from(bytes@, k, f));
                    return items;
                }
                assert(events_from(bytes@, k, f) == seq![v] + events_from(bytes@, k + 1, fuel as nat));
                assert(before.map_values(|item: XmlItem| item@) + events_from(bytes@, k, f) =~= items@.map_values(|item: XmlItem| item@) + events_from(bytes@, k + 1, fuel as nat));
            },
        }
    }
    assert(events_from(bytes@, items.len() as nat, 0) =~= Seq::<XmlItemView>::empty());
    assert(items@.map_values(|item: XmlItem| item@) =~= items@.map_values(|item: XmlItem| item@) + events_from(bytes@, items.len() as nat, 0));
    items
}

/// An event handed to the writer, as plain values: a start or
/// empty-element tag with its name and raw attribute values, escaped text,
/// a CDATA section, or another event given by its kind and its content as
/// written between its delimiters.
pub enum XmlOut {
    Element(Seq<char>, Seq<(Seq<char>, Seq<char>)>, bool),
    Text(Seq<char>),
    CData(Seq<char>),
    Raw(XmlKind, Seq<char>),
}

/// The attributes as (key, raw value) pairs.
pub open spec fn pairs(attributes: Seq<XmlAttribute>) -> Seq<(Seq<char>, Seq<char>)> {
    attributes.map_values(|a: XmlAttribute| (a.key@, a.value@))
}

/// The bytes a `quick_xml::Writer::new(Vec::new())` holds after
/// `write_event` of the event each of `events` describes, in order.
pub uninterp spec fn xml_serialized(events: Seq<XmlOut>) -> Seq<u8>;

/// `first` written before what `rest` writes, or the error that stops `rest`.
pub open spec fn out_then(first: XmlOut, rest: Result<Seq<XmlOut>, &'static str>) -> Result<
    Seq<XmlOut>,
    &'static str,
> {
    match rest {
        Ok(events) => Ok(seq![first] + events),
        Err(e) => Err(e),
    }
}

/// `prefix` written before what `rest` writes, or the error that stops `rest`.
pub open spec fn out_after(prefix: Seq<XmlOut>, rest: Result<Seq<XmlOut>, &'static str>) -> Result<
    Seq<XmlOut>,
    &'static str,
> {
    match rest {
        Ok(events) => Ok(prefix + events),
        Err(e) => Err(e),
    }
}

/// Writing `prefix` and then `first` before `rest` is writing `prefix`
/// before `first` and `rest`.
pub proof fn lemma_out_after_push(prefix: Seq<XmlOut>, first: XmlOut, rest: Result<Seq<XmlOut>, &'static str>)
    ensures
        out_after(prefix.push(first), rest) == out_after(prefix, out_then(first, rest)),
{
    if let Ok(events) = rest {
        assert(prefix.push(first) + events =~= prefix + (seq![first] + events));
    }
}

/// A `quick_xml` writer into memory, with the events written so far.
pub struct XmlWriter {
    writer: Writer<Vec<u8>>,
    events: Ghost<Seq<XmlOut>>,
}

impl XmlWriter {
    /// The events written so far.
    pub closed spec fn events(&self) -> Seq<XmlOut> {
        self.events@
    }
}

/// `quick_xml::Writer::new` over an empty buffer.
#[verifier::external_body]
pub(crate) fn xml_writer() -> (w: XmlWriter)
    ensures
        w.events() == Seq::<XmlOut>::empty(),
{
    XmlWriter { writer: Writer::new(Vec::new()), events: Ghost(Seq::empty()) }
}

/// The `quick_xml` event of kind `kind` with the content `text`: `BytesEnd`,
/// `BytesText` (already escaped), `BytesCData`, `BytesDecl`, `BytesPI` or
/// `BytesRef` built from it; the conversion that `write_raw` writes by.
#[verifier::external_body]
fn event_of<'a>(kind: XmlKind, text: &'a str) -> Event<'a> {
    match kind {
        XmlKind::End => Event::End(BytesEnd::new(text)),
        XmlKind::Text => Event::Text(BytesText::from_escaped(text)),
        XmlKind::CData => Event::CData(BytesCData::new(text)),
        XmlKind::Comment => Event::Comment(BytesText::from_escaped(text)),
        XmlKind::Decl => Event::Decl(BytesDecl::from_start(BytesStart::from_content(text, 0))),
        XmlKind::PI => Event::PI(BytesPI::new(text)),
        XmlKind::DocType => Event::DocType(BytesText::from_escaped(text)),
        XmlKind::GeneralRef => Event::GeneralRef(BytesRef::new(text)),
        _ => Event::Eof,
    }
}

/// `quick_xml::Writer::write_event` of an event given by its kind and its
/// content as read, which writes it back unchanged. Its only errors are those
/// of the underlying writer, and writing into a `Vec<u8>` appends and does
/// not fail, so it succeeds.
#[verifier::external_body]
pub(crate) fn write_raw(writer: &mut XmlWriter, kind: XmlKind, text: &str) -> (r: bool)
    requires
        kind != XmlKind::Start && kind != XmlKind::Empty && kind != XmlKind::Eof,
    ensures
        r,
        final(writer).events() == old(writer).events().push(XmlOut::Raw(kind, text@)),
{
    writer.events = Ghost(writer.events@.push(XmlOut::Raw(kind, text@)));
    writer.writer.write_event(event_of(kind, text)).is_ok()
}

/// `quick_xml::Writer::write_event` of a start or empty-element tag with the
/// given name and raw attribute values, in order; it succeeds, as writing
/// into a `Vec<u8>` does not fail.
#[verifier::external_body]
pub(crate) fn write_element(
    writer: &mut XmlWriter,
    name: &str,
    attributes: &[XmlAttribute],
    empty: bool,
) -> (r: bool)
    ensures
        r,
        final(writer).events() == old(writer).events().push(
            XmlOut::Element(name@, pairs(attributes@), empty),
        ),
{
    writer.events = Ghost(writer.events@.push(XmlOut::Element(name@, pairs(attributes@), empty)));
    let tag = BytesStart::new(name).with_attributes(attributes.iter().map(|a| Attribute {
        key: QName(a.key.as_str()),
        value: a.value.as_str().into(),
    }));
    writer.writer.write_event(if empty { Event::Empty(tag) } else { Event::Start(tag) }).is_ok()
}

/// `quick_xml::Writer::write_event` of text that is already escaped; it
/// succeeds, as writing into a `Vec<u8>` does not fail.
#[verifier::external_body]
pub(crate) fn write_text(writer: &mut XmlWriter, text: &str) -> (r: bool)
    ensures
        r,
        final(writer).events() == old(writer).events().push(XmlOut::Text(text@)),
{
    writer.events = Ghost(writer.events@.push(XmlOut::Text(text@)));
    writer.writer.write_event(Event::Text(BytesText::from_escaped(text))).is_ok()
}

/// `quick_xml::Writer::write_event` of a CDATA section; it succeeds, as
/// writing into a `Vec<u8>` does not fail.
#[verifier::external_body]
pub(crate) fn write_cdata(writer: &mut XmlWriter, text: &str) -> (r: bool)
    ensures
        r,
        final(writer).events() == old(writer).events().push(XmlOut::CData(text@)),
{
    writer.events = Ghost(writer.events@.push(XmlOut::CData(text@)));
    writer.writer.write_event(Event::CData(BytesCData::new(text))).is_ok()
}

/// `quick_xml::Writer::into_inner`: the bytes written.
#[verifier::external_body]
pub(crate) fn written(writer: XmlWriter) -> (r: Vec<u8>)
    ensures
        r@ == xml_serialized(writer.events()),
{
    writer.writer.into_inner()
}

} // verus!
