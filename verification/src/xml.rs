//! Extracting the values the Core Rule Set inspects from an XML body.
//!
//! The Core Rule Set addresses XML with exactly two XPath expressions, `XML:/*`
//! for element content and `XML://@*` for attribute values. Those two are
//! implemented; any other expression is refused at compile time rather than
//! quietly resolving to nothing, because a target that inspects nothing is a
//! rule that cannot fire.
//!
//! Parsing is delegated to `quick-xml`. Hand-rolling an XML parser to feed a
//! security control is a poor trade: the parser is the attack surface.

use crate::bytes::bytes_of;
use crate::collections::pairs_view;
use crate::collections::Entries;
use crate::text::before;
use crate::text::chars_of;
use crate::text::from;
use crate::text::joined;
use crate::text::joined3;
use crate::text::same;
use crate::text::string_of;
use crate::text::trim;
use crate::text::trimmed;
use quick_xml::events::Event;
use vstd::prelude::*;
use vstd::utf8::encode_utf8;

verus! {

/// The two XPath expressions the Core Rule Set uses.
pub const SUPPORTED_XPATH: [&'static str; 2] = ["/*", "//@*"];

/// Whether an XPath expression is one that can be evaluated.
pub open spec fn is_supported_xpath(expression: Seq<char>) -> bool {
    trimmed(expression) == "/*"@ || trimmed(expression) == "//@*"@
}

/// Whether an XPath expression is one Parapet can evaluate.
pub fn xpath_is_supported(expression: &str) -> (r: bool)
    ensures
        r == is_supported_xpath(expression@),
{
    let chars = chars_of(expression);
    let path = trim(chars.as_slice());
    same(path, SUPPORTED_XPATH[0]) || same(path, SUPPORTED_XPATH[1])
}

// ---------------------------------------------------------------------------
// Events

/// A name and the raw value of an attribute, or nothing for an attribute that
/// cannot be read.
pub type RawAttribute = Option<(String, String)>;

/// What the reader of a document comes upon.
#[derive(Debug)]
pub enum XmlEvent {
    /// A start tag: its name and its attributes.
    Start(String, Vec<RawAttribute>),
    /// An empty element: its name and its attributes.
    Empty(String, Vec<RawAttribute>),
    /// An end tag.
    End,
    /// Character data between tags, still escaped.
    Text(String),
    /// A character or entity reference in text, by what stands between `&` and
    /// `;`.
    Reference(String),
    /// The content of a CDATA section.
    CData(String),
    /// What holds no value to inspect: comments, declarations.
    Other,
    /// The end of the document.
    Eof,
}

/// The view of a [`RawAttribute`].
pub type AttributeView = Option<(Seq<char>, Seq<char>)>;

/// The view of an [`XmlEvent`].
#[verifier::ext_equal]
pub enum XmlEventView {
    Start(Seq<char>, Seq<AttributeView>),
    Empty(Seq<char>, Seq<AttributeView>),
    End,
    Text(Seq<char>),
    Reference(Seq<char>),
    CData(Seq<char>),
    Other,
    Eof,
}

/// What some attributes show.
pub open spec fn attributes_view(attributes: Seq<RawAttribute>) -> Seq<AttributeView> {
    Seq::new(
        attributes.len(),
        |i: int|
            match attributes[i] {
                Some((name, value)) => Some((name@, value@)),
                None => None,
            },
    )
}

impl DeepView for XmlEvent {
    type V = XmlEventView;

    open spec fn deep_view(&self) -> XmlEventView {
        match self {
            XmlEvent::Start(name, attributes) => XmlEventView::Start(
                name@,
                attributes_view(attributes@),
            ),
            XmlEvent::Empty(name, attributes) => XmlEventView::Empty(
                name@,
                attributes_view(attributes@),
            ),
            XmlEvent::End => XmlEventView::End,
            XmlEvent::Text(s) => XmlEventView::Text(s@),
            XmlEvent::Reference(s) => XmlEventView::Reference(s@),
            XmlEvent::CData(s) => XmlEventView::CData(s@),
            XmlEvent::Other => XmlEventView::Other,
            XmlEvent::Eof => XmlEventView::Eof,
        }
    }
}

/// An event, or the message of an error.
pub type EventOrError = Result<XmlEventView, Seq<char>>;

/// What reading an event shows.
pub open spec fn event_view(r: Result<XmlEvent, String>) -> EventOrError {
    match r {
        Ok(event) => Ok(event.deep_view()),
        Err(e) => Err(e@),
    }
}

/// Whether an event is the last one of a document.
pub open spec fn is_last(event: EventOrError) -> bool {
    event is Err || event == Ok::<XmlEventView, Seq<char>>(XmlEventView::Eof)
}

/// Whether events end, once, in the end of the document or in an error.
pub open spec fn ends_once(events: Seq<EventOrError>) -> bool {
    &&& events.len() > 0
    &&& forall|i: int| 0 <= i < events.len() ==> is_last(#[trigger] events[i]) == (i == events.len() - 1)
}

/// `quick_xml::Reader`, a document that is being read.
#[verifier::external_type_specification]
#[verifier::external_body]
#[verifier::reject_recursive_types(R)]
pub struct ExReader<R>(quick_xml::Reader<R>);

/// What a `quick_xml::Reader` has still to give: its events up to the end of the
/// document or the first error.
pub uninterp spec fn pending_events(reader: quick_xml::Reader<&[u8]>) -> Seq<EventOrError>;

/// What a `quick_xml::Reader` gives of a whole document, with text trimmed or
/// not, and end tags checked against start tags or not.
pub uninterp spec fn document_events(body: Seq<u8>, trim: bool, check: bool) -> Seq<EventOrError>;

/// `quick_xml::Reader::from_reader`, with its configuration. Which events a
/// document gives is only named; there is one at the end, and only there, that
/// ends the document or refuses it.
#[verifier::external_body]
fn open_document(body: &[u8], trim: bool, check: bool) -> (r: quick_xml::Reader<&[u8]>)
    ensures
        pending_events(r) == document_events(body@, trim, check),
        ends_once(pending_events(r)),
{
    let mut reader = quick_xml::Reader::from_reader(body);
    let config = reader.config_mut();
    config.trim_text(trim);
    config.check_end_names = check;
    reader
}

/// `quick_xml::events::BytesStart`, a start tag or an empty element.
#[verifier::external_type_specification]
#[verifier::external_body]
pub struct ExBytesStart<'a>(quick_xml::events::BytesStart<'a>);

/// What a `quick_xml::events::BytesStart` holds: its name and its attributes.
pub uninterp spec fn tag_in(tag: quick_xml::events::BytesStart<'static>) -> (
    Seq<char>,
    Seq<AttributeView>,
);

/// An event as the reader hands it out, with its tag still closed.
enum Found {
    Start(quick_xml::events::BytesStart<'static>),
    Empty(quick_xml::events::BytesStart<'static>),
    End,
    Text(String),
    Reference(String),
    CData(String),
    Other,
    Eof,
}

spec fn found_view(r: Result<Found, String>) -> EventOrError {
    match r {
        Ok(found) => Ok(
            match found {
                Found::Start(tag) => XmlEventView::Start(tag_in(tag).0, tag_in(tag).1),
                Found::Empty(tag) => XmlEventView::Empty(tag_in(tag).0, tag_in(tag).1),
                Found::End => XmlEventView::End,
                Found::Text(s) => XmlEventView::Text(s@),
                Found::Reference(s) => XmlEventView::Reference(s@),
                Found::CData(s) => XmlEventView::CData(s@),
                Found::Other => XmlEventView::Other,
                Found::Eof => XmlEventView::Eof,
            },
        ),
        Err(e) => Err(e@),
    }
}

/// `quick_xml::Reader::read_event_into`: the next event of a document, with the
/// tag, the text or the reference that it carries.
#[verifier::external_body]
fn next_event(reader: &mut quick_xml::Reader<&[u8]>) -> (r: Result<Found, String>)
    requires
        pending_events(*old(reader)).len() > 0,
    ensures
        found_view(r) == pending_events(*old(reader))[0],
        pending_events(*final(reader)) == pending_events(*old(reader)).drop_first(),
{
    match reader.read_event_into(&mut Vec::new()) {
        Ok(Event::Start(e)) => Ok(Found::Start(e.into_owned())),
        Ok(Event::Empty(e)) => Ok(Found::Empty(e.into_owned())),
        Ok(Event::End(_)) => Ok(Found::End),
        Ok(Event::Text(e)) => Ok(Found::Text(e.to_string())),
        Ok(Event::GeneralRef(e)) => Ok(Found::Reference(e.to_string())),
        Ok(Event::CData(e)) => Ok(Found::CData(e.to_string())),
        Ok(Event::Eof) => Ok(Found::Eof),
        Ok(_) => Ok(Found::Other),
        Err(e) => Err(e.to_string()),
    }
}

/// `quick_xml::events::BytesStart::name` and `attributes`: the name of a tag, and
/// its attributes in order, each with its raw value or as one that cannot be read.
#[verifier::external_body]
fn open_tag(tag: &quick_xml::events::BytesStart<'static>) -> (r: (String, Vec<RawAttribute>))
    ensures
        (r.0@, attributes_view(r.1@)) == tag_in(*tag),
{
    let attributes = tag.attributes().map(
        |a| a.ok().map(|a| (a.key.0.to_string(), a.value.into_owned())),
    );
    (tag.name().0.to_string(), attributes.collect())
}

fn read_event(reader: &mut quick_xml::Reader<&[u8]>) -> (r: Result<XmlEvent, String>)
    requires
        pending_events(*old(reader)).len() > 0,
    ensures
        event_view(r) == pending_events(*old(reader))[0],
        pending_events(*final(reader)) == pending_events(*old(reader)).drop_first(),
{
    match next_event(reader) {
        Err(e) => Err(e),
        Ok(Found::Start(tag)) => {
            let (name, attributes) = open_tag(&tag);
            Ok(XmlEvent::Start(name, attributes))
        },
        Ok(Found::Empty(tag)) => {
            let (name, attributes) = open_tag(&tag);
            Ok(XmlEvent::Empty(name, attributes))
        },
        Ok(Found::End) => Ok(XmlEvent::End),
        Ok(Found::Text(s)) => Ok(XmlEvent::Text(s)),
        Ok(Found::Reference(s)) => Ok(XmlEvent::Reference(s)),
        Ok(Found::CData(s)) => Ok(XmlEvent::CData(s)),
        Ok(Found::Other) => Ok(XmlEvent::Other),
        Ok(Found::Eof) => Ok(XmlEvent::Eof),
    }
}

/// What `quick_xml::escape::unescape` reads escaped text as, where it can.
pub uninterp spec fn unescaped(raw: Seq<char>) -> Option<Seq<char>>;

/// `quick_xml::escape::unescape`: text with its entities decoded, or nothing
/// where one of them cannot be. What entities stand for is only named.
#[verifier::external_body]
fn unescape(raw: &str) -> (r: Option<String>)
    ensures
        (match r {
            Some(text) => unescaped(raw@) == Some(text@),
            None => unescaped(raw@) is None,
        }),
{
    match quick_xml::escape::unescape(raw) {
        Ok(text) => Some(text.into_owned()),
        Err(_) => None,
    }
}

// ---------------------------------------------------------------------------
// Running text

/// A reference as it is written.
pub open spec fn written(name: Seq<char>) -> Seq<char> {
    "&"@ + name + ";"@
}

/// The text that an event is a piece of, as it is written.
pub open spec fn text_piece(event: XmlEventView) -> Option<Seq<char>> {
    match event {
        XmlEventView::Text(raw) => Some(raw),
        XmlEventView::Reference(name) => Some(written(name)),
        _ => None,
    }
}

/// Events with one more, which joins the text before it where both are text.
pub open spec fn with_joined(events: Seq<XmlEventView>, event: XmlEventView) -> Seq<XmlEventView> {
    match text_piece(event) {
        None => events.push(event),
        Some(piece) => if events.len() > 0 && events.last() is Text {
            events.drop_last().push(XmlEventView::Text(events.last()->Text_0 + piece))
        } else {
            events.push(XmlEventView::Text(piece))
        },
    }
}

/// The events of a document with each run of text and references as one text,
/// the white space inside it included: the application will see it whole, so that
/// is what the rules must inspect.
pub open spec fn texts_joined(events: Seq<XmlEventView>) -> Seq<XmlEventView>
    decreases events.len(),
{
    if events.len() == 0 {
        seq![]
    } else {
        with_joined(texts_joined(events.drop_last()), events.last())
    }
}

fn add_text(events: &mut Vec<XmlEvent>, piece: &str)
    ensures
        final(events).deep_view() == with_joined(old(events).deep_view(), XmlEventView::Text(piece@)),
{
    let ghost before = events.deep_view();
    let ghost vec = events@;
    match events.pop() {
        Some(XmlEvent::Text(raw)) => {
            assert(before.last() == XmlEventView::Text(raw@));
            events.push(XmlEvent::Text(joined(raw.as_str(), piece)));
            assert(events.deep_view() =~= before.drop_last().push(
                XmlEventView::Text(raw@ + piece@),
            ));
        },
        Some(other) => {
            assert(before.last() == other.deep_view());
            events.push(other);
            events.push(XmlEvent::Text(piece.to_string()));
            assert(events.deep_view() =~= before.push(XmlEventView::Text(piece@)));
        },
        None => {
            events.push(XmlEvent::Text(piece.to_string()));
            assert(events.deep_view() =~= before.push(XmlEventView::Text(piece@)));
        },
    }
}

/// Add an event to those before it. Text and references that follow each other
/// are one text.
pub fn add_event(events: &mut Vec<XmlEvent>, event: XmlEvent)
    ensures
        final(events).deep_view() == with_joined(old(events).deep_view(), event.deep_view()),
{
    match event {
        XmlEvent::Text(raw) => add_text(events, raw.as_str()),
        XmlEvent::Reference(name) => add_text(events, joined3("&", name.as_str(), ";").as_str()),
        other => {
            let ghost before = events.deep_view();
            let ghost shown = other.deep_view();
            events.push(other);
            assert(events.deep_view() =~= before.push(shown));
        },
    }
}

// ---------------------------------------------------------------------------
// Values

/// What an XML body yields.
#[derive(Debug)]
pub struct XmlValues {
    /// Text content, keyed by the element that held it.
    pub elements: Vec<(String, Vec<u8>)>,
    /// Attribute values, keyed by attribute name.
    pub attributes: Vec<(String, Vec<u8>)>,
}

/// The view of [`XmlValues`].
#[verifier::ext_equal]
pub struct XmlValuesView {
    pub elements: Entries,
    pub attributes: Entries,
}

impl View for XmlValues {
    type V = XmlValuesView;

    open spec fn view(&self) -> XmlValuesView {
        XmlValuesView {
            elements: pairs_view(self.elements@),
            attributes: pairs_view(self.attributes@),
        }
    }
}

impl Default for XmlValues {
    fn default() -> (r: Self)
        ensures
            r@ == (XmlValuesView { elements: seq![], attributes: seq![] }),
    {
        let r = XmlValues { elements: Vec::new(), attributes: Vec::new() };
        assert(r@ =~= (XmlValuesView { elements: seq![], attributes: seq![] }));
        r
    }
}

/// Escaped text with its entities decoded. Text the decoder chokes on is kept
/// raw rather than dropped: a value that cannot be decoded still has to reach the
/// rules.
pub open spec fn decoded(raw: Seq<char>) -> Seq<u8> {
    match unescaped(raw) {
        Some(text) => encode_utf8(text),
        None => encode_utf8(raw),
    }
}

fn unescape_to_bytes(raw: &str) -> (r: Vec<u8>)
    ensures
        r@ == decoded(raw@),
{
    match unescape(raw) {
        Some(text) => bytes_of(text.as_str()),
        None => bytes_of(raw),
    }
}

/// Whether a character is white space to XML.
pub open spec fn is_blank(c: char) -> bool {
    c == ' ' || c == '\t' || c == '\r' || c == '\n'
}

/// Text without the white space in front of it.
pub open spec fn without_blanks_before(s: Seq<char>) -> Seq<char>
    decreases s.len(),
{
    if s.len() > 0 && is_blank(s[0]) {
        without_blanks_before(s.drop_first())
    } else {
        s
    }
}

/// Text without the white space behind it.
pub open spec fn without_blanks_behind(s: Seq<char>) -> Seq<char>
    decreases s.len(),
{
    if s.len() > 0 && is_blank(s.last()) {
        without_blanks_behind(s.drop_last())
    } else {
        s
    }
}

/// Text without the white space around it, as it is written: white space that is
/// written as a reference stays.
pub open spec fn without_blanks(s: Seq<char>) -> Seq<char> {
    without_blanks_behind(without_blanks_before(s))
}

fn blank(c: char) -> (r: bool)
    ensures
        r == is_blank(c),
{
    c == ' ' || c == '\t' || c == '\r' || c == '\n'
}

fn trim_blanks(s: &[char]) -> (r: &[char])
    ensures
        r@ == without_blanks(s@),
{
    let mut i: usize = 0;
    assert(s@.skip(0) =~= s@);
    while i < s.len() && blank(s[i])
        invariant
            i <= s@.len(),
            without_blanks_before(s@) == without_blanks_before(s@.skip(i as int)),
        decreases s@.len() - i,
    {
        assert(s@.skip(i as int).drop_first() =~= s@.skip(i + 1));
        i += 1;
    }
    let rest = from(s, i);
    let mut n: usize = rest.len();
    assert(rest@.take(n as int) =~= rest@);
    while n > 0 && blank(rest[n - 1])
        invariant
            n <= rest@.len(),
            without_blanks_behind(rest@) == without_blanks_behind(rest@.take(n as int)),
        decreases n,
    {
        assert(rest@.take(n as int).drop_last() =~= rest@.take(n - 1));
        n -= 1;
    }
    before(rest, n)
}

/// The values of the attributes that can be read.
pub open spec fn attribute_values(attributes: Seq<AttributeView>) -> Entries
    decreases attributes.len(),
{
    if attributes.len() == 0 {
        seq![]
    } else {
        let before = attribute_values(attributes.drop_last());
        match attributes.last() {
            Some((name, value)) => before.push((name, decoded(value))),
            None => before,
        }
    }
}

/// How far the events of a document have been read: the elements that are open,
/// and the values so far.
#[verifier::ext_equal]
pub struct XmlProgress {
    pub path: Seq<Seq<char>>,
    pub values: XmlValuesView,
}

/// The element that holds a text; outside any, it is the root.
pub open spec fn holder(path: Seq<Seq<char>>) -> Seq<char> {
    if path.len() == 0 {
        "/"@
    } else {
        path.last()
    }
}

/// The values with one more text; an empty one does not count.
pub open spec fn with_text(p: XmlProgress, text: Seq<u8>) -> XmlProgress {
    if text.len() == 0 {
        p
    } else {
        XmlProgress {
            values: XmlValuesView {
                elements: p.values.elements.push((holder(p.path), text)),
                ..p.values
            },
            ..p
        }
    }
}

/// The values with those of some attributes.
pub open spec fn with_attributes(p: XmlProgress, attributes: Seq<AttributeView>) -> XmlProgress {
    XmlProgress {
        values: XmlValuesView {
            attributes: p.values.attributes + attribute_values(attributes),
            ..p.values
        },
        ..p
    }
}

/// The progress after one more event.
pub open spec fn with_event(p: XmlProgress, event: XmlEventView) -> XmlProgress {
    match event {
        XmlEventView::Start(name, attributes) => XmlProgress {
            path: p.path.push(name),
            ..with_attributes(p, attributes)
        },
        XmlEventView::Empty(_, attributes) => with_attributes(p, attributes),
        XmlEventView::End => if p.path.len() == 0 {
            p
        } else {
            XmlProgress { path: p.path.drop_last(), ..p }
        },
        XmlEventView::Text(raw) => with_text(p, decoded(without_blanks(raw))),
        XmlEventView::Reference(name) => with_text(p, decoded(written(name))),
        XmlEventView::CData(text) => with_text(p, encode_utf8(text)),
        XmlEventView::Other => p,
        XmlEventView::Eof => p,
    }
}

/// The progress after some events, in order.
pub open spec fn with_events(events: Seq<XmlEventView>) -> XmlProgress
    decreases events.len(),
{
    if events.len() == 0 {
        XmlProgress {
            path: seq![],
            values: XmlValuesView { elements: seq![], attributes: seq![] },
        }
    } else {
        with_event(with_events(events.drop_last()), events.last())
    }
}

fn collect_attributes(attributes: &Vec<RawAttribute>, out: &mut Vec<(String, Vec<u8>)>)
    ensures
        pairs_view(final(out)@) == pairs_view(old(out)@) + attribute_values(
            attributes_view(attributes@),
        ),
{
    let ghost start = pairs_view(out@);
    let ghost all = attributes_view(attributes@);
    let mut i: usize = 0;
    assert(all.take(0) =~= seq![]);
    assert(start + attribute_values(all.take(0)) =~= start);
    while i < attributes.len()
        invariant
            i <= attributes@.len(),
            all == attributes_view(attributes@),
            pairs_view(out@) == start + attribute_values(all.take(i as int)),
        decreases attributes@.len() - i,
    {
        let ghost done = pairs_view(out@);
        assert(all.take(i + 1).drop_last() =~= all.take(i as int));
        assert(all.take(i + 1).last() == all[i as int]);
        if let Some((name, value)) = &attributes[i] {
            out.push((name.clone(), unescape_to_bytes(value.as_str())));
            assert(pairs_view(out@) =~= done.push((name@, decoded(value@))));
            assert(pairs_view(out@) =~= start + attribute_values(all.take(i + 1)));
        }
        i += 1;
    }
    assert(all.take(i as int) =~= all);
}

fn holder_of(path: &Vec<String>) -> (r: String)
    ensures
        r@ == holder(path.deep_view()),
{
    if path.len() == 0 {
        "/".to_string()
    } else {
        path[path.len() - 1].clone()
    }
}

/// The values that the events of a document yield.
pub fn values_of(events: &Vec<XmlEvent>) -> (r: XmlValues)
    ensures
        r@ == with_events(events.deep_view()).values,
{
    let ghost all = events.deep_view();
    let mut values = XmlValues::default();
    let mut path: Vec<String> = Vec::new();
    let mut i: usize = 0;
    assert(path.deep_view() =~= seq![]);
    assert(all.take(0) =~= seq![]);
    while i < events.len()
        invariant
            i <= events@.len(),
            all == events.deep_view(),
            with_events(all.take(i as int)) == (XmlProgress {
                path: path.deep_view(),
                values: values@,
            }),
        decreases events@.len() - i,
    {
        let ghost before = with_events(all.take(i as int));
        assert(all.take(i + 1).drop_last() =~= all.take(i as int));
        assert(all.take(i + 1).last() == events@[i as int].deep_view());
        match &events[i] {
            XmlEvent::Start(name, attributes) => {
                collect_attributes(attributes, &mut values.attributes);
                path.push(name.clone());
                assert(path.deep_view() =~= before.path.push(name@));
            },
            XmlEvent::Empty(_, attributes) => {
                collect_attributes(attributes, &mut values.attributes);
            },
            XmlEvent::End => {
                if path.len() > 0 {
                    let _ = path.pop();
                    assert(path.deep_view() =~= before.path.drop_last());
                }
            },
            XmlEvent::Text(raw) => {
                let chars = chars_of(raw.as_str());
                let text = unescape_to_bytes(string_of(trim_blanks(chars.as_slice())).as_str());
                if text.len() > 0 {
                    let ghost shown = text@;
                    values.elements.push((holder_of(&path), text));
                    assert(pairs_view(values.elements@) =~= before.values.elements.push(
                        (holder(before.path), shown),
                    ));
                }
            },
            XmlEvent::Reference(name) => {
                let text = unescape_to_bytes(joined3("&", name.as_str(), ";").as_str());
                if text.len() > 0 {
                    let ghost shown = text@;
                    values.elements.push((holder_of(&path), text));
                    assert(pairs_view(values.elements@) =~= before.values.elements.push(
                        (holder(before.path), shown),
                    ));
                }
            },
            XmlEvent::CData(raw) => {
                let text = bytes_of(raw.as_str());
                if text.len() > 0 {
                    let ghost shown = text@;
                    values.elements.push((holder_of(&path), text));
                    assert(pairs_view(values.elements@) =~= before.values.elements.push(
                        (holder(before.path), shown),
                    ));
                }
            },
            XmlEvent::Other => {},
            XmlEvent::Eof => {},
        }
        assert(with_events(all.take(i + 1)) =~= (XmlProgress {
            path: path.deep_view(),
            values: values@,
        }));
        i += 1;
    }
    assert(all.take(i as int) =~= all);
    values
}

/// The events before the one that ends the document.
pub open spec fn events_before_the_end(events: Seq<EventOrError>) -> Seq<XmlEventView> {
    Seq::new((events.len() - 1) as nat, |i: int| events[i]->Ok_0)
}

/// Parse an XML body.
///
/// Returns an error message when the document is malformed, which the caller
/// surfaces as `REQBODY_ERROR`. Refusing a body the parser cannot understand
/// is the safe direction: the alternative is inspecting nothing and calling it
/// clean.
pub fn parse(body: &[u8]) -> (r: Result<XmlValues, String>)
    ensures
        ({
            let events = document_events(body@, false, false);
            match events.last() {
                Ok(_) => r is Ok && r->Ok_0@ == with_events(
                    texts_joined(events_before_the_end(events)),
                ).values,
                Err(reason) => r is Err && r->Err_0@ == "malformed XML: "@ + reason,
            }
        }),
{
    let mut reader = open_document(body, false, false);
    let ghost all = document_events(body@, false, false);
    let ghost whole = events_before_the_end(all);
    let mut events: Vec<XmlEvent> = Vec::new();
    let ghost mut n: int = 0;
    assert(all.skip(0) =~= all);
    assert(whole.take(0) =~= seq![]);
    assert(events.deep_view() =~= seq![]);
    loop
        invariant
            all == document_events(body@, false, false),
            whole == events_before_the_end(all),
            ends_once(all),
            0 <= n < all.len(),
            pending_events(reader) == all.skip(n),
            events.deep_view() == texts_joined(whole.take(n)),
        decreases all.len() - n,
    {
        assert(all.skip(n)[0] == all[n]);
        assert(all.skip(n).drop_first() =~= all.skip(n + 1));
        match read_event(&mut reader) {
            Err(e) => {
                assert(is_last(all[n]));
                return Err(joined("malformed XML: ", e.as_str()));
            },
            Ok(event) => {
                if let XmlEvent::Eof = &event {
                    assert(is_last(all[n]));
                    assert(whole.take(n) =~= whole);
                    return Ok(values_of(&events));
                }
                assert(!is_last(all[n]));
                assert(whole[n] == event.deep_view());
                assert(whole.take(n + 1).drop_last() =~= whole.take(n));
                add_event(&mut events, event);
                proof {
                    n = n + 1;
                }
            },
        }
    }
}

// ---------------------------------------------------------------------------
// Laws

/// What a document yields before its last event stays in what the whole yields:
/// reading on only adds values.
pub proof fn reading_on_only_adds_values(events: Seq<XmlEventView>, n: int)
    requires
        0 <= n <= events.len(),
    ensures
        ({
            let early = with_events(events.take(n)).values;
            let whole = with_events(events).values;
            &&& early.elements.is_prefix_of(whole.elements)
            &&& early.attributes.is_prefix_of(whole.attributes)
        }),
    decreases events.len(),
{
    let early = with_events(events.take(n)).values;
    let whole = with_events(events).values;
    if n == events.len() {
        assert(events.take(n) =~= events);
        assert(early.elements =~= whole.elements.subrange(0, early.elements.len() as int));
        assert(early.attributes =~= whole.attributes.subrange(0, early.attributes.len() as int));
    } else {
        let shorter = events.drop_last();
        let before = with_events(shorter).values;
        assert(shorter.take(n) =~= events.take(n));
        reading_on_only_adds_values(shorter, n);
        let a = early.elements.len() as int;
        let b = early.attributes.len() as int;
        assert(early.elements =~= before.elements.subrange(0, a));
        assert(early.attributes =~= before.attributes.subrange(0, b));
        assert(before.elements.subrange(0, a) =~= whole.elements.subrange(0, a));
        assert(before.attributes.subrange(0, b) =~= whole.attributes.subrange(0, b));
    }
}

/// No reference is left on its own and no text is in two pieces, so a payload
/// cannot hide by writing its characters as references.
pub proof fn text_is_whole(events: Seq<XmlEventView>)
    ensures
        forall|i: int| 0 <= i < texts_joined(events).len() ==> texts_joined(events)[i] !is Reference,
        forall|i: int|
            0 <= i < texts_joined(events).len() - 1 ==> !(#[trigger] texts_joined(events)[i] is Text
                && texts_joined(events)[i + 1] is Text),
    decreases events.len(),
{
    if events.len() > 0 {
        text_is_whole(events.drop_last());
    }
}

/// No empty text is kept: a value that a rule inspects in an element has content.
pub proof fn element_values_have_content(events: Seq<XmlEventView>, i: int)
    requires
        0 <= i < with_events(events).values.elements.len(),
    ensures
        with_events(events).values.elements[i].1.len() > 0,
    decreases events.len(),
{
    if events.len() > 0 {
        let before = with_events(events.drop_last()).values;
        if i < before.elements.len() {
            element_values_have_content(events.drop_last(), i);
        }
    }
}

} // verus!
