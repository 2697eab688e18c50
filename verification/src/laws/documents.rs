//! Which values an XML document yields: its text under the element that holds it,
//! and its attributes.

use crate::xml::attribute_values;
use crate::xml::decoded;
use crate::xml::texts_joined;
use crate::xml::unescaped;
use crate::xml::with_event;
use crate::xml::with_events;
use crate::xml::without_blanks;
use crate::xml::without_blanks_before;
use crate::xml::without_blanks_behind;
use crate::xml::AttributeView;
use crate::xml::XmlEventView;
use crate::xml::XmlProgress;
use crate::xml::XmlValuesView;
use vstd::prelude::*;
use vstd::utf8::encode_utf8;

verus! {

/// A document that has not been read yet.
pub open spec fn unread() -> XmlProgress {
    XmlProgress { path: seq![], values: XmlValuesView { elements: seq![], attributes: seq![] } }
}

/// A document is read event by event.
pub proof fn documents_are_read_in_order(before: Seq<XmlEventView>, last: XmlEventView)
    ensures
        with_events(Seq::<XmlEventView>::empty()) == unread(),
        with_events(before + seq![last]) == with_event(with_events(before), last),
{
    let all = before + seq![last];
    assert(all.drop_last() =~= before);
    assert(all.last() == last);
}

/// An element opens and is closed again; an empty one does neither. The attributes
/// of either are kept.
pub proof fn elements_open_and_close(p: XmlProgress, name: Seq<char>, attributes: Seq<AttributeView>)
    ensures
        ({
            let opened = with_event(p, XmlEventView::Start(name, attributes));
            let closed = with_event(opened, XmlEventView::End);
            let empty = with_event(p, XmlEventView::Empty(name, attributes));
            &&& opened.path == p.path + seq![name]
            &&& opened.values.elements == p.values.elements
            &&& opened.values.attributes == p.values.attributes + attribute_values(attributes)
            &&& closed.path == p.path
            &&& closed.values == opened.values
            &&& empty.path == p.path
            &&& empty.values == opened.values
            &&& p.path.len() == 0 ==> with_event(p, XmlEventView::End) == p
        }),
{
    assert(p.path.push(name) =~= p.path + seq![name]);
    assert(p.path.push(name).drop_last() =~= p.path);
}

/// The attributes that can be read are kept in order, each under its name with its
/// entities decoded.
pub proof fn attributes_are_kept(
    before: Seq<AttributeView>,
    name: Seq<char>,
    value: Seq<char>,
)
    ensures
        attribute_values(Seq::<AttributeView>::empty()).len() == 0,
        attribute_values(before + seq![None::<(Seq<char>, Seq<char>)>]) == attribute_values(before),
        unescaped(value) matches Some(text) ==> attribute_values(
            before + seq![Some((name, value))],
        ) == attribute_values(before) + seq![(name, encode_utf8(text))],
        unescaped(value) is None ==> attribute_values(before + seq![Some((name, value))])
            == attribute_values(before) + seq![(name, encode_utf8(value))],
{
    let none = before + seq![None::<(Seq<char>, Seq<char>)>];
    assert(none.drop_last() =~= before);
    assert(none.last() is None);
    let some = before + seq![Some((name, value))];
    assert(some.drop_last() =~= before);
    assert(some.last() == Some((name, value)));
    assert(attribute_values(before).push((name, decoded(value))) =~= attribute_values(before)
        + seq![(name, decoded(value))]);
}

/// Whether a character is white space to XML.
pub open spec fn is_xml_blank(c: char) -> bool {
    c == ' ' || c == '\t' || c == '\r' || c == '\n'
}

/// Whether a text is white space throughout.
pub open spec fn all_xml_blank(s: Seq<char>) -> bool {
    forall|i: int| 0 <= i < s.len() ==> is_xml_blank(#[trigger] s[i])
}

proof fn lemma_before(a: Seq<char>, s: Seq<char>)
    requires
        all_xml_blank(a),
        s.len() == 0 || !is_xml_blank(s[0]),
    ensures
        without_blanks_before(a + s) == s,
    decreases a.len(),
{
    if a.len() == 0 {
        assert(a + s =~= s);
    } else {
        assert(is_xml_blank(a[0]) && (a + s)[0] == a[0]);
        assert((a + s).drop_first() =~= a.drop_first() + s);
        assert forall|i: int| 0 <= i < a.drop_first().len() implies is_xml_blank(
            #[trigger] a.drop_first()[i],
        ) by {
            assert(is_xml_blank(a[i + 1]));
        }
        lemma_before(a.drop_first(), s);
    }
}

proof fn lemma_behind(s: Seq<char>, b: Seq<char>)
    requires
        all_xml_blank(b),
        s.len() == 0 || !is_xml_blank(s.last()),
    ensures
        without_blanks_behind(s + b) == s,
    decreases b.len(),
{
    if b.len() == 0 {
        assert(s + b =~= s);
    } else {
        assert(is_xml_blank(b[b.len() - 1]) && (s + b).last() == b.last());
        assert((s + b).drop_last() =~= s + b.drop_last());
        assert forall|i: int| 0 <= i < b.drop_last().len() implies is_xml_blank(
            #[trigger] b.drop_last()[i],
        ) by {
            assert(is_xml_blank(b[i]));
        }
        lemma_behind(s, b.drop_last());
    }
}

/// A text is one value of the element that it stands in, or of the root, the white
/// space around it taken off and its entities decoded; white space alone is none.
/// Character data is kept as it stands.
pub proof fn texts_are_values_of_their_element(
    p: XmlProgress,
    a: Seq<char>,
    text: Seq<char>,
    plain: Seq<char>,
    b: Seq<char>,
)
    requires
        all_xml_blank(a) && all_xml_blank(b),
        text.len() > 0 && !is_xml_blank(text[0]) && !is_xml_blank(text.last()),
        unescaped(text) == Some(plain),
        plain.len() > 0,
    ensures
        ({
            let element = if p.path.len() > 0 {
                p.path.last()
            } else {
                seq!['/']
            };
            let read = with_event(p, XmlEventView::Text(a + text + b));
            let data = with_event(p, XmlEventView::CData(text));
            &&& read.values.elements == p.values.elements + seq![(element, encode_utf8(plain))]
            &&& read.values.attributes == p.values.attributes
            &&& read.path == p.path
            &&& data.values.elements == p.values.elements + seq![(element, encode_utf8(text))]
            &&& data.path == p.path && data.values.attributes == p.values.attributes
            &&& decoded(Seq::<char>::empty()).len() == 0 ==> with_event(
                p,
                XmlEventView::Text(a),
            ) == p
            &&& with_event(p, XmlEventView::Other) == p
        }),
{
    reveal_strlit("/");
    assert("/"@ =~= seq!['/']);
    assert(a + text + b =~= a + (text + b));
    lemma_before(a, text + b);
    lemma_behind(text, b);
    crate::bytes::lemma_encode_nonempty(plain);
    crate::bytes::lemma_encode_nonempty(text);
    let element = if p.path.len() > 0 {
        p.path.last()
    } else {
        seq!['/']
    };
    assert(p.values.elements.push((element, encode_utf8(plain))) =~= p.values.elements + seq![
        (element, encode_utf8(plain)),
    ]);
    assert(p.values.elements.push((element, encode_utf8(text))) =~= p.values.elements + seq![
        (element, encode_utf8(text)),
    ]);
    let none = Seq::<char>::empty();
    lemma_before(a, none);
    assert(a + none =~= a);
    assert(without_blanks(a) =~= none);
}

/// What is no text stands for itself, and text behind it starts anew.
pub proof fn other_events_part_texts(before: Seq<XmlEventView>, other: XmlEventView, text: Seq<char>)
    requires
        !(other is Text) && !(other is Reference),
    ensures
        texts_joined(Seq::<XmlEventView>::empty()).len() == 0,
        texts_joined(before + seq![other]) == texts_joined(before) + seq![other],
        texts_joined(before).len() == 0 || !(texts_joined(before).last() is Text) ==> texts_joined(
            before + seq![XmlEventView::Text(text)],
        ) == texts_joined(before) + seq![XmlEventView::Text(text)],
{
    let joined = texts_joined(before);
    let one = before + seq![other];
    assert(one.drop_last() =~= before);
    assert(one.last() == other);
    assert(joined.push(other) =~= joined + seq![other]);
    let two = before + seq![XmlEventView::Text(text)];
    assert(two.drop_last() =~= before);
    assert(two.last() == XmlEventView::Text(text));
    assert(joined.push(XmlEventView::Text(text)) =~= joined + seq![XmlEventView::Text(text)]);
}

/// Text and references that follow each other are one text, as they are written.
pub proof fn pieces_of_text_are_joined(
    before: Seq<XmlEventView>,
    joined: Seq<XmlEventView>,
    first: Seq<char>,
    more: Seq<char>,
)
    requires
        texts_joined(before) == joined + seq![XmlEventView::Text(first)],
    ensures
        texts_joined(before + seq![XmlEventView::Text(more)]) == joined + seq![
            XmlEventView::Text(first + more),
        ],
        texts_joined(before + seq![XmlEventView::Reference(more)]) == joined + seq![
            XmlEventView::Text(first + (seq!['&'] + more + seq![';'])),
        ],
{
    reveal_strlit("&");
    reveal_strlit(";");
    assert("&"@ =~= seq!['&']);
    assert(";"@ =~= seq![';']);
    let all = joined + seq![XmlEventView::Text(first)];
    assert(all.last() == XmlEventView::Text(first));
    assert(all.drop_last() =~= joined);
    let text = before + seq![XmlEventView::Text(more)];
    assert(text.drop_last() =~= before);
    assert(text.last() == XmlEventView::Text(more));
    let grown = XmlEventView::Text(first + more);
    assert(joined.push(grown) =~= joined + seq![grown]);
    let reference = before + seq![XmlEventView::Reference(more)];
    assert(reference.drop_last() =~= before);
    assert(reference.last() == XmlEventView::Reference(more));
    let spelled = XmlEventView::Text(first + (seq!['&'] + more + seq![';']));
    assert(joined.push(spelled) =~= joined + seq![spelled]);
}

} // verus!
