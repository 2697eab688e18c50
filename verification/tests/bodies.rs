//! JSON, XML and multipart bodies.

use parapet::json::{arguments_of, flatten, Json};
use parapet::multipart::{boundary_of, parse as parse_multipart};
use parapet::xml::{add_event, parse as parse_xml, values_of, XmlEvent};

fn shown(pairs: &[(String, Vec<u8>)]) -> Vec<(String, String)> {
    pairs
        .iter()
        .map(|(n, v)| (n.clone(), String::from_utf8_lossy(v).into_owned()))
        .collect()
}

fn pair(name: &str, value: &str) -> (String, String) {
    (name.to_string(), value.to_string())
}

#[test]
fn every_scalar_of_a_document_becomes_an_argument() {
    let document = Json::Object(vec![
        (
            "a".to_string(),
            Json::Array(vec![Json::Bool(false), Json::Null, Json::Array(vec![])]),
        ),
        ("b".to_string(), Json::Number("1.5".to_string())),
        ("".to_string(), Json::Text("t".to_string())),
    ]);
    assert_eq!(
        shown(&arguments_of(&document)),
        [
            pair("json.a.0", "false"),
            pair("json.a.1", ""),
            pair("json.b", "1.5"),
            pair("json.", "t"),
        ]
    );
}

#[test]
fn keys_are_sorted_and_the_last_of_equal_ones_counts() {
    let out = flatten(br#"{"b":1,"a":{"z":1,"y":-2.50},"b":3}"#).unwrap();
    assert_eq!(
        shown(&out),
        [
            pair("json.a.y", "-2.5"),
            pair("json.a.z", "1"),
            pair("json.b", "3"),
        ]
    );
    assert!(flatten(b"[1,").unwrap_err().starts_with("malformed JSON: "));
}

#[test]
fn events_of_a_document_yield_its_values() {
    let events = vec![
        XmlEvent::Start(
            "a".to_string(),
            vec![
                Some(("k".to_string(), "&amp;".to_string())),
                None,
                Some(("l".to_string(), "&bad".to_string())),
            ],
        ),
        XmlEvent::Text("x".to_string()),
        XmlEvent::Empty("b".to_string(), vec![Some(("m".to_string(), "1".to_string()))]),
        XmlEvent::Other,
        XmlEvent::End,
        XmlEvent::End,
        XmlEvent::CData("<&".to_string()),
        XmlEvent::Text("".to_string()),
        XmlEvent::Eof,
    ];
    let values = values_of(&events);
    assert_eq!(shown(&values.elements), [pair("a", "x"), pair("/", "<&")]);
    assert_eq!(
        shown(&values.attributes),
        [pair("k", "&"), pair("l", "&bad"), pair("m", "1")]
    );
}

#[test]
fn text_and_references_are_one_value() {
    let values = parse_xml(b"<a>x&lt;script&gt;&#121;<b/>&amp;<!-- c -->&quot;</a>").unwrap();
    assert_eq!(
        shown(&values.elements),
        [pair("a", "x<script>y"), pair("a", "&"), pair("a", "\"")]
    );
    // Out of the Unicode range, so kept as written.
    let values = parse_xml(b"<a>x&#x11FFFF;y</a>").unwrap();
    assert_eq!(shown(&values.elements), [pair("a", "x&#x11FFFF;y")]);

    let mut events = Vec::new();
    for event in [
        XmlEvent::Reference("lt".to_string()),
        XmlEvent::Text("a".to_string()),
        XmlEvent::Text("b".to_string()),
        XmlEvent::Other,
        XmlEvent::Text("c".to_string()),
        XmlEvent::Reference("gt".to_string()),
    ] {
        add_event(&mut events, event);
    }
    assert_eq!(events.len(), 3);
    assert!(matches!(&events[0], XmlEvent::Text(raw) if raw == "&lt;ab"));
    assert!(matches!(&events[2], XmlEvent::Text(raw) if raw == "c&gt;"));
    assert_eq!(
        shown(&values_of(&events).elements),
        [pair("/", "<ab"), pair("/", "c>")]
    );
    let lone = vec![XmlEvent::Reference("amp".to_string())];
    assert_eq!(shown(&values_of(&lone).elements), [pair("/", "&")]);
}

#[test]
fn white_space_inside_a_text_is_kept() {
    let values = parse_xml(b"<a> 1 &lt; 2\n</a><b>\t</b><c> x <d/> y</c>").unwrap();
    assert_eq!(
        shown(&values.elements),
        [pair("a", "1 < 2"), pair("c", "x"), pair("c", "y")]
    );
    // White space that is written as a reference is not around the text.
    let values = parse_xml(b"<a> &#32;x </a>").unwrap();
    assert_eq!(shown(&values.elements), [pair("a", " x")]);
}

#[test]
fn headers_end_at_the_first_blank_line() {
    let m = parse_multipart(b"--b\nA: b\n\nx\r\n\r\ny\n--b--", "b").unwrap();
    assert_eq!(shown(&m.parts[0].header_lines), [pair("A", "A: b")]);
    assert_eq!(m.parts[0].content, b"x\r\n\r\ny");
    let m = parse_multipart(b"--b\r\nA: b\r\n\r\nx\n\ny\r\n--b--", "b").unwrap();
    assert_eq!(shown(&m.parts[0].header_lines), [pair("A", "A: b")]);
    assert_eq!(m.parts[0].content, b"x\n\ny");
}

#[test]
fn reading_on_only_adds_values() {
    let short = parse_xml(b"<r><a x='1'>one</a></r>").unwrap();
    let long = parse_xml(b"<r><a x='1'>one</a><b y='2'>two</b></r>").unwrap();
    assert_eq!(short.elements[..], long.elements[..short.elements.len()]);
    assert_eq!(
        short.attributes[..],
        long.attributes[..short.attributes.len()]
    );
    assert!(long.elements.iter().all(|(_, v)| !v.is_empty()));
}

#[test]
fn end_tags_need_not_match() {
    let values = parse_xml(b"<a>x</b>").unwrap();
    assert_eq!(shown(&values.elements), [pair("a", "x")]);
    assert!(parse_xml(b"<a").unwrap_err().starts_with("malformed XML: "));
}

#[test]
fn parts_stand_in_the_body_as_they_are() {
    let body = b"--B\r\nX: 1\r\nno colon\r\n\r\n\x00\xff\r\n--B\r\nY: 2\r\n\r\nsecond\n--B--\r\nepilogue --B\r\n";
    let parts = parse_multipart(body, "B").unwrap().parts;
    assert_eq!(parts.len(), 2);
    assert_eq!(parts[0].content, b"\x00\xff");
    assert_eq!(parts[1].content, b"second");
    assert_eq!(
        parts[0].header_lines,
        vec![
            ("X".to_string(), b"X: 1".to_vec()),
            ("".to_string(), b"no colon".to_vec()),
        ]
    );
    for part in &parts {
        assert!(body.windows(part.content.len().max(1)).any(|w| w == part.content));
        assert!(!part.content.windows(3).any(|w| w == b"--B"));
    }
}

#[test]
fn multipart_errors_say_what_is_missing() {
    assert_eq!(
        parse_multipart(b"nothing", "B").unwrap_err(),
        "no boundary found in multipart body"
    );
    assert_eq!(
        parse_multipart(b"--B--", "B").unwrap_err(),
        "multipart body contains no parts"
    );
}

#[test]
fn a_later_disposition_overrides() {
    let body = b"--B\nContent-Disposition: form-data; name=a; filename=f\ncontent-disposition: form-data; NAME=x; name=\"b\n\nv\n--B--";
    let part = &parse_multipart(body, "B").unwrap().parts[0];
    assert_eq!(part.name.as_deref(), Some("b"));
    assert_eq!(part.filename, None);
}

#[test]
fn boundaries_are_read_up_to_a_parameter_without_a_value() {
    assert_eq!(boundary_of("m/f; a=1; BOUNDARY = x y ").as_deref(), Some("x y"));
    assert_eq!(boundary_of("m/f; flag; boundary=x"), None);
    assert_eq!(boundary_of("m/f; boundary=\"").as_deref(), Some("\""));
    assert_eq!(boundary_of("m/f; boundary=\"\""), None);
}

#[test]
fn what_follows_the_closing_delimiter_is_ignored() {
    let head = b"--b\r\nA: 1\r\n\r\nx\r\n--b--".to_vec();
    let mut whole = head.clone();
    whole.extend_from_slice(b"\r\n--b\r\nB: 2\r\n\r\ny\r\n--b--");
    let short = parse_multipart(&head, "b").unwrap();
    let long = parse_multipart(&whole, "b").unwrap();
    assert_eq!(short.parts.len(), 1);
    assert_eq!(long.parts.len(), 1);
    assert_eq!(long.parts[0].content, short.parts[0].content);
}
