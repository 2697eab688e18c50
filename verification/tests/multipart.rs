use parapet::multipart::{boundary_of, parse};

const B: &str = "----WebKitFormBoundaryABC";

fn body(parts: &str) -> Vec<u8> {
    parts.replace('\n', "\r\n").into_bytes()
}

#[test]
fn reads_the_boundary_from_a_content_type() {
    assert_eq!(
        boundary_of("multipart/form-data; boundary=abc123").as_deref(),
        Some("abc123")
    );
    assert_eq!(
        boundary_of(r#"multipart/form-data; boundary="quoted""#).as_deref(),
        Some("quoted")
    );
    assert_eq!(boundary_of("multipart/form-data"), None);
    assert_eq!(boundary_of("multipart/form-data; boundary="), None);
}

#[test]
fn parses_a_simple_field() {
    let raw = body(&format!(
        "--{B}\nContent-Disposition: form-data; name=\"field\"\n\nvalue\n--{B}--\n"
    ));
    let m = parse(&raw, B).unwrap();
    assert_eq!(m.parts.len(), 1);
    assert_eq!(m.parts[0].name.as_deref(), Some("field"));
    assert_eq!(m.parts[0].content, b"value");
    assert!(m.parts[0].filename.is_none());
}

#[test]
fn parses_a_file_upload() {
    let raw = body(&format!(
        "--{B}\nContent-Disposition: form-data; name=\"upload\"; filename=\"evil.php\"\nContent-Type: application/x-php\n\n<?php ?>\n--{B}--\n"
    ));
    let m = parse(&raw, B).unwrap();
    assert_eq!(m.parts[0].name.as_deref(), Some("upload"));
    assert_eq!(m.parts[0].filename.as_deref(), Some("evil.php"));
    assert_eq!(m.parts[0].content, b"<?php ?>");
    assert_eq!(m.parts[0].header_lines.len(), 2);
}

#[test]
fn parses_several_parts() {
    let raw = body(&format!(
        "--{B}\nContent-Disposition: form-data; name=\"a\"\n\n1\n--{B}\nContent-Disposition: form-data; name=\"b\"\n\n2\n--{B}--\n"
    ));
    let m = parse(&raw, B).unwrap();
    assert_eq!(m.parts.len(), 2);
    assert_eq!(m.parts[1].name.as_deref(), Some("b"));
    assert_eq!(m.parts[1].content, b"2");
}

#[test]
fn a_filename_containing_a_quote_survives_intact() {
    // This is the bypass rule 920120 looks for. Normalising the filename
    // here would hide it from the rule.
    let raw = body(&format!(
        "--{B}\nContent-Disposition: form-data; name=\"f\"; filename=\"a\"b.php\"\n\nx\n--{B}--\n"
    ));
    let m = parse(&raw, B).unwrap();
    assert_eq!(m.parts[0].filename.as_deref(), Some("a"));
    // The raw header line still carries the whole thing for rules that
    // inspect MULTIPART_PART_HEADERS.
    let line = String::from_utf8_lossy(&m.parts[0].header_lines[0].1).into_owned();
    assert!(line.contains(r#"filename="a"b.php""#));
}

#[test]
fn header_lines_keep_their_name_in_the_value() {
    // CRS matches `^content-type\s*:\s*(.*)$` against the value.
    let raw = body(&format!(
        "--{B}\nContent-Disposition: form-data; name=\"f\"\nContent-Type: text/plain\n\nx\n--{B}--\n"
    ));
    let m = parse(&raw, B).unwrap();
    let (name, value) = &m.parts[0].header_lines[1];
    assert_eq!(name, "Content-Type");
    assert_eq!(value, b"Content-Type: text/plain");
}

#[test]
fn a_header_line_with_no_colon_is_kept() {
    // Rule 922130 looks for exactly this malformation.
    let raw = body(&format!(
        "--{B}\nContent-Disposition: form-data; name=\"f\"\nnot a header\n\nx\n--{B}--\n"
    ));
    let m = parse(&raw, B).unwrap();
    assert!(m.parts[0]
        .header_lines
        .iter()
        .any(|(name, value)| name.is_empty() && value == b"not a header"));
}

#[test]
fn tolerates_bare_line_feeds() {
    let raw = format!("--{B}\nContent-Disposition: form-data; name=\"f\"\n\nvalue\n--{B}--\n")
        .into_bytes();
    let m = parse(&raw, B).unwrap();
    assert_eq!(m.parts[0].content, b"value");
}

#[test]
fn a_body_with_no_boundary_is_an_error() {
    assert!(parse(b"just some bytes", B).is_err());
}

#[test]
fn a_body_with_no_parts_is_an_error() {
    let raw = body(&format!("--{B}--\n"));
    assert!(parse(&raw, B).is_err());
}

#[test]
fn an_unterminated_body_still_yields_its_parts() {
    // The closing delimiter is missing; the payload is still there.
    let raw = body(&format!(
        "--{B}\nContent-Disposition: form-data; name=\"f\"\n\npayload\n"
    ));
    let m = parse(&raw, B).unwrap();
    assert_eq!(m.parts.len(), 1);
    assert!(String::from_utf8_lossy(&m.parts[0].content).contains("payload"));
}

#[test]
fn an_unquoted_filename_parameter_is_read_to_the_next_separator() {
    let raw = body(&format!(
        "--{B}\nContent-Disposition: form-data; name=f; filename=bare.txt\n\nx\n--{B}--\n"
    ));
    let m = parse(&raw, B).unwrap();
    assert_eq!(m.parts[0].name.as_deref(), Some("f"));
    assert_eq!(m.parts[0].filename.as_deref(), Some("bare.txt"));
}

#[test]
fn a_parameter_name_inside_a_longer_word_is_not_matched() {
    // `xfilename=` must not be read as `filename=`.
    let raw = body(&format!(
        "--{B}\nContent-Disposition: form-data; xfilename=\"trick\"; name=\"real\"\n\nx\n--{B}--\n"
    ));
    let m = parse(&raw, B).unwrap();
    assert_eq!(m.parts[0].name.as_deref(), Some("real"));
    assert!(m.parts[0].filename.is_none());
}

#[test]
fn an_unterminated_quoted_filename_takes_what_is_there() {
    let raw = body(&format!(
        "--{B}\nContent-Disposition: form-data; name=\"f\"; filename=\"open\n\nx\n--{B}--\n"
    ));
    let m = parse(&raw, B).unwrap();
    assert_eq!(m.parts[0].filename.as_deref(), Some("open"));
}

#[test]
fn a_part_with_no_header_separator_has_no_body() {
    let raw = body(&format!("--{B}\nleftover-no-blank-line\n--{B}--\n"));
    let m = parse(&raw, B).unwrap();
    assert_eq!(m.parts.len(), 1);
    assert!(m.parts[0].content.is_empty());
}

#[test]
fn a_boundary_with_no_following_line_break_is_not_a_part() {
    // `--BOUND` immediately followed by more text (no CRLF) is not a real
    // delimiter, so no part opens there.
    let raw = format!("--{B}xtra\r\n--{B}--\r\n").into_bytes();
    assert!(parse(&raw, B).is_err());
}

#[test]
fn does_not_panic_on_arbitrary_bytes() {
    for input in [
        &b"--"[..],
        b"----WebKitFormBoundaryABC",
        b"----WebKitFormBoundaryABC\r\n",
        b"----WebKitFormBoundaryABC--",
        &[0xff, 0xfe, 0x00],
    ] {
        let _ = parse(input, B);
    }
}
