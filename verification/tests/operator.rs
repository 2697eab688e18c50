use parapet::operator::{Numeric, Operator, OperatorError};

#[test]
fn bare_operand_is_an_implicit_rx() {
    assert_eq!(
        Operator::parse("^\\d+$").unwrap(),
        Operator::Rx("^\\d+$".into())
    );
}

#[test]
fn parses_the_operators_crs_uses() {
    assert_eq!(
        Operator::parse("@detectSQLi").unwrap(),
        Operator::DetectSqli
    );
    assert_eq!(Operator::parse("@detectXSS").unwrap(), Operator::DetectXss);
    assert_eq!(
        Operator::parse("@streq GET").unwrap(),
        Operator::Streq("GET".into())
    );
    assert_eq!(
        Operator::parse("@lt 5").unwrap(),
        Operator::Lt(Numeric::Literal(5))
    );
    assert_eq!(
        Operator::parse("@pmFromFile lfi-os-files.data").unwrap(),
        Operator::PmFromFile("lfi-os-files.data".into())
    );
}

#[test]
fn numeric_operand_accepts_a_macro() {
    assert_eq!(
        Operator::parse("@ge %{tx.inbound_anomaly_score_threshold}").unwrap(),
        Operator::Ge(Numeric::Macro("tx.inbound_anomaly_score_threshold".into()))
    );
}

#[test]
fn pm_splits_phrases_on_whitespace() {
    assert_eq!(
        Operator::parse("@pm alpha beta gamma").unwrap(),
        Operator::Pm(vec!["alpha".into(), "beta".into(), "gamma".into()])
    );
}

#[test]
fn byte_ranges_parse_singles_and_spans() {
    let op = Operator::parse("@validateByteRange 9,10,13,32-126,128-255").unwrap();
    assert_eq!(
        op,
        Operator::ValidateByteRange(vec![(9, 9), (10, 10), (13, 13), (32, 126), (128, 255)])
    );
}

#[test]
fn unsupported_operator_is_an_error_not_a_no_op() {
    let err = Operator::parse("@rbl example.com").unwrap_err();
    assert!(matches!(err, OperatorError::Unsupported { .. }));
    assert!(err.to_string().contains("silently never matching"));
}

#[test]
fn malformed_numeric_operand_is_rejected() {
    let err = Operator::parse("@lt not-a-number").unwrap_err();
    assert!(matches!(err, OperatorError::BadOperand { .. }));
}

#[test]
fn inverted_byte_range_is_rejected() {
    assert!(Operator::parse("@validateByteRange 90-65").is_err());
}

#[test]
fn operators_needing_an_operand_reject_an_empty_one() {
    assert!(Operator::parse("@pm").is_err());
    assert!(Operator::parse("@pmFromFile").is_err());
    assert!(Operator::parse("@ipMatch").is_err());
    assert!(Operator::parse("@validateByteRange").is_err());
}

#[test]
fn byte_ranges_skip_empty_parts() {
    assert_eq!(
        Operator::parse("@validateByteRange 9,,10").unwrap(),
        Operator::ValidateByteRange(vec![(9, 9), (10, 10)])
    );
    assert!(Operator::parse("@validateByteRange 9,notabyte").is_err());
}

#[test]
fn parses_the_remaining_operators() {
    assert_eq!(
        Operator::parse("@contains x").unwrap(),
        Operator::Contains("x".into())
    );
    assert_eq!(
        Operator::parse("@endsWith .php").unwrap(),
        Operator::EndsWith(".php".into())
    );
    assert_eq!(
        Operator::parse("@within GET POST").unwrap(),
        Operator::Within("GET POST".into())
    );
    assert_eq!(
        Operator::parse("@ipMatch 10.0.0.0/8").unwrap(),
        Operator::IpMatch("10.0.0.0/8".into())
    );
    assert_eq!(
        Operator::parse("@gt 5").unwrap(),
        Operator::Gt(Numeric::Literal(5))
    );
    assert_eq!(
        Operator::parse("@eq 5").unwrap(),
        Operator::Eq(Numeric::Literal(5))
    );
    assert_eq!(
        Operator::parse("@validateUtf8Encoding").unwrap(),
        Operator::ValidateUtf8Encoding
    );
    assert_eq!(
        Operator::parse("@validateUrlEncoding").unwrap(),
        Operator::ValidateUrlEncoding
    );
    assert_eq!(
        Operator::parse("@unconditionalMatch").unwrap(),
        Operator::UnconditionalMatch
    );
}

#[test]
fn every_operator_reports_its_name() {
    let ops = [
        Operator::Rx(String::new()),
        Operator::Pm(vec![]),
        Operator::PmFromFile(String::new()),
        Operator::Streq(String::new()),
        Operator::Contains(String::new()),
        Operator::EndsWith(String::new()),
        Operator::Within(String::new()),
        Operator::IpMatch(String::new()),
        Operator::Lt(Numeric::Literal(0)),
        Operator::Gt(Numeric::Literal(0)),
        Operator::Eq(Numeric::Literal(0)),
        Operator::Ge(Numeric::Literal(0)),
        Operator::DetectSqli,
        Operator::DetectXss,
        Operator::ValidateUtf8Encoding,
        Operator::ValidateUrlEncoding,
        Operator::ValidateByteRange(vec![]),
        Operator::UnconditionalMatch,
    ];
    let names: Vec<&str> = ops.iter().map(Operator::name).collect();
    assert_eq!(names.len(), 18);
    assert!(names.contains(&"rx"));
    assert!(names.contains(&"detectSQLi"));
    assert!(names.contains(&"unconditionalMatch"));
    // Every name is distinct.
    let mut sorted = names.clone();
    sorted.sort_unstable();
    sorted.dedup();
    assert_eq!(sorted.len(), 18);
}
