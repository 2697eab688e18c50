use parapet::macros::{EmptyContext, MacroContext};
use parapet::matcher::{
    CompiledOperator, DataLoader, DirDataLoader, NoDataLoader, OperatorCompileError,
};
use parapet::operator::Operator;
use std::borrow::Cow;
use std::collections::HashMap;

struct Empty;
impl DataLoader for Empty {
    fn load(&self, _name: &str) -> Result<Vec<u8>, String> {
        Ok(b"# only a comment\n\n".to_vec())
    }
}

struct Inline;
impl DataLoader for Inline {
    fn load(&self, _name: &str) -> Result<Vec<u8>, String> {
        Ok(b"# a comment\n\netc/passwd\n  win.ini  \n".to_vec())
    }
}

struct Vars(HashMap<String, Vec<u8>>);

impl MacroContext for Vars {
    fn lookup(&self, name: &str) -> Option<Cow<'_, [u8]>> {
        self.0
            .get(&name.to_ascii_lowercase())
            .map(|v| Cow::Borrowed(v.as_slice()))
    }
}

fn vars(pairs: &[(&str, &str)]) -> Vars {
    Vars(
        pairs
            .iter()
            .map(|(k, v)| (k.to_ascii_lowercase(), v.as_bytes().to_vec()))
            .collect(),
    )
}

fn compile(spec: &str) -> CompiledOperator {
    let op = Operator::parse(spec).expect("operator must parse");
    CompiledOperator::compile(&op, &NoDataLoader).expect("operator must compile")
}

fn matches(spec: &str, subject: &str) -> bool {
    compile(spec)
        .evaluate(subject.as_bytes(), &EmptyContext, false)
        .matched
}

#[test]
fn rx_matches_over_bytes() {
    assert!(matches(r"@rx (?i)union\s+select", "1 UNION  SELECT x"));
    assert!(!matches(r"@rx ^\d+$", "12a"));
}

#[test]
fn rx_matches_a_non_utf8_subject() {
    // A byte regex must not refuse invalid UTF-8, which is exactly what a
    // WAF receives when someone is trying to slip past it.
    let op = compile(r"@rx abc");
    let subject = [0xff, b'a', b'b', b'c', 0xfe];
    assert!(op.evaluate(&subject, &EmptyContext, false).matched);
}

#[test]
fn rx_populates_captures_only_when_asked() {
    let op = compile(r"@rx (\d+)-(\d+)");
    let without = op.evaluate(b"10-20", &EmptyContext, false);
    assert!(without.matched);
    assert!(without.captures.is_empty());

    let with = op.evaluate(b"10-20", &EmptyContext, true);
    assert_eq!(with.captures.len(), 3);
    assert_eq!(with.captures[0], b"10-20");
    assert_eq!(with.captures[1], b"10");
    assert_eq!(with.captures[2], b"20");
}

#[test]
fn rx_compiles_a_pattern_needing_repair() {
    // 941380's template-injection pattern, which needs brace escaping.
    let op = compile(r"@rx {{.*?}}");
    assert!(op.evaluate(b"{{7*7}}", &EmptyContext, false).matched);
}

#[test]
fn pm_is_case_insensitive_and_substring() {
    assert!(matches("@pm select union", "1 SeLeCt 2"));
    assert!(matches("@pm etc/passwd", "/../etc/passwd"));
    assert!(!matches("@pm select union", "nothing here"));
}

#[test]
fn pm_short_circuits_on_short_subjects() {
    let op = compile("@pm abcdef");
    assert!(!op.evaluate(b"abc", &EmptyContext, false).matched);
    assert!(op.evaluate(b"xxabcdefxx", &EmptyContext, false).matched);
}

#[test]
fn string_operators_do_what_they_say() {
    assert!(matches("@streq GET", "GET"));
    assert!(!matches("@streq GET", "GETX"));
    assert!(matches("@contains passwd", "/etc/passwd"));
    assert!(matches("@endsWith .php", "/index.php"));
    assert!(!matches("@endsWith .php", "/index.php7"));
}

#[test]
fn within_looks_for_the_subject_inside_the_operand() {
    // The direction is the opposite of @contains, which is easy to invert
    // and would silently allow every method.
    assert!(matches("@within GET HEAD POST", "GET"));
    assert!(!matches("@within GET HEAD POST", "DELETE"));
}

#[test]
fn within_expands_a_macro_operand() {
    let op = compile("@within %{tx.allowed_methods}");
    let ctx = vars(&[("tx.allowed_methods", "GET HEAD POST")]);
    assert!(op.evaluate(b"POST", &ctx, false).matched);
    assert!(!op.evaluate(b"TRACE", &ctx, false).matched);
}

#[test]
fn numeric_operators_compare_and_accept_macros() {
    assert!(matches("@lt 5", "3"));
    assert!(!matches("@lt 5", "5"));
    assert!(matches("@ge 5", "5"));
    assert!(matches("@gt 5", "6"));
    assert!(matches("@eq 5", "5"));

    let op = compile("@ge %{tx.threshold}");
    let ctx = vars(&[("tx.threshold", "5")]);
    assert!(op.evaluate(b"7", &ctx, false).matched);
    assert!(!op.evaluate(b"4", &ctx, false).matched);
}

#[test]
fn an_unset_numeric_macro_is_zero() {
    let op = compile("@ge %{tx.never_set}");
    assert!(op.evaluate(b"0", &EmptyContext, false).matched);
}

#[test]
fn numeric_operators_read_a_leading_integer() {
    assert!(matches("@eq 0", ""));
    assert!(matches("@eq 12", "12abc"));
    assert!(matches("@eq 0", "abc"));
}

#[test]
fn ip_match_handles_addresses_and_cidr() {
    assert!(matches("@ipMatch 192.168.1.1", "192.168.1.1"));
    assert!(!matches("@ipMatch 192.168.1.1", "192.168.1.2"));
    assert!(matches("@ipMatch 192.168.0.0/16", "192.168.99.4"));
    assert!(!matches("@ipMatch 192.168.0.0/16", "192.169.0.1"));
    assert!(matches("@ipMatch 10.0.0.0/8,192.168.0.0/16", "10.1.2.3"));
    assert!(matches("@ipMatch 2001:db8::/32", "2001:db8:1::1"));
    assert!(!matches("@ipMatch 2001:db8::/32", "2001:db9::1"));
}

#[test]
fn ip_match_handles_odd_prefix_lengths() {
    assert!(matches("@ipMatch 10.0.0.0/9", "10.127.0.1"));
    assert!(!matches("@ipMatch 10.0.0.0/9", "10.128.0.1"));
}

#[test]
fn ip_match_folds_v4_mapped_addresses() {
    assert!(matches("@ipMatch 192.168.0.0/16", "::ffff:192.168.1.1"));
}

#[test]
fn ip_match_rejects_a_non_address_subject() {
    assert!(!matches("@ipMatch 10.0.0.0/8", "not-an-ip"));
}

#[test]
fn ip_match_refuses_a_bad_operand_at_compile_time() {
    let op = Operator::parse("@ipMatch 999.1.1.1").unwrap();
    assert!(CompiledOperator::compile(&op, &NoDataLoader).is_err());
    let op = Operator::parse("@ipMatch 10.0.0.0/33").unwrap();
    assert!(CompiledOperator::compile(&op, &NoDataLoader).is_err());
}

#[test]
fn validate_byte_range_matches_when_a_byte_is_outside() {
    // Rule 920270's shape: fires on a NUL byte.
    let op = compile("@validateByteRange 1-255");
    assert!(!op.evaluate(b"clean", &EmptyContext, false).matched);
    assert!(op.evaluate(b"has\0nul", &EmptyContext, false).matched);
    // Empty input never matches.
    assert!(!op.evaluate(b"", &EmptyContext, false).matched);
}

#[test]
fn validate_utf8_encoding_matches_invalid_sequences() {
    let op = compile("@validateUtf8Encoding");
    assert!(
        !op.evaluate("caf\u{e9}".as_bytes(), &EmptyContext, false)
            .matched
    );
    assert!(op.evaluate(&[0xc3, 0x28], &EmptyContext, false).matched);
}

#[test]
fn validate_url_encoding_matches_malformed_escapes() {
    let op = compile("@validateUrlEncoding");
    assert!(!op.evaluate(b"%41%42", &EmptyContext, false).matched);
    assert!(op.evaluate(b"%zz", &EmptyContext, false).matched);
    assert!(op.evaluate(b"%4", &EmptyContext, false).matched);
    assert!(op.evaluate(b"%", &EmptyContext, false).matched);
    assert!(!op.evaluate(b"", &EmptyContext, false).matched);
}

#[test]
fn unconditional_match_always_matches() {
    assert!(matches("@unconditionalMatch", ""));
}

#[test]
fn detect_sqli_classifies_with_libinjection() {
    assert!(matches("@detectSQLi", "1' OR '1'='1"));
    assert!(matches("@detectSQLi", "1 UNION SELECT password FROM users"));
    assert!(!matches("@detectSQLi", "hello world"));
}

#[test]
fn detect_xss_classifies_with_libinjection() {
    assert!(matches("@detectXSS", "<script>alert(1)</script>"));
    assert!(matches("@detectXSS", "<img src=x onerror=alert(1)>"));
    assert!(!matches("@detectXSS", "hello world"));
}

#[test]
fn detect_sqli_captures_the_fingerprint() {
    let m = compile("@detectSQLi").evaluate(b"1' OR '1'='1", &EmptyContext, true);
    assert!(m.matched);
    // The first capture is libinjection's fingerprint, a non-empty token.
    assert!(!m.captures.first().map(Vec::is_empty).unwrap_or(true));
}

#[test]
fn pm_from_file_needs_a_loader() {
    let op = Operator::parse("@pmFromFile lfi-os-files.data").unwrap();
    let err = CompiledOperator::compile(&op, &NoDataLoader).unwrap_err();
    assert!(matches!(err, OperatorCompileError::DataFile(_)));
}

#[test]
fn the_data_loader_refuses_to_escape_its_directory() {
    let loader = DirDataLoader::new("/tmp/parapet-test-data");
    assert!(loader.locate("../../etc/passwd").is_err());
    assert!(loader.locate("/etc/passwd").is_err());
}

#[test]
fn pm_from_file_with_only_comments_fails_to_compile() {
    let op = Operator::parse("@pmFromFile x.data").unwrap();
    assert!(CompiledOperator::compile(&op, &Empty).is_err());
}

#[test]
fn ip_match_folds_a_v4_mapped_network_against_a_v4_subject() {
    // A `::ffff:x.x.x.x` network compared against a bare v4 address.
    let op = compile("@ipMatch ::ffff:192.168.0.0/120");
    assert!(op.evaluate(b"192.168.0.5", &EmptyContext, false).matched);
    assert!(!op.evaluate(b"192.168.1.5", &EmptyContext, false).matched);
}

#[test]
fn ip_match_reads_bracketed_v6_and_host_port_forms() {
    let v6 = compile("@ipMatch 2001:db8::/32");
    assert!(v6.evaluate(b"[2001:db8::1]", &EmptyContext, false).matched);
    let v4 = compile("@ipMatch 192.168.0.0/16");
    assert!(
        v4.evaluate(b"192.168.1.1:8080", &EmptyContext, false)
            .matched
    );
}

#[test]
fn ip_match_rejects_non_utf8_and_unparseable_subjects() {
    let op = compile("@ipMatch 10.0.0.0/8");
    assert!(!op.evaluate(&[0xff, 0xfe], &EmptyContext, false).matched);
    assert!(!op.evaluate(b"", &EmptyContext, false).matched);
}

#[test]
fn rx_capture_on_a_non_match_yields_no_groups() {
    let op = compile(r"@rx (\d+)-(\d+)");
    let r = op.evaluate(b"no digits here", &EmptyContext, true);
    assert!(!r.matched);
    assert!(r.captures.is_empty());
}

#[test]
fn contains_and_within_handle_empty_and_oversized_operands() {
    // @within: subject inside operand; an empty subject is contained.
    assert!(matches("@within anything", ""));
    // @contains with a needle longer than the subject cannot match.
    assert!(!matches("@contains longerneedle", "hay"));
}

#[test]
fn pm_from_file_skips_comments_and_blank_lines() {
    let op = Operator::parse("@pmFromFile files.data").unwrap();
    let compiled = CompiledOperator::compile(&op, &Inline).unwrap();
    assert!(
        compiled
            .evaluate(b"/../etc/passwd", &EmptyContext, false)
            .matched
    );
    assert!(
        compiled
            .evaluate(b"c:\\win.ini", &EmptyContext, false)
            .matched
    );
    // The comment must not become a pattern.
    assert!(
        !compiled
            .evaluate(b"a comment", &EmptyContext, false)
            .matched
    );
}
