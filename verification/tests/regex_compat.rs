use parapet::regex_compat::{compile, escape_literal_braces, strip_class_escape};

/// The five CRS v4.9.0 patterns that do not compile as authored, with the
/// rule ids they belong to.
const CRS_NEEDING_REPAIR: &[(&str, &str)] = &[
    ("933170", r#"[oOcC]:\d+:".+?":\d+:{.*}"#),
    (
        "933180",
        r#"\$+(?:[a-zA-Z_\x7f-\xff][a-zA-Z0-9_\x7f-\xff]*|\s*{.+})(?:\s|\[.+\]|{.+}|/\*.*\*/|//.*|#.*)*\(.*\)"#,
    ),
    (
        "921200",
        r#"^[^:\(\)\&\|\!\<\>\~]*\)\s*(?:\((?:[^,\(\)\=\&\|\!\<\>\~]+[><~]?=|\s*[&!|]\s*(?:\)|\()?\s*)|\)\s*\(\s*[\&\|\!]\s*|[&!|]\s*\([^\(\)\=\&\|\!\<\>\~]+[><~]?=[^:\(\)\&\|\!\<\>\~]*)"#,
    ),
    ("932170", r#"^\(\s*\)\s+{"#),
    ("941380", r#"{{.*?}}"#),
];

#[test]
fn crs_patterns_needing_repair_all_compile() {
    for (id, pattern) in CRS_NEEDING_REPAIR {
        let c = compile(pattern).unwrap_or_else(|e| panic!("rule {id} failed to compile: {}", e.to_string()));
        assert!(
            c.repaired_from.is_some(),
            "rule {id} was expected to need a repair"
        );
    }
}

#[test]
fn accepted_patterns_are_never_rewritten() {
    // Representative CRS patterns that compile as authored. The repair pass
    // must leave every one of them byte-identical.
    let accepted = [
        r#"(?i)\bunion\b.{1,100}?\bselect\b"#,
        r#"^[\d.]+$"#,
        r#"(?i)<script[^>]*>[\s\S]*?"#,
        r#"\b(?:alert|confirm|prompt)\s*\("#,
        r#"a{2,4}"#,
        r#"x{3}"#,
        r#"[a-z]{1,}"#,
        r#"(?:\.\./){2,}"#,
    ];
    for pattern in accepted {
        let c = compile(pattern).expect("must compile");
        assert!(
            c.repaired_from.is_none(),
            "pattern was rewritten but already compiled: {pattern}"
        );
    }
}

#[test]
fn valid_repetitions_are_preserved() {
    assert_eq!(escape_literal_braces("a{2,4}"), "a{2,4}");
    assert_eq!(escape_literal_braces("a{3}"), "a{3}");
    assert_eq!(escape_literal_braces("a{2,}"), "a{2,}");
}

#[test]
fn literal_braces_are_escaped() {
    assert_eq!(escape_literal_braces("{{.*?}}"), r"\{\{.*?\}\}");
    assert_eq!(escape_literal_braces("{.*}"), r"\{.*\}");
    assert_eq!(escape_literal_braces(r"^\(\s*\)\s+{"), r"^\(\s*\)\s+\{");
}

#[test]
fn braces_inside_character_classes_are_left_alone() {
    assert_eq!(escape_literal_braces("[{}]"), "[{}]");
}

#[test]
fn escaped_braces_are_not_double_escaped() {
    assert_eq!(escape_literal_braces(r"\{"), r"\{");
    assert_eq!(escape_literal_braces(r"\}"), r"\}");
}

#[test]
fn class_escape_stripping_only_touches_classes() {
    // The `\&` inside the class loses its escape; `\(` outside keeps it.
    assert_eq!(strip_class_escape(r"\([^\&]", '&'), r"\([^&]");
}

#[test]
fn repaired_pattern_matches_like_the_original() {
    // Rule 941380 is the template-injection pattern `{{.*?}}`.
    let c = compile(r"{{.*?}}").expect("must compile");
    assert!(c.regex.is_match("{{7*7}}"));
    assert!(c.regex.is_match("{{constructor}}"));
    assert!(!c.regex.is_match("{7*7}"));
    assert!(!c.regex.is_match("no braces here"));
}

#[test]
fn rule_933170_matches_php_object_serialisation() {
    let (_, pattern) = CRS_NEEDING_REPAIR[0];
    let c = compile(pattern).expect("must compile");
    assert!(c.regex.is_match(r#"O:4:"Test":1:{s:3:"abc"}"#));
    assert!(c.regex.is_match(r#"C:8:"A":2:{i:0;}"#));
    assert!(!c.regex.is_match(r#"X:4:"Test":1:{}"#));
}

#[test]
fn rule_932170_matches_shellshock_prologue() {
    let (_, pattern) = CRS_NEEDING_REPAIR[3];
    let c = compile(pattern).expect("must compile");
    assert!(c.regex.is_match("() {"));
    assert!(c.regex.is_match("(  )   {"));
    assert!(!c.regex.is_match("()x{"));
}

#[test]
fn unrepairable_pattern_reports_an_error() {
    // Backreferences are genuinely outside the regex crate's language, and
    // no CRS rule uses one.
    let err = compile(r"(a)\1").expect_err("backreference must not compile");
    assert!(err.source_error.contains("backreference"));
}
