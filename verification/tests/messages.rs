//! What errors say.

use parapet::action::{Action, ActionError};
use parapet::engine::CompileError;
use parapet::matcher::{CompiledOperator, NoDataLoader, OperatorCompileError};
use parapet::operator::{Operator, OperatorError};
use parapet::regex_compat::compile;
use parapet::rule::Directive;
use parapet::{parse, parse_all, RuleSet};

fn refused(source: &str) -> CompileError {
    RuleSet::compile(&parse(source, "t.conf").unwrap(), &NoDataLoader).unwrap_err()
}

fn operator_error(spec: &str) -> OperatorCompileError {
    CompiledOperator::compile(&Operator::parse(spec).unwrap(), &NoDataLoader).unwrap_err()
}

fn parse_error(source: &str) -> String {
    parse(source, "a.conf").unwrap_err().to_string()
}

#[test]
fn an_unsupported_action_says_so() {
    let e = Action::parse("exec:\"x\"").unwrap_err();
    assert!(matches!(e, ActionError::Unsupported { .. }));
    assert_eq!(
        e.to_string(),
        "unsupported action \"exec\": Parapet implements the actions the Core Rule Set uses, and refuses rather than silently dropping one"
    );
}

#[test]
fn a_bad_action_argument_names_the_action() {
    let e = Action::parse("id:abc").unwrap_err();
    assert!(matches!(e, ActionError::BadArgument { .. }));
    assert!(e.to_string().starts_with("action id: "));
}

#[test]
fn an_unsupported_operator_says_so() {
    let e = Operator::parse("@geoLookup").unwrap_err();
    assert!(matches!(e, OperatorError::Unsupported { .. }));
    assert_eq!(
        e.to_string(),
        "unsupported operator @geoLookup: Parapet implements the 18 operators the Core Rule Set uses, and refuses rather than silently never matching"
    );
}

#[test]
fn a_bad_operand_names_the_operator() {
    let e = Operator::parse("@validateByteRange 300").unwrap_err();
    assert!(matches!(e, OperatorError::BadOperand { .. }));
    assert!(e.to_string().starts_with("operator @validateByteRange: "));
}

#[test]
fn an_unsupported_directive_is_quoted_with_its_place() {
    assert_eq!(
        parse_error("\n\nSecNonsense \"a\"\n"),
        "a.conf:3: unsupported directive \"SecNonsense\""
    );
}

#[test]
fn a_wrong_number_of_arguments_is_counted() {
    assert_eq!(
        parse_error("SecMarker A B"),
        "a.conf:1: SecMarker expects 1 arguments, found 2"
    );
}

#[test]
fn an_unknown_target_is_quoted() {
    assert!(parse_error("SecRule NO_SUCH \"@rx a\" \"id:1\"").starts_with("a.conf:1: target \"NO_SUCH\": "));
}

#[test]
fn an_open_quote_is_reported() {
    assert_eq!(
        parse_error("SecMarker \"open"),
        "a.conf:1: unterminated quoted string"
    );
}

#[test]
fn operator_and_action_errors_come_through_a_line_error() {
    assert!(parse_error("SecRule ARGS \"@nope\" \"id:1\"").starts_with("a.conf:1: unsupported operator @nope: "));
    assert!(parse_error("SecRule ARGS \"@rx a\" \"id:1,nope\"").starts_with("a.conf:1: unsupported action \"nope\": "));
}

#[test]
fn a_pattern_that_cannot_be_repaired_is_named_by_the_regex_error() {
    let e = compile(r"(a)\1").unwrap_err();
    assert_eq!(e.pattern, r"(a)\1");
    assert_eq!(
        e.to_string(),
        format!(
            "pattern is not expressible with the regex crate: {}",
            e.source_error
        )
    );
}

#[test]
fn operator_compile_errors_name_their_operator() {
    assert!(operator_error(r"@rx (a)\1").to_string().starts_with("operator @rx: "));
    assert!(operator_error("@ipMatch nowhere").to_string().starts_with("operator @ipMatch: "));
    assert!(operator_error("@pmFromFile a.data").to_string().starts_with("operator @pmFromFile: "));
    let not = OperatorCompileError::NotImplemented { name: "x", detail: "y" };
    assert_eq!(not.to_string(), "operator @x is not implemented yet: y");
    let bad = OperatorCompileError::BadOperand {
        name: "pm",
        detail: "z".to_string(),
    };
    assert_eq!(bad.to_string(), "operator @pm: z");
}

#[test]
fn an_operator_error_is_placed() {
    let e = refused("\nSecRule ARGS \"@ipMatch nowhere\" \"id:7,phase:1\"");
    assert!(matches!(e, CompileError::Operator { id: 7, line: 2, .. }));
    assert!(e.to_string().starts_with("rule 7 (line 2): operator @ipMatch: "));
}

#[test]
fn a_dangling_chain_says_so() {
    let e = refused("SecRule ARGS \"@rx a\" \"id:3,phase:1,chain\"");
    assert_eq!(
        e.to_string(),
        "rule 3 (line 1) ends with `chain` but no rule follows it"
    );
}

#[test]
fn an_unsupported_xpath_lists_what_is_supported() {
    let e = refused("SecRule XML:/xml/a \"@rx a\" \"id:4,phase:2\"");
    assert!(matches!(e, CompileError::UnsupportedXPath { id: 4, .. }));
    assert_eq!(
        e.to_string(),
        "rule 4 (line 1) selects XML with \"/xml/a\"; only [\"/*\", \"//@*\"] are implemented"
    );
}

#[test]
fn an_unknown_marker_is_quoted() {
    let e = refused("SecRule ARGS \"@rx a\" \"id:5,phase:1,pass,skipAfter:NOWHERE\"");
    assert_eq!(
        e.to_string(),
        "rule 5 (line 1) skips to \"NOWHERE\", which no SecMarker defines"
    );
}

#[test]
fn a_jump_back_is_refused() {
    let e = refused(
        "SecMarker TOP\nSecRule ARGS \"@rx a\" \"id:6,phase:1,pass,skipAfter:TOP\"",
    );
    assert!(matches!(e, CompileError::BackwardSkip { id: 6, line: 2, .. }));
    assert_eq!(
        e.to_string(),
        "rule 6 (line 2) skips to \"TOP\", which is not ahead of it; skipAfter must jump forward"
    );
}

#[test]
fn an_invalid_selector_is_refused() {
    let e = refused("SecRule ARGS:/(/ \"@rx a\" \"id:8,phase:1\"");
    assert!(matches!(e, CompileError::InvalidSelector { id: 8, .. }));
    assert!(e
        .to_string()
        .starts_with("rule 8 (line 1) selects members with /(/, which is not a valid regex: "));
}

#[test]
fn a_link_without_an_id_is_reported_under_its_starter() {
    let e = refused(
        "SecRule ARGS \"@rx a\" \"id:9,phase:1,deny,chain\"\nSecRule ARGS:/(/ \"@rx b\" \"t:none\"",
    );
    assert!(matches!(e, CompileError::InvalidSelector { id: 9, line: 2, .. }));
}

#[test]
fn the_operator_of_a_link_is_reported_under_its_own_id() {
    let e = refused(
        "SecRule ARGS \"@rx a\" \"id:9,phase:1,deny,chain\"\nSecRule ARGS \"@ipMatch nowhere\" \"t:none\"",
    );
    assert!(matches!(e, CompileError::Operator { id: 0, line: 2, .. }));
}

#[test]
fn every_error_is_collected() {
    let source = "SecRule ARGS \"@ipMatch x\" \"id:1,phase:1\"\n\
        SecRule ARGS \"@rx a\" \"id:2,phase:1,pass,skipAfter:NO\"\n\
        SecRule ARGS \"@rx a\" \"id:3,phase:1,chain\"";
    let (set, errors) = RuleSet::compile_all(&parse(source, "t.conf").unwrap(), &NoDataLoader);
    assert_eq!(set.rule_count(), 1);
    assert_eq!(errors.len(), 3);
    assert!(matches!(errors[0], CompileError::Operator { id: 1, .. }));
    assert!(matches!(errors[1], CompileError::DanglingChain { id: 3, .. }));
    assert!(matches!(errors[2], CompileError::UnknownMarker { id: 2, .. }));
}

#[test]
fn joined_sources_parse_as_both() {
    let a = "SecAction \"id:1,\\\n  phase:1\"\nSecWrong x";
    let b = "SecMarker M\nSecAction \"id:2,phase:1\"\nSecMarker\n";
    let (first, wrong) = parse_all(a, "n");
    let (second, more) = parse_all(b, "n");
    let (all, errors) = parse_all(&format!("{a}\n{b}"), "n");
    assert_eq!(all.len(), first.len() + second.len());
    assert_eq!(errors.len(), wrong.len() + more.len());
    assert_eq!(errors[0].line, wrong[0].line);
    assert_eq!(errors[1].line, more[0].line + 3);
    let lines: Vec<usize> = all
        .iter()
        .filter_map(|d| match d {
            Directive::Action(rule) => Some(rule.line),
            _ => None,
        })
        .collect();
    assert_eq!(lines, [1, 5]);
}

#[test]
fn quotes_and_blanks_around_an_argument_change_nothing() {
    for text in [
        "msg:a 'b' c",
        " msg :  a 'b' c ",
        "msg:'a 'b' c'",
        "msg: \"a 'b' c\" ",
    ] {
        assert!(matches!(Action::parse(text), Ok(Action::Msg(m)) if m == "a 'b' c"));
    }
    assert!(matches!(Action::parse("skipAfter:'END'"), Ok(Action::SkipAfter(m)) if m == "END"));
    assert!(matches!(Action::parse("tag:''"), Ok(Action::Tag(m)) if m.is_empty()));
}
