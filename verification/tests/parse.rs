use parapet::action::{Action, Transformation};
use parapet::parse::{parse, tokenize, ParseErrorKind};
use parapet::rule::{Directive, Selector};
use parapet::Phase;

#[test]
fn parses_a_realistic_chained_rule() {
    let src = r#"
SecRule REQUEST_COOKIES|!REQUEST_COOKIES:/__utm/|ARGS_NAMES "@detectSQLi" \
"id:942100,\
phase:2,\
block,\
capture,\
t:none,t:urlDecodeUni,\
msg:'SQL Injection Attack Detected via libinjection',\
logdata:'Matched Data: %{TX.0} found within %{MATCHED_VAR_NAME}',\
tag:'attack-sqli',\
severity:'CRITICAL',\
setvar:'tx.sql_injection_score=+%{tx.critical_anomaly_score}'"
"#;
    let directives = parse(src, "test.conf").unwrap();
    assert_eq!(directives.len(), 1);
    let Directive::Rule(rule) = &directives[0] else {
        panic!("expected a rule");
    };
    assert_eq!(rule.targets.len(), 3);
    assert!(rule.targets[1].exclusion);
    assert_eq!(rule.id(), Some(942100));
    assert!(!rule.negated);
    assert!(rule
        .actions
        .contains(&Action::Transform(Transformation::UrlDecodeUni)));
    assert!(rule.actions.contains(&Action::Phase(Phase::RequestBody)));
}

#[test]
fn continuation_lines_report_the_first_line() {
    let src = "# comment\n\nSecRule ARGS \"@detectXSS\" \\\n    \"id:1,phase:2\"\n";
    let directives = parse(src, "t.conf").unwrap();
    let Directive::Rule(rule) = &directives[0] else {
        panic!("expected a rule");
    };
    assert_eq!(rule.line, 3);
}

#[test]
fn parses_negated_operators() {
    let src = "SecRule REQUEST_METHOD \"!@within GET POST\" \"id:2,phase:1,deny\"\n";
    let Directive::Rule(rule) = &parse(src, "t.conf").unwrap()[0] else {
        panic!("expected a rule");
    };
    assert!(rule.negated);
}

#[test]
fn parses_regex_and_name_selectors() {
    let src = "SecRule REQUEST_HEADERS:/^X-/|ARGS:username \"@rx x\" \"id:3,phase:1\"\n";
    let Directive::Rule(rule) = &parse(src, "t.conf").unwrap()[0] else {
        panic!("expected a rule");
    };
    assert_eq!(
        rule.targets[0].selector,
        Some(Selector::Regex("^X-".into()))
    );
    assert_eq!(
        rule.targets[1].selector,
        Some(Selector::Name("username".into()))
    );
}

#[test]
fn parses_markers_and_secaction() {
    let src = "SecMarker END-REQUEST-942\nSecAction \"id:4,phase:1,pass,nolog\"\n";
    let d = parse(src, "t.conf").unwrap();
    assert_eq!(d[0], Directive::Marker("END-REQUEST-942".into()));
    let Directive::Action(rule) = &d[1] else {
        panic!("expected SecAction");
    };
    assert!(rule.operator.is_none());
    assert!(rule.targets.is_empty());
}

#[test]
fn commas_inside_quoted_arguments_do_not_split_actions() {
    let src = "SecRule ARGS \"@rx x\" \"id:5,phase:2,msg:'one, two, three',nolog\"\n";
    let Directive::Rule(rule) = &parse(src, "t.conf").unwrap()[0] else {
        panic!("expected a rule");
    };
    assert!(rule
        .actions
        .contains(&Action::Msg("one, two, three".into())));
}

#[test]
fn escaped_quotes_survive_tokenizing() {
    let toks = tokenize(r#"SecRule ARGS "@rx \"quoted\"" "id:6""#).unwrap();
    assert_eq!(toks[2], r#"@rx "quoted""#);
}

#[test]
fn unknown_directive_is_an_error() {
    let err = parse("SecWhatever on\n", "t.conf").unwrap_err();
    assert!(matches!(
        err.kind,
        ParseErrorKind::UnsupportedDirective { .. }
    ));
    assert_eq!(err.line, 1);
}

#[test]
fn unknown_collection_is_an_error() {
    let err = parse("SecRule NOT_A_THING \"@rx x\" \"id:7\"\n", "t.conf").unwrap_err();
    match err.kind {
        ParseErrorKind::Target { detail, .. } => {
            assert!(detail.contains("inspecting nothing"))
        }
        other => panic!("expected a target error, got {other:?}"),
    }
}

#[test]
fn unterminated_quote_is_an_error() {
    let err = parse("SecRule ARGS \"@rx x\" \"id:8\n", "t.conf").unwrap_err();
    assert_eq!(err.kind, ParseErrorKind::UnterminatedQuote);
}

#[test]
fn sec_rule_arity_is_enforced() {
    assert!(matches!(
        parse("SecRule ARGS\n", "t").unwrap_err().kind,
        ParseErrorKind::Arity { .. }
    ));
}

#[test]
fn a_bad_operator_or_action_in_a_secrule_is_reported() {
    assert!(matches!(
        parse("SecRule ARGS \"@nope x\" \"id:1\"\n", "t")
            .unwrap_err()
            .kind,
        ParseErrorKind::Operator(_)
    ));
    assert!(matches!(
        parse("SecRule ARGS \"@rx x\" \"id:notanumber\"\n", "t")
            .unwrap_err()
            .kind,
        ParseErrorKind::Action(_)
    ));
}

#[test]
fn a_three_token_secrule_without_actions_parses() {
    let d = parse("SecRule ARGS \"@rx x\"\n", "t").unwrap();
    let Directive::Rule(rule) = &d[0] else {
        panic!("expected a rule");
    };
    assert!(rule.actions.is_empty());
}

#[test]
fn xml_and_regex_selector_syntax_is_validated() {
    // An XML selector must be an XPath starting with '/'.
    assert!(matches!(
        parse("SecRule XML:notxpath \"@rx x\" \"id:1\"\n", "t")
            .unwrap_err()
            .kind,
        ParseErrorKind::Target { .. }
    ));
    // A regex selector must close its slash.
    assert!(matches!(
        parse("SecRule ARGS:/open \"@rx x\" \"id:1\"\n", "t")
            .unwrap_err()
            .kind,
        ParseErrorKind::Target { .. }
    ));
    // Empty members between pipes are skipped, not an error.
    let d = parse("SecRule ARGS||REQUEST_URI \"@rx x\" \"id:1\"\n", "t").unwrap();
    let Directive::Rule(rule) = &d[0] else {
        panic!()
    };
    assert_eq!(rule.targets.len(), 2);
}

#[test]
fn an_empty_target_list_is_an_error() {
    assert!(parse("SecRule | \"@rx x\" \"id:1\"\n", "t").is_err());
}

#[test]
fn secaction_arity_and_action_errors_are_reported() {
    assert!(matches!(
        parse("SecAction a b\n", "t").unwrap_err().kind,
        ParseErrorKind::Arity { .. }
    ));
    assert!(matches!(
        parse("SecAction \"id:notnum\"\n", "t").unwrap_err().kind,
        ParseErrorKind::Action(_)
    ));
}

#[test]
fn secdefaultaction_parses_and_defaults_its_phase() {
    // No phase given: defaults to phase 2.
    let d = parse("SecDefaultAction \"pass,log\"\n", "t").unwrap();
    assert!(matches!(
        &d[0],
        Directive::DefaultAction { phase, .. } if *phase == Phase::RequestBody
    ));
    assert!(parse("SecDefaultAction\n", "t").is_err());
    assert!(parse("SecDefaultAction \"bogus:1\"\n", "t").is_err());
}

#[test]
fn secmarker_and_component_signature_arity_is_enforced() {
    assert!(parse("SecMarker\n", "t").is_err());
    let d = parse("SecComponentSignature \"OWASP_CRS/4.0.0\"\n", "t").unwrap();
    assert_eq!(
        d[0],
        Directive::ComponentSignature("OWASP_CRS/4.0.0".into())
    );
    assert!(parse("SecComponentSignature\n", "t").is_err());
}

#[test]
fn a_paren_group_protects_commas_inside_an_action_list() {
    let d = parse("SecAction \"id:1,setvar:tx.x=(a,b),pass\"\n", "t").unwrap();
    let Directive::Action(rule) = &d[0] else {
        panic!()
    };
    // id, setvar, pass -> the comma inside (a,b) did not split.
    assert_eq!(rule.actions.len(), 3);
}

#[test]
fn a_trailing_continuation_still_yields_its_directive() {
    // The last logical line ends on a continuation with no newline after.
    let d = parse("SecAction \"id:1,pass\" \\", "t").unwrap();
    assert_eq!(d.len(), 1);
}

#[test]
fn error_messages_carry_file_and_line() {
    let err = parse("\n\nSecBogus x\n", "rules/REQUEST-942.conf").unwrap_err();
    assert_eq!(
        err.to_string(),
        "rules/REQUEST-942.conf:3: unsupported directive \"SecBogus\""
    );
}
