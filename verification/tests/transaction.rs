use parapet::engine::{CompileError, RuleSet};
use parapet::matcher::NoDataLoader;
use parapet::parse;
use parapet::transaction::{EngineMode, Transaction};
use parapet::Verdict;

/// Build a rule set from SecLang source.
fn rules(source: &str) -> RuleSet {
    let directives = parse(source, "test.conf").expect("must parse");
    RuleSet::compile(&directives, &NoDataLoader).expect("must compile")
}

fn get<'r>(rules: &'r RuleSet, uri: &str) -> Transaction<'r> {
    let mut tx = Transaction::new(rules, EngineMode::Blocking);
    tx.process_uri("GET", uri, "HTTP/1.1");
    tx
}

#[test]
fn a_matching_rule_denies() {
    let rs = rules(r#"SecRule ARGS "@rx attack" "id:1,phase:1,deny,status:403""#);
    let mut tx = get(&rs, "/?q=attack");
    assert_eq!(
        tx.process_request_headers(),
        Verdict::Deny {
            status: 403,
            rule_id: 1
        }
    );
}

#[test]
fn a_non_matching_rule_allows() {
    let rs = rules(r#"SecRule ARGS "@rx attack" "id:1,phase:1,deny""#);
    let mut tx = get(&rs, "/?q=benign");
    assert_eq!(tx.process_request_headers(), Verdict::Allow);
}

#[test]
fn detection_only_mode_records_without_denying() {
    let rs = rules(r#"SecRule ARGS "@rx attack" "id:1,phase:1,deny,msg:'hit'""#);
    let mut tx = Transaction::new(&rs, EngineMode::DetectionOnly);
    tx.process_uri("GET", "/?q=attack", "HTTP/1.1");
    assert_eq!(tx.process_request_headers(), Verdict::Allow);
    assert_eq!(tx.matches().len(), 1);
}

#[test]
fn query_arguments_are_url_decoded() {
    let rs = rules(r#"SecRule ARGS "@rx <script>" "id:1,phase:1,deny""#);
    let mut tx = get(&rs, "/?q=%3Cscript%3E");
    assert!(matches!(tx.process_request_headers(), Verdict::Deny { .. }));
}

#[test]
fn transformations_run_in_order_before_the_operator() {
    let rs = rules(
        r#"SecRule ARGS "@rx <script>" "id:1,phase:1,deny,t:none,t:htmlEntityDecode,t:lowercase""#,
    );
    let mut tx = get(&rs, "/?q=%26lt%3BSCRIPT%26gt%3B");
    assert!(matches!(tx.process_request_headers(), Verdict::Deny { .. }));
}

#[test]
fn a_negated_operator_inverts_the_test() {
    let rs = rules(r#"SecRule REQUEST_METHOD "!@within GET HEAD" "id:1,phase:1,deny""#);
    let mut tx = get(&rs, "/");
    assert_eq!(tx.process_request_headers(), Verdict::Allow);

    let mut tx = Transaction::new(&rs, EngineMode::Blocking);
    tx.process_uri("DELETE", "/", "HTTP/1.1");
    assert!(matches!(tx.process_request_headers(), Verdict::Deny { .. }));
}

#[test]
fn setvar_accumulates_an_anomaly_score() {
    let rs = rules(
        r#"
SecAction "id:1,phase:1,pass,nolog,setvar:'tx.critical_score=5'"
SecRule ARGS "@rx attack" "id:2,phase:1,pass,setvar:'tx.anomaly_score=+%{tx.critical_score}'"
SecRule ARGS "@rx attack" "id:3,phase:1,pass,setvar:'tx.anomaly_score=+%{tx.critical_score}'"
"#,
    );
    let mut tx = get(&rs, "/?q=attack");
    tx.process_request_headers();
    assert_eq!(tx.anomaly_score("anomaly_score"), 10);
}

#[test]
fn anomaly_scoring_then_blocking_works_end_to_end() {
    // The shape CRS uses: rules add score, a final rule denies on it.
    let rs = rules(
        r#"
SecAction "id:1,phase:1,pass,nolog,setvar:'tx.threshold=5'"
SecRule ARGS "@rx attack" "id:2,phase:1,pass,setvar:'tx.score=+5'"
SecRule TX:SCORE "@ge %{tx.threshold}" "id:3,phase:1,deny,status:403,msg:'score exceeded'"
"#,
    );
    let mut tx = get(&rs, "/?q=attack");
    assert!(matches!(
        tx.process_request_headers(),
        Verdict::Deny { rule_id: 3, .. }
    ));

    let mut clean = get(&rs, "/?q=fine");
    assert_eq!(clean.process_request_headers(), Verdict::Allow);
}

#[test]
fn setvar_subtract_and_delete_work() {
    let rs = rules(
        r#"
SecAction "id:1,phase:1,pass,nolog,setvar:'tx.score=10'"
SecAction "id:2,phase:1,pass,nolog,setvar:'tx.score=-3'"
SecAction "id:3,phase:1,pass,nolog,setvar:'tx.gone=1'"
SecAction "id:4,phase:1,pass,nolog,setvar:!tx.gone"
"#,
    );
    let mut tx = get(&rs, "/");
    tx.process_request_headers();
    assert_eq!(tx.anomaly_score("score"), 7);
    assert_eq!(tx.vars.tx_get("gone"), None);
}

#[test]
fn a_chain_requires_every_link_to_match() {
    let rs = rules(
        r#"
SecRule ARGS "@rx attack" "id:1,phase:1,deny,chain"
SecRule REQUEST_METHOD "@streq POST"
"#,
    );
    // The starter matches but the chained link does not.
    let mut tx = get(&rs, "/?q=attack");
    assert_eq!(tx.process_request_headers(), Verdict::Allow);

    let mut tx = Transaction::new(&rs, EngineMode::Blocking);
    tx.process_uri("POST", "/?q=attack", "HTTP/1.1");
    assert!(matches!(tx.process_request_headers(), Verdict::Deny { .. }));
}

#[test]
fn skip_after_jumps_past_a_marker() {
    let rs = rules(
        r#"
SecAction "id:1,phase:1,pass,nolog,skipAfter:PAST"
SecRule ARGS "@rx attack" "id:2,phase:1,deny"
SecMarker PAST
SecRule ARGS "@rx attack" "id:3,phase:1,pass,setvar:'tx.reached=1'"
"#,
    );
    let mut tx = get(&rs, "/?q=attack");
    // Rule 2 is skipped, so no denial; rule 3 runs.
    assert_eq!(tx.process_request_headers(), Verdict::Allow);
    assert_eq!(tx.vars.tx_get("reached"), Some(&b"1"[..]));
}

#[test]
fn an_unknown_skip_after_target_is_a_compile_error() {
    let directives = parse(
        r#"SecAction "id:1,phase:1,pass,skipAfter:NOWHERE""#,
        "test.conf",
    )
    .unwrap();
    let err = RuleSet::compile(&directives, &NoDataLoader).unwrap_err();
    assert!(matches!(
        err,
        CompileError::UnknownMarker { .. }
    ));
}

#[test]
fn a_dangling_chain_is_a_compile_error() {
    let directives = parse(
        r#"SecRule ARGS "@rx x" "id:1,phase:1,deny,chain""#,
        "test.conf",
    )
    .unwrap();
    let err = RuleSet::compile(&directives, &NoDataLoader).unwrap_err();
    assert!(matches!(
        err,
        CompileError::DanglingChain { .. }
    ));
}

#[test]
fn captures_populate_tx_numbered_variables() {
    let rs = rules(
        r#"SecRule ARGS "@rx (\d+)-(\d+)" "id:1,phase:1,pass,capture,setvar:'tx.found=%{tx.1}'""#,
    );
    let mut tx = get(&rs, "/?q=10-20");
    tx.process_request_headers();
    assert_eq!(tx.vars.tx_get("0"), Some(&b"10-20"[..]));
    assert_eq!(tx.vars.tx_get("found"), Some(&b"10"[..]));
}

#[test]
fn matched_var_name_reports_the_variable_that_matched() {
    let rs = rules(r#"SecRule ARGS "@rx attack" "id:1,phase:1,pass,msg:'hit'""#);
    let mut tx = get(&rs, "/?safe=ok&danger=attack");
    tx.process_request_headers();
    assert_eq!(tx.matches()[0].matched_name, "ARGS:danger");
}

#[test]
fn logdata_and_msg_expand_macros() {
    let rs = rules(
        r#"SecRule ARGS "@rx (attack)" "id:1,phase:1,pass,capture,msg:'found',logdata:'Matched %{TX.0} in %{MATCHED_VAR_NAME}'""#,
    );
    let mut tx = get(&rs, "/?q=attack");
    tx.process_request_headers();
    assert_eq!(tx.matches()[0].data, "Matched attack in ARGS:q");
}

#[test]
fn target_exclusions_remove_variables_from_inspection() {
    let rs = rules(r#"SecRule ARGS|!ARGS:allowed "@rx attack" "id:1,phase:1,deny""#);
    let mut tx = get(&rs, "/?allowed=attack");
    assert_eq!(tx.process_request_headers(), Verdict::Allow);

    let mut tx = get(&rs, "/?other=attack");
    assert!(matches!(tx.process_request_headers(), Verdict::Deny { .. }));
}

#[test]
fn a_regex_selector_narrows_a_collection() {
    let rs = rules(r#"SecRule REQUEST_HEADERS:/^X-/ "@rx attack" "id:1,phase:1,deny""#);
    let mut tx = Transaction::new(&rs, EngineMode::Blocking);
    tx.process_uri("GET", "/", "HTTP/1.1");
    tx.add_request_header("User-Agent", "attack");
    assert_eq!(tx.process_request_headers(), Verdict::Allow);

    let mut tx = Transaction::new(&rs, EngineMode::Blocking);
    tx.process_uri("GET", "/", "HTTP/1.1");
    tx.add_request_header("X-Custom", "attack");
    assert!(matches!(tx.process_request_headers(), Verdict::Deny { .. }));
}

#[test]
fn cookies_are_parsed_from_the_cookie_header() {
    let rs = rules(r#"SecRule REQUEST_COOKIES "@rx attack" "id:1,phase:1,deny""#);
    let mut tx = Transaction::new(&rs, EngineMode::Blocking);
    tx.process_uri("GET", "/", "HTTP/1.1");
    tx.add_request_header("Cookie", "session=abc; tracking=attack");
    assert!(matches!(tx.process_request_headers(), Verdict::Deny { .. }));
}

#[test]
fn a_count_target_inspects_the_number_of_members() {
    let rs = rules(r#"SecRule &ARGS "@gt 2" "id:1,phase:1,deny""#);
    let mut tx = get(&rs, "/?a=1&b=2");
    assert_eq!(tx.process_request_headers(), Verdict::Allow);

    let mut tx = get(&rs, "/?a=1&b=2&c=3");
    assert!(matches!(tx.process_request_headers(), Verdict::Deny { .. }));
}

#[test]
fn urlencoded_bodies_populate_args() {
    let rs = rules(r#"SecRule ARGS "@rx attack" "id:1,phase:2,deny""#);
    let mut tx = Transaction::new(&rs, EngineMode::Blocking);
    tx.process_uri("POST", "/", "HTTP/1.1");
    tx.process_request_headers();
    tx.set_request_body(b"q=attack", Some("application/x-www-form-urlencoded"));
    assert!(matches!(tx.process_request_body(), Verdict::Deny { .. }));
}

#[test]
fn an_unparseable_body_sets_a_body_error_rather_than_passing() {
    // A format with no parser must not be silently treated as empty. CRS
    // blocks on REQBODY_ERROR, which is the mechanism SecLang provides.
    let rs = rules(
        r#"SecRule TX:REQBODY_ERROR "@eq 1" "id:1,phase:2,deny,msg:'body could not be parsed'""#,
    );
    let mut tx = Transaction::new(&rs, EngineMode::Blocking);
    tx.process_uri("POST", "/", "HTTP/1.1");
    tx.process_request_headers();
    tx.set_request_body(b"<x>attack</x>", Some("text/xml"));
    assert!(tx.body_error().is_some());
    assert!(matches!(tx.process_request_body(), Verdict::Deny { .. }));
}

#[test]
fn later_phases_do_not_run_after_a_denial() {
    let rs = rules(
        r#"
SecRule ARGS "@rx attack" "id:1,phase:1,deny"
SecAction "id:2,phase:2,pass,nolog,setvar:'tx.phase2_ran=1'"
"#,
    );
    let mut tx = get(&rs, "/?q=attack");
    assert!(matches!(tx.process_request_headers(), Verdict::Deny { .. }));
    tx.process_request_body();
    assert_eq!(tx.vars.tx_get("phase2_ran"), None);
}

#[test]
fn response_phases_inspect_response_variables() {
    let rs = rules(r#"SecRule RESPONSE_BODY "@rx secret" "id:1,phase:4,deny""#);
    let mut tx = get(&rs, "/");
    tx.process_request_headers();
    tx.process_request_body();
    tx.set_response_status(200);
    tx.process_response_headers();
    tx.set_response_body(b"this contains a secret");
    assert!(matches!(tx.process_response_body(), Verdict::Deny { .. }));
}

#[test]
fn multi_match_tests_intermediate_transformation_results() {
    // Without multiMatch only the fully transformed value is tested. With
    // it, the value after each step is tested too.
    let rs = rules(
        r#"SecRule ARGS "@rx ^attack$" "id:1,phase:1,deny,multiMatch,t:none,t:lowercase""#,
    );
    let mut tx = get(&rs, "/?q=ATTACK");
    assert!(matches!(tx.process_request_headers(), Verdict::Deny { .. }));
}

#[test]
fn a_count_target_respects_its_selector() {
    // Counting the whole collection instead of the selected member makes
    // every presence check true, which fires the rules that test for a
    // header being absent. That silently broke five CRS protocol rules.
    let rs = rules(r#"SecRule &REQUEST_HEADERS:Transfer-Encoding "@ge 1" "id:1,phase:1,deny""#);
    let mut tx = Transaction::new(&rs, EngineMode::Blocking);
    tx.process_uri("GET", "/", "HTTP/1.1");
    tx.add_request_header("Host", "example.test");
    tx.add_request_header("User-Agent", "curl");
    assert_eq!(tx.process_request_headers(), Verdict::Allow);

    let mut tx = Transaction::new(&rs, EngineMode::Blocking);
    tx.process_uri("GET", "/", "HTTP/1.1");
    tx.add_request_header("Transfer-Encoding", "chunked");
    assert!(matches!(tx.process_request_headers(), Verdict::Deny { .. }));
}

#[test]
fn counting_an_absent_tx_variable_gives_zero() {
    // How CRS installs its defaults: `&TX:x "@eq 0"` then setvar.
    let rs = rules(
        r#"
SecAction "id:1,phase:1,pass,nolog,setvar:'tx.other=1'"
SecRule &TX:allowed_methods "@eq 0" "id:2,phase:1,pass,nolog,setvar:'tx.allowed_methods=GET HEAD'"
SecRule REQUEST_METHOD "!@within %{tx.allowed_methods}" "id:3,phase:1,deny"
"#,
    );
    let mut tx = get(&rs, "/");
    assert_eq!(tx.process_request_headers(), Verdict::Allow);
    assert_eq!(tx.vars.tx_get("allowed_methods"), Some(&b"GET HEAD"[..]));
}

#[test]
fn block_resolves_to_the_default_action_not_to_deny() {
    // ModSecurity's built-in default is `pass`, and CRS depends on it: its
    // `block` rules are meant to score, with the denial coming from an
    // explicit `deny` later. Treating `block` as deny makes the first
    // matching rule terminate the request and defeats anomaly scoring.
    let rs = rules(
        r#"
SecRule ARGS "@rx attack" "id:1,phase:1,block,setvar:'tx.score=+5'"
SecRule TX:SCORE "@ge 10" "id:2,phase:1,deny"
"#,
    );
    let mut tx = get(&rs, "/?q=attack");
    assert_eq!(tx.process_request_headers(), Verdict::Allow);
    assert_eq!(tx.anomaly_score("score"), 5);
}

#[test]
fn sec_default_action_makes_block_disruptive() {
    let rs = rules(
        r#"
SecDefaultAction "phase:1,log,auditlog,deny,status:406"
SecRule ARGS "@rx attack" "id:1,phase:1,block"
"#,
    );
    let mut tx = get(&rs, "/?q=attack");
    assert_eq!(
        tx.process_request_headers(),
        Verdict::Deny {
            status: 406,
            rule_id: 1
        }
    );
}

#[test]
fn a_rule_with_no_phase_defaults_to_phase_two() {
    let rs = rules(r#"SecRule ARGS "@rx attack" "id:1,deny""#);
    let mut tx = get(&rs, "/?q=attack");
    assert_eq!(tx.process_request_headers(), Verdict::Allow);
    assert!(matches!(tx.process_request_body(), Verdict::Deny { .. }));
}
