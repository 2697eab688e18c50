//! Transactions: what every phase keeps, and what `ctl:` changes.

use parapet::collections::BodyError;
use parapet::engine::RuleSet;
use parapet::matcher::NoDataLoader;
use parapet::transaction::{parse_id_range, EngineMode, Transaction};
use parapet::{parse, Phase, Verdict};

fn rules(source: &str) -> RuleSet {
    RuleSet::compile(&parse(source, "t.conf").unwrap(), &NoDataLoader).unwrap()
}

fn get<'r>(rules: &'r RuleSet, uri: &str) -> Transaction<'r> {
    let mut tx = Transaction::new(rules, EngineMode::Blocking);
    tx.process_uri("GET", uri, "HTTP/1.1");
    tx
}

#[test]
fn a_new_transaction_allows_and_has_completed_nothing() {
    let rs = rules("");
    let tx = Transaction::new(&rs, EngineMode::default());
    assert_eq!(*tx.verdict(), Verdict::Allow);
    assert_eq!(tx.last_completed_phase(), None);
    assert!(tx.matches().is_empty());
    assert!(tx.body_error().is_none());
}

#[test]
fn a_phase_completes_or_denies() {
    let rs = rules(
        "SecRule ARGS \"@rx bad\" \"id:7,phase:2,deny\"\nSecAction \"id:8,phase:1,pass\"",
    );
    let mut tx = get(&rs, "/?a=bad");
    assert_eq!(tx.process_request_headers(), Verdict::Allow);
    assert_eq!(tx.last_completed_phase(), Some(Phase::RequestHeaders));
    assert_eq!(
        tx.process_request_body(),
        Verdict::Deny {
            status: 403,
            rule_id: 7
        }
    );
    assert_eq!(tx.last_completed_phase(), Some(Phase::RequestHeaders));
    assert_eq!(tx.matched_ids(), [8, 7]);
    // Later phases change nothing.
    tx.process_logging();
    assert_eq!(tx.matched_ids(), [8, 7]);
    assert_eq!(tx.last_completed_phase(), Some(Phase::RequestHeaders));
}

#[test]
fn phases_keep_the_request() {
    let rs = rules(
        "SecRule ARGS \"@rx (b)(.)\" \"id:1,phase:1,pass,capture,setvar:'tx.request_uri=x',setvar:'request_uri=y'\"",
    );
    let mut tx = get(&rs, "/p?a=bad");
    tx.process_request_headers();
    assert_eq!(tx.vars.request_uri, b"/p?a=bad");
    assert_eq!(tx.vars.args_get.len(), 1);
    assert_eq!(tx.vars.tx_get("request_uri"), Some(&b"y"[..]));
    assert_eq!(tx.vars.tx_get("0"), Some(&b"ba"[..]));
    assert_eq!(tx.vars.tx_get("1"), Some(&b"b"[..]));
    assert_eq!(tx.vars.tx_get("2"), Some(&b"a"[..]));
    assert_eq!(tx.vars.matched_var_name, b"ARGS:a");
}

#[test]
fn only_ten_captures_are_kept() {
    let rs = rules(
        "SecRule ARGS \"@rx (a)(b)(c)(d)(e)(f)(g)(h)(i)(j)(k)\" \"id:1,phase:1,pass,capture\"",
    );
    let mut tx = get(&rs, "/?q=abcdefghijk");
    tx.process_request_headers();
    assert_eq!(tx.vars.tx_get("9"), Some(&b"i"[..]));
    assert_eq!(tx.vars.tx_get("10"), None);
}

#[test]
fn detection_records_every_rule_and_never_denies() {
    let rs = rules(
        "SecRule ARGS \"@rx a\" \"id:1,phase:1,deny\"\nSecRule ARGS \"@rx a\" \"id:2,phase:1,drop\"",
    );
    let mut tx = Transaction::new(&rs, EngineMode::DetectionOnly);
    tx.process_uri("GET", "/?q=a", "HTTP/1.1");
    assert_eq!(tx.process_request_headers(), Verdict::Allow);
    assert_eq!(tx.matched_ids(), [1, 2]);
}

#[test]
fn a_rule_can_turn_blocking_on_and_off() {
    let rs = rules(
        "SecAction \"id:1,phase:1,pass,ctl:ruleEngine=On\"\nSecRule ARGS \"@rx a\" \"id:2,phase:1,deny\"",
    );
    let mut tx = Transaction::new(&rs, EngineMode::DetectionOnly);
    tx.process_uri("GET", "/?q=a", "HTTP/1.1");
    assert!(matches!(
        tx.process_request_headers(),
        Verdict::Deny { rule_id: 2, .. }
    ));
    let rs = rules(
        "SecAction \"id:1,phase:1,pass,ctl:ruleEngine=DetectionOnly\"\nSecRule ARGS \"@rx a\" \"id:2,phase:1,deny\"",
    );
    assert_eq!(get(&rs, "/?q=a").process_request_headers(), Verdict::Allow);
}

#[test]
fn an_engine_that_is_off_runs_no_further_rule() {
    let rs = rules(
        "SecAction \"id:1,phase:1,pass,ctl:ruleEngine=Off\"\nSecAction \"id:2,phase:1,deny\"\nSecAction \"id:3,phase:2,deny\"",
    );
    let mut tx = get(&rs, "/");
    assert_eq!(tx.process_request_headers(), Verdict::Allow);
    assert_eq!(tx.process_request_body(), Verdict::Allow);
    assert_eq!(tx.matched_ids(), [1]);
    assert_eq!(tx.last_completed_phase(), Some(Phase::RequestBody));
    // A rule that switches the engine off still does what it asks for itself.
    let rs = rules("SecAction \"id:1,phase:1,deny,ctl:ruleEngine=Off\"");
    assert!(matches!(
        get(&rs, "/").process_request_headers(),
        Verdict::Deny { rule_id: 1, .. }
    ));
    let rs = rules("SecAction \"id:1,phase:1,deny,ctl:ruleEngine=DetectionOnly\"");
    assert_eq!(get(&rs, "/").process_request_headers(), Verdict::Allow);
}

#[test]
fn removed_rules_are_passed_over() {
    let rs = rules(
        "SecAction \"id:1,phase:1,pass,ctl:ruleRemoveById=10-12,ctl:ruleRemoveByTag=noisy\"\n\
         SecAction \"id:11,phase:1,deny\"\n\
         SecAction \"id:20,phase:1,deny,tag:'noisy'\"\n\
         SecAction \"id:13,phase:1,pass\"",
    );
    let mut tx = get(&rs, "/");
    assert_eq!(tx.process_request_headers(), Verdict::Allow);
    assert_eq!(tx.matched_ids(), [1, 13]);
}

#[test]
fn removed_targets_are_not_inspected() {
    let rs = rules(
        "SecAction \"id:1,phase:1,pass,ctl:ruleRemoveTargetById=2;ARGS:a,ctl:ruleRemoveTargetByTag=t;args:b\"\n\
         SecRule ARGS \"@rx x\" \"id:2,phase:1,pass\"\n\
         SecRule ARGS \"@rx x\" \"id:3,phase:1,pass,tag:'t'\"",
    );
    let mut tx = get(&rs, "/?a=x");
    tx.process_request_headers();
    assert_eq!(tx.matched_ids(), [1, 3]);
    let mut tx = get(&rs, "/?b=x");
    tx.process_request_headers();
    assert_eq!(tx.matched_ids(), [1, 2]);
}

#[test]
fn id_operands_are_an_id_or_a_range() {
    assert_eq!(parse_id_range(" 5 "), Some((5, 5)));
    assert_eq!(parse_id_range("5 - 9"), Some((5, 9)));
    assert_eq!(parse_id_range("9-5"), None);
    assert_eq!(parse_id_range("1-100000"), Some((1, 100_000)));
    assert_eq!(parse_id_range("1-100001"), None);
    assert_eq!(parse_id_range("4294967296"), None);
    assert_eq!(parse_id_range("x"), None);
}

#[test]
fn scores_accumulate_and_stay_in_range() {
    let rs = rules(
        "SecAction \"id:1,phase:1,pass,setvar:'tx.s=9223372036854775807',setvar:'tx.s=+1',setvar:'tx.t=-5',setvar:'tx.u=+2',setvar:'tx.u=+x',setvar:'tx.v'\"",
    );
    let mut tx = get(&rs, "/");
    tx.process_request_headers();
    assert_eq!(tx.anomaly_score("s"), i64::MAX);
    assert_eq!(tx.anomaly_score("t"), -5);
    assert_eq!(tx.anomaly_score("u"), 2);
    assert_eq!(tx.vars.tx_get("v"), Some(&b"1"[..]));
}

#[test]
fn a_setvar_name_loses_its_collection_in_two_spellings() {
    let rs = rules(
        "SecAction \"id:1,phase:1,pass,setvar:'TX.a=1',setvar:'tx.b=2',setvar:'Tx.c=3'\"",
    );
    let mut tx = get(&rs, "/");
    tx.process_request_headers();
    assert_eq!(tx.vars.tx_get("a"), Some(&b"1"[..]));
    assert_eq!(tx.vars.tx_get("b"), Some(&b"2"[..]));
    assert_eq!(tx.vars.tx_get("c"), None);
    assert_eq!(tx.vars.tx_get("tx.c"), Some(&b"3"[..]));
}

#[test]
fn multi_match_misses_nothing() {
    for flags in ["", "multiMatch,"] {
        let rs = rules(&format!(
            "SecRule ARGS \"@rx ^attack$\" \"id:1,phase:1,deny,{flags}t:lowercase\""
        ));
        assert!(matches!(
            get(&rs, "/?q=ATTACK").process_request_headers(),
            Verdict::Deny { .. }
        ));
    }
    let rs = rules("SecRule ARGS \"@rx ^ATTACK$\" \"id:1,phase:1,deny,multiMatch,t:lowercase\"");
    assert!(matches!(
        get(&rs, "/?q=ATTACK").process_request_headers(),
        Verdict::Deny { .. }
    ));
}

#[test]
fn a_chain_that_breaks_keeps_what_its_links_wrote() {
    let rs = rules(
        "SecRule ARGS \"@rx a\" \"id:1,phase:1,deny,setvar:'tx.starter=1',chain\"\n\
         SecRule ARGS \"@rx a\" \"setvar:'tx.link=1',chain\"\n\
         SecRule ARGS \"@rx never\" \"setvar:'tx.last=1'\"",
    );
    let mut tx = get(&rs, "/?q=a");
    assert_eq!(tx.process_request_headers(), Verdict::Allow);
    assert_eq!(tx.vars.tx_get("starter"), None);
    assert_eq!(tx.vars.tx_get("link"), Some(&b"1"[..]));
    assert_eq!(tx.vars.tx_get("last"), None);
    assert!(tx.matches().is_empty());
}

#[test]
fn evaluation_stops_at_a_disruptive_action_that_jumps() {
    let source = "SecAction \"id:1,phase:1,deny,skipAfter:END\"\nSecAction \"id:2,phase:1,deny\"\nSecMarker END\nSecAction \"id:3,phase:1,pass\"";
    let rs = rules(source);
    let mut tx = get(&rs, "/");
    assert_eq!(
        tx.process_request_headers(),
        Verdict::Deny {
            status: 403,
            rule_id: 1
        }
    );
    assert_eq!(tx.matched_ids(), [1]);
    // Where nothing is interrupted, the jump is taken.
    let mut tx = Transaction::new(&rs, EngineMode::DetectionOnly);
    tx.process_uri("GET", "/", "HTTP/1.1");
    assert_eq!(tx.process_request_headers(), Verdict::Allow);
    assert_eq!(tx.matched_ids(), [1, 3]);
}

#[test]
fn a_denial_takes_status_and_id_of_its_rule() {
    let rs = rules("SecAction \"phase:1,deny,status:418\"");
    assert_eq!(
        get(&rs, "/").process_request_headers(),
        Verdict::Deny {
            status: 418,
            rule_id: 0
        }
    );
    let rs = rules("SecAction \"id:5,phase:3,redirect:/x\"");
    let mut tx = get(&rs, "/");
    assert!(matches!(
        tx.process_response_headers(),
        Verdict::Deny {
            status: 403,
            rule_id: 5
        }
    ));
}

#[test]
fn the_uri_is_its_path_and_query() {
    let rs = rules("");
    let tx = get(&rs, "/a/b.php?x=1?y");
    assert_eq!(tx.vars.request_filename, b"/a/b.php");
    assert_eq!(tx.vars.request_basename, b"b.php");
    assert_eq!(tx.vars.query_string, b"x=1?y");
    assert_eq!(tx.vars.request_line, b"GET /a/b.php?x=1?y HTTP/1.1");
    let tx = get(&rs, "/dir/");
    assert_eq!(tx.vars.request_basename, b"");
    assert_eq!(tx.vars.query_string, b"");
}

#[test]
fn bodies_are_taken_by_their_media_type() {
    let rs = rules("");
    let unread = BodyError::UnsupportedFormat("XML bodies are not parsed yet");
    let no_boundary = BodyError::Malformed("multipart body without a boundary".to_string());
    let no_part = BodyError::Malformed("no boundary found in multipart body".to_string());
    let no_json =
        BodyError::Malformed("malformed JSON: expected value at line 1 column 1".to_string());
    for (media, processor, error) in [
        ("multipart/form-data; boundary=x", "MULTIPART", &no_part),
        ("multipart/form-data", "MULTIPART", &no_boundary),
        ("text/xml", "XML", &unread),
        ("Application/XML", "XML", &unread),
        ("application/soap+xml;charset=utf-8", "XML", &unread),
        (" application/json ", "JSON", &no_json),
    ] {
        let mut tx = get(&rs, "/");
        tx.set_request_body(b"x", Some(media));
        assert_eq!(tx.vars.reqbody_processor, processor.as_bytes());
        assert_eq!(tx.body_error(), Some(error));
        assert!(tx.vars.args_post.is_empty());
        assert_eq!(tx.vars.tx_get("REQBODY_ERROR"), Some(&b"1"[..]));
        assert_eq!(tx.vars.request_body, b"x");
    }
    for media in [None, Some("text/plain"), Some("")] {
        let mut tx = get(&rs, "/");
        tx.set_request_body(b"a=1", media);
        assert!(tx.body_error().is_none());
        assert!(tx.vars.reqbody_processor.is_empty());
        assert!(tx.vars.args_post.is_empty());
        assert_eq!(tx.vars.tx_get("reqbody_error"), None);
    }
    let mut tx = get(&rs, "/");
    tx.set_request_body(b"a=1&a=2", Some("APPLICATION/x-www-form-urlencoded; charset=x"));
    assert_eq!(tx.vars.args_post.len(), 2);
    assert_eq!(tx.vars.reqbody_processor, b"URLENCODED");
}

#[test]
fn json_bodies_become_arguments() {
    let rs = rules("SecRule ARGS:json.a \"@streq x\" \"id:1,phase:2,deny\"");
    let mut tx = Transaction::new(&rs, EngineMode::Blocking);
    tx.process_uri("POST", "/?q=1", "HTTP/1.1");
    tx.set_request_body(br#"{"b":[1,null],"a":"x"}"#, Some("application/json"));
    assert_eq!(tx.body_error(), None);
    assert_eq!(tx.vars.tx_get("reqbody_error"), None);
    assert_eq!(
        tx.vars.args_post.iter(),
        [
            ("json.a", &b"x"[..]),
            ("json.b.0", &b"1"[..]),
            ("json.b.1", &b""[..]),
        ]
    );
    assert_eq!(tx.vars.args_get.len(), 1);
    assert!(matches!(
        tx.process_request_body(),
        Verdict::Deny { rule_id: 1, .. }
    ));
}

#[test]
fn multipart_bodies_become_arguments_and_files() {
    let rs = rules("SecRule FILES \"@endsWith .php\" \"id:1,phase:2,deny\"");
    let mut tx = Transaction::new(&rs, EngineMode::Blocking);
    tx.process_uri("POST", "/", "HTTP/1.1");
    let body = "--Bx\r\nContent-Disposition: form-data; name=\"q\"\r\n\r\n1\r\n\
                --Bx\r\nContent-Disposition: form-data; name=\"up\"; filename=\"e.php\"\r\n\
                Content-Type: text/plain\r\n\r\nabcd\r\n\
                --Bx\r\nX: y\r\n\r\nloose\r\n--Bx--\r\n";
    tx.set_request_body(body.as_bytes(), Some("Multipart/Form-Data; boundary=Bx"));
    assert_eq!(tx.body_error(), None);
    assert_eq!(tx.vars.reqbody_processor, b"MULTIPART");
    assert_eq!(
        tx.vars.args_post.iter(),
        [("q", &b"1"[..]), ("", &b"loose"[..])]
    );
    assert_eq!(tx.vars.files.iter(), [("up", &b"e.php"[..])]);
    assert_eq!(tx.vars.files_content_size, 4);
    let headers: Vec<&str> = tx
        .vars
        .multipart_part_headers
        .iter()
        .iter()
        .map(|entry| entry.0)
        .collect();
    assert_eq!(
        headers,
        ["Content-Disposition", "Content-Disposition", "Content-Type", "X"]
    );
    assert_eq!(
        tx.vars.multipart_part_headers.iter()[2].1,
        b"Content-Type: text/plain"
    );
    assert!(matches!(
        tx.process_request_body(),
        Verdict::Deny { rule_id: 1, .. }
    ));
}

#[test]
fn a_chain_behind_an_action_must_match_too() {
    let rs = rules(
        "SecAction \"id:1,phase:1,deny,chain\"\nSecRule REQUEST_METHOD \"@streq POST\"\n",
    );
    let mut tx = get(&rs, "/");
    assert_eq!(tx.process_request_headers(), Verdict::Allow);
    assert!(tx.matched_ids().is_empty());
    let mut tx = Transaction::new(&rs, EngineMode::Blocking);
    tx.process_uri("POST", "/", "HTTP/1.1");
    assert!(matches!(
        tx.process_request_headers(),
        Verdict::Deny { rule_id: 1, .. }
    ));
}

#[test]
fn headers_and_responses_are_recorded() {
    let rs = rules("SecRule RESPONSE_STATUS \"@streq 404\" \"id:1,phase:3,deny\"");
    let mut tx = get(&rs, "/");
    tx.set_remote_addr(b"192.0.2.1".to_vec());
    tx.set_tx("level", b"3".to_vec());
    tx.add_request_header("COOKIE", "a=1; b=2");
    tx.add_response_header("Server", "x");
    tx.set_response_status(404);
    tx.set_response_body(b"body");
    assert_eq!(tx.vars.request_cookies.len(), 2);
    assert_eq!(tx.vars.request_headers.iter()[0].0, "COOKIE");
    assert_eq!(tx.vars.response_headers.len(), 1);
    assert_eq!(tx.vars.remote_addr, b"192.0.2.1");
    assert_eq!(tx.vars.response_body, b"body");
    assert_eq!(tx.anomaly_score("level"), 3);
    assert!(matches!(
        tx.process_response_headers(),
        Verdict::Deny { rule_id: 1, .. }
    ));
}

#[test]
fn a_match_records_expanded_texts() {
    let rs = rules(
        "SecRule ARGS \"@rx a\" \"id:1,phase:1,pass,nolog,msg:'m %{MATCHED_VAR}',logdata:'%{MATCHED_VAR_NAME}',tag:'x',tag:'y'\"",
    );
    let mut tx = get(&rs, "/?q=a");
    tx.process_request_headers();
    let m = &tx.matches()[0];
    assert!(!m.logged);
    assert_eq!(m.id, Some(1));
    assert_eq!(m.message, "m a");
    assert_eq!(m.data, "ARGS:q");
    assert_eq!(m.tags, ["x", "y"]);
    assert_eq!(m.matched_name, "ARGS:q");
}

#[test]
fn matched_vars_are_of_the_current_rule() {
    let rs = rules(
        "SecRule ARGS \"@rx first\" \"id:1,phase:1,pass\"\n\
         SecRule ARGS \"@rx second\" \"id:2,phase:1,pass,chain\"\n\
         SecRule MATCHED_VARS \"@rx first\" \"t:none\"\n\
         SecRule ARGS \"@rx second\" \"id:3,phase:1,pass,chain\"\n\
         SecRule MATCHED_VARS \"@streq second\" \"t:none\"\n\
         SecRule &MATCHED_VARS \"@ge 1\" \"id:4,phase:1,pass\"",
    );
    let mut tx = get(&rs, "/?a=first&b=second");
    tx.process_request_headers();
    assert_eq!(tx.matched_ids(), [1, 3]);
    assert_eq!(tx.vars.matched_var_name, b"MATCHED_VARS:ARGS:b");
    assert!(tx.vars.matched_vars.is_empty());
}

#[test]
fn every_value_of_a_chain_is_noted() {
    let rs = rules(
        "SecRule ARGS \"@rx a\" \"id:1,phase:1,pass,chain\"\n\
         SecRule REQUEST_METHOD \"@streq GET\" \"t:none\"",
    );
    let mut tx = get(&rs, "/?q=a");
    tx.process_request_headers();
    assert_eq!(
        tx.vars.matched_vars.iter(),
        vec![("ARGS:q", &b"a"[..]), ("REQUEST_METHOD", &b"GET"[..])]
    );
}
