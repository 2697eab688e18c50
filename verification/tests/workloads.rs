//! Rankings, sweeps and the order of rule files.

use parapet::conformance::ranking::{rank_ids, rank_names};
use parapet::conformance::sources::{gather, in_order, Source};
use parapet::conformance::sweep::{mutated_input, random_input, repeated, Numbers};
use parapet::matcher::NoDataLoader;
use parapet::text::is_less;
use parapet::transaction::EngineMode;
use parapet::{RuleSet, Transaction, Verdict};

#[test]
fn the_largest_count_comes_first() {
    assert_eq!(
        rank_ids(&vec![(7, 1), (5, 3), (4, 1), (9, 3)]),
        [(5, 3), (9, 3), (4, 1), (7, 1)]
    );
    let named = |n: &str, c: usize| (n.to_string(), c);
    assert_eq!(
        rank_names(vec![named("b", 1), named("ab", 1), named("z", 2), named("a", 1)]),
        [named("z", 2), named("a", 1), named("ab", 1), named("b", 1)]
    );
}

#[test]
fn texts_are_ordered_as_their_bytes() {
    for (a, b) in [("", "a"), ("a", "ab"), ("ab", "b"), ("B", "a"), ("z", "\u{e9}"), ("\u{ffff}", "\u{10000}")] {
        assert!(is_less(a, b));
        assert!(!is_less(b, a));
        assert!(!is_less(a, a));
        assert!(a < b);
    }
}

#[test]
fn a_stream_of_numbers_repeats_from_its_start() {
    let mut numbers = Numbers::new(0x243F6A8885A308D3);
    let mut state: u64 = 0x243F6A8885A308D3;
    for _ in 0..1000 {
        state ^= state << 13;
        state ^= state >> 7;
        state ^= state << 17;
        assert_eq!(numbers.draw(), state);
    }
    assert_eq!(Numbers::new(1).draw(), 1082269761);
}

#[test]
fn inputs_are_drawn_from_the_alphabet() {
    let mut numbers = Numbers::new(1);
    for _ in 0..200 {
        let input = random_input(&mut numbers, b"ab", 8);
        assert!(input.len() < 8);
        assert!(input.iter().all(|b| b"ab".contains(b)));
    }
    let mut numbers = Numbers::new(1);
    // 1082269761 is 1 below a limit of 8, so one byte follows.
    assert_eq!(random_input(&mut numbers, b"x", 8), b"x");
}

#[test]
fn a_mutation_makes_up_to_three_changes() {
    let mut numbers = Numbers::new(99);
    for _ in 0..500 {
        let input = mutated_input(&mut numbers, b"seed", b"!");
        assert!(input.len() <= 16);
        assert!(input.iter().all(|b| b"seed!".contains(b)));
    }
    for _ in 0..50 {
        let input = mutated_input(&mut numbers, b"", b"!");
        assert!(input.iter().all(|b| *b == b'!'));
    }
}

#[test]
fn a_pattern_starts_over() {
    assert_eq!(repeated(b"abc", 7), b"abcabca");
    assert_eq!(repeated(b"abc", 0), b"");
    assert_eq!(repeated(b"", 7), b"");
}

fn source(name: &str, text: &str) -> Source {
    Source {
        name: name.to_string(),
        text: text.to_string(),
    }
}

#[test]
fn setup_and_configuration_come_before_the_rules() {
    let names = |sources: &[Source]| {
        sources
            .iter()
            .map(|s| s.name.clone())
            .collect::<Vec<_>>()
    };
    let files = || vec![source("a.conf", "SecMarker A"), source("b.conf", "SecMarker B")];
    assert_eq!(names(&in_order(None, false, files())), ["a.conf", "b.conf"]);
    assert_eq!(
        names(&in_order(Some("SecMarker S".to_string()), false, files())),
        ["crs-setup.conf", "a.conf", "b.conf"]
    );
    let all = in_order(Some("SecMarker S".to_string()), true, files());
    assert_eq!(
        names(&all),
        ["crs-setup.conf", "crs-test-config", "a.conf", "b.conf"]
    );
    assert_eq!(gather(&all).unwrap().len(), 4);
}

#[test]
fn the_regression_configuration_only_detects() {
    let all = in_order(
        None,
        true,
        vec![source("a.conf", "SecAction \"id:1,phase:1,deny\"")],
    );
    let rules = RuleSet::compile(&gather(&all).unwrap(), &NoDataLoader).unwrap();
    let mut tx = Transaction::new(&rules, EngineMode::Blocking);
    tx.process_uri("GET", "/", "HTTP/1.1");
    assert_eq!(tx.process_request_headers(), Verdict::Allow);
    assert_eq!(tx.matched_ids(), [900005, 1]);
    assert_eq!(tx.anomaly_score("blocking_paranoia_level"), 4);
    assert_eq!(tx.anomaly_score("combined_file_sizes"), 65535);
}

#[test]
fn a_rule_set_of_every_kind_of_directive_reaches_its_verdicts() {
    let source = r#"
SecDefaultAction "phase:2,log,auditlog,pass"
SecAction "id:1,phase:1,pass,nolog,setvar:'tx.threshold=5'"
SecRule REQUEST_COOKIES|!REQUEST_COOKIES:/__utm/|ARGS_NAMES|ARGS|XML:/*|XML://@* "@rx (?i)union\s+select" \
    "id:2,phase:2,block,capture,t:none,t:urlDecodeUni,t:lowercase,\
    msg:'SQLi',logdata:'Matched %{TX.0} in %{MATCHED_VAR_NAME}',\
    tag:'attack-sqli',severity:'CRITICAL',\
    setvar:'tx.score=+5'"
SecRule REQUEST_METHOD "!@within GET HEAD POST" "id:3,phase:1,deny,status:405"
SecRule &REQUEST_HEADERS:Transfer-Encoding "@ge 1" "id:4,phase:1,pass,nolog,chain"
    SecRule REQUEST_METHOD "@rx ^(?:GET|HEAD)$" "t:none"
SecMarker END
SecRule TX:SCORE "@ge %{tx.threshold}" "id:5,phase:2,deny,status:403,msg:'score exceeded'"
SecRule ARGS "@validateByteRange 1-255" "id:6,phase:2,pass,nolog,setvar:'tx.score=-1',setvar:!tx.stale,ctl:ruleRemoveById=942100"
SecRule REQUEST_URI "@detectSQLi" "id:7,phase:1,pass,nolog"
"#;
    let directives = parapet::parse(source, "fixture.conf").unwrap();
    let (rules, errors) = RuleSet::compile_all(&directives, &NoDataLoader);
    assert!(errors.is_empty());
    assert_eq!(rules.rule_count(), 7);
    assert_eq!(rules.marker_count(), 1);
    for (method, uri, expected) in [
        (
            "GET",
            "/?q=1%20UNION%20SELECT%20p%20FROM%20u",
            Verdict::Deny {
                status: 403,
                rule_id: 5,
            },
        ),
        (
            "DELETE",
            "/",
            Verdict::Deny {
                status: 405,
                rule_id: 3,
            },
        ),
        ("GET", "/?q=hello", Verdict::Allow),
    ] {
        let mut tx = Transaction::new(&rules, EngineMode::Blocking);
        tx.process_uri(method, uri, "HTTP/1.1");
        tx.process_request_headers();
        assert_eq!(tx.process_request_body(), expected);
    }
}
