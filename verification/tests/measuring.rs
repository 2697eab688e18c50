//! Conformance measurements.

use parapet::conformance::patterns::{
    compile_report, cover, read_corpus, tally, CorpusError, PatternItem, PatternOutcome,
};
use parapet::conformance::references::{
    compare, expected_divergence, from_hex, judge, to_hex, Judgement, ReferenceResult,
};
use parapet::conformance::requests::{
    count_outcomes, inspect, judge_case, run_case, CaseOutcome, InspectCase, RequestCase,
};
use parapet::conformance::sources::{gather, Source};
use parapet::conformance::stages::{
    judge_stage, run_stage, run_stages, summarize, Stage, StageOutcome,
};
use parapet::matcher::NoDataLoader;
use parapet::{parse, RuleSet, Verdict};

fn rules(source: &str) -> RuleSet {
    RuleSet::compile(&parse(source, "t.conf").unwrap(), &NoDataLoader).unwrap()
}

fn reference(name: &str, input: &str, output: &str, err: &str) -> ReferenceResult {
    ReferenceResult {
        name: name.to_string(),
        input: input.to_string(),
        output: output.to_string(),
        err: err.to_string(),
    }
}

fn stage(uri: &str, data: Option<&str>, expect: &[u32], forbid: &[u32]) -> Stage {
    Stage {
        file: "941100.yaml".to_string(),
        test_id: Some(3),
        stage: 1,
        desc: "d".to_string(),
        method: "POST".to_string(),
        uri: uri.to_string(),
        version: "HTTP/1.1".to_string(),
        headers: vec![("Host".to_string(), "h".to_string())],
        data: data.map(str::to_string),
        expect_ids: expect.to_vec(),
        no_expect_ids: forbid.to_vec(),
        has_status: false,
    }
}

fn item(pattern: Option<&str>, id: Option<&str>, file: Option<&str>) -> PatternItem {
    PatternItem {
        pattern: pattern.map(str::to_string),
        id: id.map(str::to_string),
        file: file.map(str::to_string),
    }
}

#[test]
fn hexadecimal_reads_back() {
    let all: Vec<u8> = (0..=255).collect();
    assert_eq!(from_hex(&to_hex(&all)), Some(all));
    assert_eq!(to_hex(&[0x0a, 0xff]), "0aff");
    assert_eq!(from_hex("0Aff"), Some(vec![0x0a, 0xff]));
    assert_eq!(from_hex("+f"), Some(vec![0x0f]));
    assert_eq!(from_hex("abc"), None);
    assert_eq!(from_hex("zz"), None);
    assert_eq!(from_hex("\u{e9}"), None);
}

#[test]
fn divergences_are_explained_for_specific_inputs() {
    assert!(expected_divergence("lowercase", b"\xff", b"a", b"b").is_some());
    assert!(expected_divergence("lowercase", b"ok", b"a", b"b").is_none());
    assert!(expected_divergence("htmlEntityDecode", b"", &[0xa0], &[0xc2, 0xa0]).is_some());
    assert!(expected_divergence("htmlEntityDecode", b"", &[0xa0], &[0xa1]).is_none());
    assert!(expected_divergence("normalizePath", b"/", b"/", b"//").is_some());
    assert!(expected_divergence("normalizePath", b"/", b"/", b"/").is_none());
    for path in ["a:b", "a./b", "a\\b. ", "a \\b", "x."] {
        assert!(expected_divergence("normalizePathWin", path.as_bytes(), b"", b"x").is_some());
    }
    for path in ["", "a\\b", ".a/b", "a b/c"] {
        assert!(expected_divergence("normalizePathWin", path.as_bytes(), b"", b"x").is_none());
    }
    assert!(expected_divergence("jsDecode", b"\\101", b"A", b"\0").is_some());
    assert!(expected_divergence("jsDecode", b"101", b"A", b"\0").is_none());
    assert!(expected_divergence("sha1", b"", b"", b"").is_none());
}

#[test]
fn cases_are_judged() {
    assert!(matches!(judge(&reference("lowercase", "41", "61", "")), Judgement::Agrees));
    assert!(matches!(judge(&reference("nope", "41", "61", "")), Judgement::Skipped));
    assert!(matches!(judge(&reference("lowercase", "41", "", "boom")), Judgement::Skipped));
    assert!(matches!(judge(&reference("lowercase", "4", "61", "")), Judgement::BadInput));
    assert!(matches!(judge(&reference("lowercase", "ff", "efbfbd", "")), Judgement::Accepted(_)));
    assert!(matches!(
        judge(&reference("lowercase", "41", "41", "")),
        Judgement::Diverges(got) if got == "61"
    ));
}

#[test]
fn every_case_is_compared_or_skipped() {
    let cases = vec![
        reference("lowercase", "41", "61", ""),
        reference("removeNulls", "00", "", ""),
        reference("lowercase", "41", "41", ""),
        reference("lowercase", "ff", "efbfbd", ""),
        reference("nope", "41", "61", ""),
    ];
    let c = compare(&cases).unwrap();
    assert_eq!((c.compared, c.skipped, c.accepted, c.diverged), (4, 1, 1, 1));
    assert_eq!(c.rows.len(), 2);
    assert_eq!(c.rows[0].name, "lowercase");
    assert_eq!(c.rows[0].compared, 3);
    assert_eq!(c.rows[0].accepted, 1);
    assert!(c.rows[0].reason.is_some());
    assert_eq!(c.rows[0].diverged[0].want, "41");
    assert_eq!(c.rows[1].diverged.len(), 0);
    assert_eq!(
        compare(&vec![reference("lowercase", "x", "", "")]).unwrap_err(),
        "bad input hex for lowercase"
    );
}

#[test]
fn stages_are_labelled() {
    let mut s = stage("/", None, &[], &[]);
    assert_eq!(s.label(), "941100#3.1");
    s.file = "a.yaml.yaml".to_string();
    s.test_id = None;
    assert_eq!(s.label(), "a#0.1");
}

#[test]
fn a_body_implies_a_content_type_and_a_length() {
    let rs = rules(
        "SecRule ARGS_NAMES \"@streq q\" \"id:1,phase:2,pass\"\n\
         SecRule REQUEST_HEADERS:Content-Length \"@streq 7\" \"id:2,phase:1,pass\"\n\
         SecRule REMOTE_ADDR \"@ipMatch 127.0.0.1\" \"id:3,phase:5,deny\"",
    );
    assert_eq!(run_stage(&rs, &stage("/", Some("q=\u{20ac}xy"), &[], &[])), [2, 1, 3]);
    assert_eq!(run_stage(&rs, &stage("/", None, &[], &[])), [3]);
    let mut own = stage("/", Some("q=1"), &[], &[]);
    own.headers.push(("content-TYPE".to_string(), "text/plain".to_string()));
    own.headers.push(("Content-Length".to_string(), "7".to_string()));
    assert_eq!(run_stage(&rs, &own), [2, 3]);
}

#[test]
fn a_stage_passes_when_its_assertions_hold() {
    let s = stage("/", None, &[1, 2], &[3]);
    assert!(matches!(judge_stage(&s, vec![2, 1, 1]), StageOutcome::Passed));
    assert!(matches!(
        judge_stage(&s, vec![1, 3]),
        StageOutcome::Failed { missing, unexpected, fired }
            if missing == [2] && unexpected == [3] && fired == [1, 3]
    ));
}

#[test]
fn every_stage_is_accounted_for() {
    let rs = rules("SecRule ARGS \"@rx a\" \"id:1,phase:1,deny\"");
    let mut status = stage("/", None, &[], &[]);
    status.has_status = true;
    let stages = vec![
        stage("/?q=a", None, &[1], &[]),
        stage("/?q=b", None, &[1, 9], &[]),
        stage("/?q=a", None, &[9], &[1]),
        status,
    ];
    let outcomes = run_stages(&rs, &stages);
    let s = summarize(&stages, &outcomes);
    assert_eq!((s.passed, s.failed, s.skipped), (1, 2, 1));
    assert_eq!(s.never_fired, [(1, 1), (9, 2)]);
    assert_eq!(s.false_positives, [(1, 1)]);
    assert_eq!(s.failing_files, [("941100.yaml".to_string(), 2)]);
}

#[test]
fn a_stage_is_not_interrupted() {
    let rs = rules("SecAction \"id:1,phase:1,deny\"\nSecAction \"id:2,phase:5,deny\"");
    assert_eq!(run_stage(&rs, &stage("/", None, &[], &[])), [1, 2]);
}

#[test]
fn requests_are_run_and_judged() {
    let rs = rules(
        "SecRule ARGS \"@rx bad\" \"id:1,phase:2,deny\"\n\
         SecRule REQUEST_HEADERS:Host \"!@streq example.test\" \"id:2,phase:1,deny\"",
    );
    let mut case = RequestCase {
        name: "n",
        method: "POST",
        uri: "/",
        body: Some(("application/x-www-form-urlencoded", "q=bad")),
        expect_block: true,
        known_gap: None,
    };
    let tx = run_case(&rs, &case);
    assert!(matches!(tx.verdict(), Verdict::Deny { rule_id: 1, .. }));
    assert_eq!(judge_case(&case, *tx.verdict()), CaseOutcome::Right);
    assert_eq!(judge_case(&case, Verdict::Allow), CaseOutcome::Wrong);
    case.known_gap = Some("why");
    assert_eq!(judge_case(&case, Verdict::Allow), CaseOutcome::KnownGap);
    let outcomes = vec![CaseOutcome::Right, CaseOutcome::Wrong, CaseOutcome::Right];
    assert_eq!(count_outcomes(&outcomes, CaseOutcome::Right), 2);
    assert_eq!(count_outcomes(&outcomes, CaseOutcome::Wrong), 1);
    assert_eq!(count_outcomes(&outcomes, CaseOutcome::KnownGap), 0);
}

#[test]
fn inspection_uses_the_default_setup() {
    let rs = rules(
        "SecRule TX:INBOUND_ANOMALY_SCORE_THRESHOLD \"!@eq 5\" \"id:1,phase:1,deny\"\n\
         SecRule REQUEST_COOKIES:sid \"@streq x\" \"id:2,phase:1,deny\"\n\
         SecRule ARGS \"@rx bad\" \"id:3,phase:2,deny\"",
    );
    let mut case = InspectCase {
        method: "GET",
        uri: "/",
        cookies: None,
        body: None,
    };
    assert_eq!(inspect(&rs, &case), Verdict::Allow);
    case.body = Some(("application/x-www-form-urlencoded", "a=bad".to_string()));
    assert!(matches!(inspect(&rs, &case), Verdict::Deny { rule_id: 3, .. }));
    case.cookies = Some("sid=x".to_string());
    assert!(matches!(inspect(&rs, &case), Verdict::Deny { rule_id: 2, .. }));
}

#[test]
fn every_pattern_is_compiled_once() {
    let coverage = cover(&vec![
        item(Some("a+"), Some("1"), None),
        item(Some("{{x}}"), None, Some("f.conf")),
        item(Some("a+"), Some("2"), None),
        item(Some("(a)\\1"), None, None),
    ])
    .unwrap();
    assert_eq!(coverage.unlabelled, 2);
    assert_eq!(coverage.rows.len(), 3);
    assert_eq!(coverage.rows[0].label, "(chained, ?)");
    assert!(matches!(coverage.rows[0].outcome, PatternOutcome::Refused(_)));
    assert_eq!(coverage.rows[1].label, "1");
    assert!(matches!(coverage.rows[1].outcome, PatternOutcome::AsAuthored));
    assert_eq!(coverage.rows[2].label, "(chained, f.conf)");
    assert!(matches!(coverage.rows[2].outcome, PatternOutcome::Repaired));
    let tally = tally(&coverage);
    assert_eq!(tally.as_authored, 1);
    assert_eq!(tally.repaired, ["(chained, f.conf)"]);
    assert_eq!(tally.refused.len(), 1);
    assert_eq!(tally.refused[0].0, "(chained, ?)");
    assert!(!tally.passes());
    assert_eq!(
        cover(&vec![item(Some("a"), None, None), item(None, None, None)]).unwrap_err(),
        1
    );
}

#[test]
fn a_corpus_is_read_from_its_text() {
    let text = r#"[
        {"pattern": "b+", "id": "2", "extra": [1]},
        {"file": "f.conf", "pattern": "{{x}}", "id": 7},
        {"pattern": "a", "id": "1"},
        {"pattern": "b+", "id": "3"}
    ]"#;
    let items = read_corpus(text).unwrap();
    assert_eq!(items.len(), 4);
    assert_eq!(items[1].pattern.as_deref(), Some("{{x}}"));
    // An id that is no text is none.
    assert_eq!(items[1].id, None);
    assert_eq!(items[1].file.as_deref(), Some("f.conf"));
    assert_eq!(items[0].file, None);

    let report = compile_report(text).unwrap();
    let patterns: Vec<&str> = report.coverage.rows.iter().map(|r| r.pattern.as_str()).collect();
    assert_eq!(patterns, ["a", "b+", "{{x}}"]);
    assert_eq!(report.coverage.rows[1].label, "2");
    assert_eq!(report.coverage.unlabelled, 1);
    assert_eq!(report.tally.as_authored, 2);
    assert_eq!(report.tally.repaired, ["(chained, f.conf)"]);
    assert!(report.tally.refused.is_empty());
    assert!(report.tally.passes());
    assert!(compile_report("[]").unwrap().tally.passes());
}

#[test]
fn a_corpus_that_cannot_be_read_or_labelled_is_refused() {
    for text in ["", "{}", "3", "[1,", "[] x"] {
        assert!(read_corpus(text).is_err());
        assert!(matches!(compile_report(text), Err(CorpusError::Unreadable(e)) if !e.is_empty()));
    }
    assert_eq!(
        read_corpus("{}").unwrap_err(),
        "invalid type: map, expected a sequence at line 1 column 0"
    );
    for (text, entry) in [
        (r#"[{"pattern":"a"}, { "id" : "x", "b":1.50 }, 3]"#, r#"{"b":1.5,"id":"x"}"#),
        (r#"["a\n"]"#, r#""a\n""#),
        (r#"[{"pattern":null}]"#, r#"{"pattern":null}"#),
    ] {
        match compile_report(text) {
            Err(CorpusError::NoPattern(shown)) => assert_eq!(shown, entry),
            other => panic!("{other:?}"),
        }
    }
}

#[test]
fn sources_are_gathered_in_order_or_refused() {
    let source = |name: &str, text: &str| Source {
        name: name.to_string(),
        text: text.to_string(),
    };
    let all = gather(&vec![source("a", "SecMarker A"), source("b", "SecMarker B\nSecMarker C")]);
    assert_eq!(all.unwrap().len(), 3);
    let e = gather(&vec![source("a", "SecMarker A"), source("b", "SecBogus\nSecBogus")]).unwrap_err();
    assert_eq!(e.position, 1);
    assert_eq!(e.errors.len(), 2);
    assert_eq!(e.errors[1].to_string(), "b:2: unsupported directive \"SecBogus\"");
}
