//! What compiled rule sets and operators keep.

use parapet::action::{Action, ActionError, SetVar, SetVarOp, Transformation};
use parapet::engine::{Disruptive, RuleSet};
use parapet::macros::{EmptyContext, Template};
use parapet::matcher::{
    parse_i64, phrases_in, rx_result, sqli_result, CompiledOperator, DataLoader, DirDataLoader,
    NoDataLoader,
};
use parapet::operator::{Operator, OperatorError};
use parapet::parse::tokenize;
use parapet::regex_compat::{compile, escape_literal_braces};
use parapet::{parse, parse_all, Directive, Phase};

struct Words;

impl DataLoader for Words {
    fn load(&self, name: &str) -> Result<Vec<u8>, String> {
        if name == "words.data" {
            Ok(b"alpha\nbeta\n".to_vec())
        } else {
            Err(format!("no {name}"))
        }
    }
}

fn set(source: &str) -> RuleSet {
    RuleSet::compile(&parse(source, "t.conf").unwrap(), &NoDataLoader).unwrap()
}

fn operator(spec: &str) -> CompiledOperator {
    CompiledOperator::compile(&Operator::parse(spec).unwrap(), &NoDataLoader).unwrap()
}

fn hits(op: &CompiledOperator, subject: &[u8]) -> bool {
    op.evaluate(subject, &EmptyContext, false).matched
}

#[test]
fn an_accepted_rule_set_jumps_ahead() {
    let rs = set("SecRule ARGS \"@rx a\" \"id:1,phase:1,pass,skipAfter:END\"\nSecMarker END");
    assert!(rs.jumps_lead_ahead());
    assert_eq!(rs.marker_position("END"), Some(1));
    assert!(rs.rule_at(1).is_none());
    let back = parse(
        "SecMarker TOP\nSecRule ARGS \"@rx a\" \"id:1,phase:1,pass,skipAfter:TOP\"",
        "t.conf",
    )
    .unwrap();
    let (looping, errors) = RuleSet::compile_all(&back, &NoDataLoader);
    assert_eq!(errors.len(), 1);
    assert!(!looping.jumps_lead_ahead());
}

#[test]
fn a_later_marker_takes_the_place_of_an_earlier_one() {
    let rs = set("SecMarker A\nSecMarker B\nSecMarker A");
    assert_eq!(rs.marker_count(), 2);
    assert_eq!(rs.entry_count(), 3);
    assert_eq!(rs.marker_position("A"), Some(2));
    assert_eq!(rs.marker_position("B"), Some(1));
    assert_eq!(rs.marker_position("C"), None);
}

#[test]
fn every_chain_is_a_rule_or_an_error() {
    let source = "SecRule ARGS \"@rx a\" \"id:1,phase:1,deny,chain\"\n\
        SecRule ARGS \"@rx b\" \"t:none\"\n\
        SecRule ARGS \"@ipMatch x\" \"id:2,phase:1\"\n\
        SecAction \"id:3,phase:1,pass\"";
    let (rs, errors) = RuleSet::compile_all(&parse(source, "t.conf").unwrap(), &NoDataLoader);
    assert_eq!(rs.rule_count() + errors.len(), 3);
    assert_eq!(rs.rule_at(0).unwrap().chain.len(), 1);
}

#[test]
fn no_block_is_left_in_a_rule_set() {
    let rs = set(
        "SecRule ARGS \"@rx a\" \"id:1,phase:1,block\"\n\
         SecDefaultAction \"phase:1,deny,status:418\"\n\
         SecRule ARGS \"@rx a\" \"id:2,phase:1,block\"\n\
         SecRule ARGS \"@rx a\" \"id:3,phase:1,block,status:409\"\n\
         SecRule ARGS \"@rx a\" \"id:4,phase:2,block\"",
    );
    let shown: Vec<(Option<Disruptive>, Option<u16>)> = (0..4)
        .map(|i| {
            let r = rs.rule_at(i).unwrap();
            (r.disruptive, r.status)
        })
        .collect();
    assert_eq!(
        shown,
        [
            (Some(Disruptive::Pass), None),
            (Some(Disruptive::Deny), Some(418)),
            (Some(Disruptive::Deny), Some(409)),
            (Some(Disruptive::Pass), None),
        ]
    );
}

#[test]
fn the_phases_share_out_the_rules() {
    let rs = set(
        "SecAction \"id:1,phase:1,pass\"\nSecAction \"id:2,pass\"\nSecAction \"id:3,phase:5,pass\"",
    );
    let all = [
        Phase::RequestHeaders,
        Phase::RequestBody,
        Phase::ResponseHeaders,
        Phase::ResponseBody,
        Phase::Logging,
    ];
    let counts: Vec<usize> = all.iter().map(|p| rs.rules_in_phase(*p)).collect();
    assert_eq!(counts, [1, 1, 0, 0, 1]);
    assert_eq!(counts.iter().sum::<usize>(), rs.rule_count());
}

#[test]
fn data_that_cannot_be_loaded_refuses_the_rule_set() {
    let source = "SecRule ARGS \"@pmFromFile words.data\" \"id:1,phase:1,pass\"";
    let directives = parse(source, "t.conf").unwrap();
    assert!(RuleSet::compile(&directives, &Words).is_ok());
    let e = RuleSet::compile(&directives, &NoDataLoader).unwrap_err();
    assert!(e.to_string().starts_with("rule 1 (line 1): operator @pmFromFile: "));
    let (rs, errors) = RuleSet::compile_loaded(&directives, &vec![Err("gone".to_string())]);
    assert_eq!(rs.rule_count(), 0);
    assert_eq!(
        errors[0].to_string(),
        "rule 1 (line 1): operator @pmFromFile: gone"
    );
}

#[test]
fn metadata_lands_on_the_starter_of_a_chain_alone() {
    let rs = set(
        "SecRule ARGS \"@rx a\" \"id:1,phase:1,deny,t:lowercase,tag:'x',chain\"\n\
         SecRule ARGS \"!@rx b\" \"t:urlDecodeUni,tag:'y',status:500\"",
    );
    let rule = rs.rule_at(0).unwrap();
    assert_eq!(rule.tags, ["x"]);
    assert_eq!(rule.status, None);
    assert_eq!(rule.transformations, [Transformation::Lowercase]);
    assert!(rule.chain[0].negated);
    assert_eq!(rule.chain[0].transformations, [Transformation::UrlDecodeUni]);
}

#[test]
fn every_line_is_a_directive_or_an_error() {
    let source = "# comment\n\nSecMarker A\nSecBogus x\nSecMarker \\\n  B\nSecRule ARGS\n";
    let (directives, errors) = parse_all(source, "s");
    assert_eq!(directives.len(), 2);
    assert_eq!(errors.len(), 2);
    assert!(matches!(&directives[1], Directive::Marker(name) if name == "B"));
    assert_eq!(errors[0].line, 4);
    assert_eq!(errors[1].line, 7);
}

#[test]
fn errors_differ_between_sources_in_their_name_alone() {
    let (_, a) = parse_all("SecBogus x", "one");
    let (_, b) = parse_all("SecBogus x", "two");
    assert_eq!(a[0].line, b[0].line);
    assert_eq!(a[0].source_name, "one");
    assert_eq!(b[0].source_name, "two");
}

#[test]
fn a_template_without_macros_expands_to_its_source() {
    let t = Template::parse("plain %{open and 100%");
    assert!(t.is_literal());
    assert_eq!(&*t.expand(&EmptyContext), b"plain %{open and 100%");
    let m = Template::parse("a%{x}b");
    assert!(!m.is_literal());
    assert_eq!(&*m.expand(&EmptyContext), b"ab");
}

#[test]
fn an_accepted_pattern_is_used_as_it_is() {
    let c = compile(r"a{2}\d+").unwrap();
    assert_eq!(c.repaired_from, None);
    assert_eq!(c.regex.as_str(), r"a{2}\d+");
    let r = compile(r"x{y").unwrap();
    assert_eq!(r.repaired_from.as_deref(), Some(r"x\{y"));
    assert_eq!(r.regex.as_str(), r"x\{y");
    assert_eq!(escape_literal_braces("no braces [x]"), "no braces [x]");
}

#[test]
fn a_phrase_is_found_in_any_case_and_only_where_it_is() {
    let op = operator("@pm Alpha beta");
    assert!(hits(&op, b"xxALPHAyy"));
    assert!(hits(&op, b"bEtA"));
    assert!(!hits(&op, b"alph"));
    assert!(!hits(&op, b""));
}

#[test]
fn the_full_byte_range_matches_nothing() {
    let op = operator("@validateByteRange 0-255");
    let all: Vec<u8> = (0..=255).collect();
    assert!(!hits(&op, &all));
    assert!(hits(&operator("@validateByteRange 0-127"), &all));
}

#[test]
fn a_loader_is_asked_for_data_files_alone() {
    let rx = Operator::parse("@rx a").unwrap();
    assert!(CompiledOperator::compile(&rx, &Words).is_ok());
    assert!(CompiledOperator::compile(&rx, &NoDataLoader).is_ok());
    let file = Operator::parse("@pmFromFile words.data").unwrap();
    assert!(hits(&CompiledOperator::compile(&file, &Words).unwrap(), b"ALPHA"));
    let other = Operator::parse("@pmFromFile other.data").unwrap();
    assert_eq!(
        CompiledOperator::compile(&other, &Words).unwrap_err().to_string(),
        "operator @pmFromFile: no other.data"
    );
}

#[test]
fn a_data_file_is_found_under_its_directory() {
    let loader = DirDataLoader::new("/rules");
    assert_eq!(loader.locate("a.data").unwrap(), "/rules/a.data");
    assert!(loader.locate("x/../a.data").is_err());
    assert!(loader.locate("/a.data").is_err());
}

#[test]
fn data_lines_lose_comments_and_white_space() {
    assert_eq!(phrases_in("# c\n a b \n\n\tc\r\n"), ["a b", "c"]);
}

#[test]
fn integers_are_read_from_the_front() {
    assert_eq!(parse_i64(b" 12abc"), Some(12));
    assert_eq!(parse_i64(b"-3"), Some(-3));
    assert_eq!(parse_i64(b""), Some(0));
    assert_eq!(parse_i64(b"abc"), Some(0));
    assert_eq!(parse_i64(&[0xff]), None);
}

#[test]
fn outside_answers_become_results() {
    assert!(!rx_result(None).matched);
    let found = rx_result(Some(vec![Some(b"ab".to_vec()), None]));
    assert!(found.matched);
    assert_eq!(found.captures, vec![b"ab".to_vec(), Vec::new()]);
    assert!(!sqli_result(false, Some("s&1".to_string()), true).matched);
    let sqli = sqli_result(true, Some("s&1".to_string()), true);
    assert_eq!(sqli.captures, vec![b"s&1".to_vec()]);
    assert!(sqli_result(true, Some("s&1".to_string()), false).captures.is_empty());
}

#[test]
fn unknown_names_are_refused() {
    assert_eq!(
        Action::parse("bogus:1").unwrap_err(),
        ActionError::Unsupported {
            name: "bogus".to_string()
        }
    );
    assert!(matches!(
        Action::parse("t:bogus").unwrap_err(),
        ActionError::BadArgument { name, .. } if name == "t"
    ));
    assert_eq!(
        Operator::parse("@bogus x").unwrap_err(),
        OperatorError::Unsupported {
            name: "bogus".to_string()
        }
    );
}

#[test]
fn operators_keep_their_name() {
    for name in ["rx", "pm", "pmFromFile", "streq", "within", "lt", "detectXSS"] {
        assert_eq!(Operator::parse(&format!("@{name} 1")).unwrap().name(), name);
    }
    assert_eq!(Operator::parse("@pmf x").unwrap().name(), "pmFromFile");
}

#[test]
fn assignments_read_back() {
    let setvar = |text: &str| match Action::parse(&format!("setvar:{text}")) {
        Ok(Action::SetVar(v)) => v,
        other => panic!("{other:?}"),
    };
    let of = |name: &str, op: SetVarOp, value: Option<&str>| SetVar {
        name: name.to_string(),
        op,
        value: value.map(str::to_string),
    };
    assert_eq!(setvar("tx.a=v=w"), of("tx.a", SetVarOp::Assign, Some("v=w")));
    assert_eq!(setvar("tx.a=+v"), of("tx.a", SetVarOp::Add, Some("v")));
    assert_eq!(setvar("tx.a=-v"), of("tx.a", SetVarOp::Subtract, Some("v")));
    assert_eq!(setvar("!tx.a"), of("tx.a", SetVarOp::Delete, None));
    assert_eq!(setvar("tx.a"), of("tx.a", SetVarOp::Assign, None));
}

#[test]
fn quoted_text_is_one_token() {
    assert_eq!(tokenize("\"a b\tc\"").unwrap(), ["a b\tc"]);
    assert_eq!(tokenize("x\"a b\"y z").unwrap(), ["xa by", "z"]);
    assert_eq!(tokenize("\"a \\\" b\"").unwrap(), ["a \" b"]);
    assert!(tokenize("\"a\\\"").is_err());
}

#[test]
fn errors_are_numbered_in_order() {
    let (_, errors) = parse_all("SecA\nSecMarker \\\nM\n\nSecB \\\n x\nSecC", "s");
    let lines: Vec<usize> = errors.iter().map(|e| e.line).collect();
    assert_eq!(lines, [1, 5, 7]);
}

#[test]
fn repairs_touch_only_backslashes() {
    let bare = |s: &str| s.replace('\\', "");
    for pattern in [r"{{.*?}}", r"^\(\s*\)\s+{", r"[\&\|\!]\s*{", r":\d{1,2}:{.*}"] {
        let compiled = compile(pattern).unwrap();
        let repaired = compiled.repaired_from.unwrap();
        assert_ne!(repaired, pattern);
        assert_eq!(bare(&repaired), bare(pattern));
    }
}
