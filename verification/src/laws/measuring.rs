//! What a measurement sends and how it judges what comes back.

use crate::conformance::requests::case_outcome;
use crate::conformance::requests::case_request;
use crate::conformance::requests::CaseOutcome;
use crate::conformance::requests::CaseView;
use crate::conformance::stages::counted;
use crate::conformance::stages::header_value;
use crate::conformance::stages::implied_headers;
use crate::conformance::stages::outcome_of;
use crate::conformance::stages::stage_content_type;
use crate::conformance::stages::stage_outcome;
use crate::conformance::stages::stage_request;
use crate::conformance::stages::stage_run;
use crate::conformance::stages::summary_with;
use crate::conformance::stages::with_headers;
use crate::conformance::stages::Headers;
use crate::conformance::stages::OutcomeView;
use crate::conformance::stages::StageView;
use crate::conformance::stages::SummaryView;
use crate::collections::VariablesView;
use crate::engine::RuleSetView;
use crate::laws::targets::names_are_compared_by_their_letters;
use crate::laws::targets::reads_the_same;
use crate::text::decimal;
use crate::transaction::ids_of;
use crate::transaction::with_request_header;
use crate::transaction::EngineMode;
use crate::Verdict;
use vstd::prelude::*;
use vstd::utf8::encode_utf8;

verus! {

/// A header is looked up by its name, in either case, and the first one counts.
pub proof fn the_first_header_of_a_name_counts(
    name: Seq<char>,
    value: Seq<char>,
    rest: Headers,
    asked: Seq<char>,
)
    ensures
        header_value(Headers::empty(), asked) is None,
        reads_the_same(name, asked) ==> header_value(seq![(name, value)] + rest, asked) == Some(
            value,
        ),
        !reads_the_same(name, asked) ==> header_value(seq![(name, value)] + rest, asked)
            == header_value(rest, asked),
{
    names_are_compared_by_their_letters(name, asked);
    let all = seq![(name, value)] + rest;
    assert(all[0] == (name, value));
    assert(all.drop_first() =~= rest);
}

/// The headers of a request are added in order.
pub proof fn headers_are_sent_in_order(
    vars: VariablesView,
    before: Headers,
    name: Seq<char>,
    value: Seq<char>,
)
    ensures
        with_headers(vars, Headers::empty()) == vars,
        with_headers(vars, before + seq![(name, value)]) == with_request_header(
            with_headers(vars, before),
            name,
            value,
        ),
{
    let all = before + seq![(name, value)];
    assert(all.drop_last() =~= before);
    assert(all.last() == (name, value));
}

/// A body implies a form `Content-Type` and its length in bytes, each unless the
/// stage sets it; without a body nothing is implied.
pub proof fn bodies_imply_their_headers(stage: StageView, data: Seq<char>)
    ensures
        stage.data is None ==> implied_headers(stage).len() == 0,
        stage.data == Some(data) && header_value(stage.headers, "content-type"@) is None
            ==> stage_content_type(stage) == Some("application/x-www-form-urlencoded"@),
        stage.data == Some(data) ==> ({
            let implied = implied_headers(stage);
            let form = header_value(stage.headers, "content-type"@) is None;
            let length = header_value(stage.headers, "content-length"@) is None;
            let n = (if form {
                1int
            } else {
                0
            }) + (if length {
                1int
            } else {
                0
            });
            &&& implied.len() == n
            &&& form ==> implied[0] == ("Content-Type"@, "application/x-www-form-urlencoded"@)
            &&& length ==> implied.last() == ("Content-Length"@, decimal(encode_utf8(data).len()))
        }),
{
    reveal_strlit("content-type");
    reveal_strlit("Content-Type");
    if stage.data == Some(data) && header_value(stage.headers, "content-type"@) is None {
        let implied = implied_headers(stage);
        lemma_lookup(stage.headers, implied, "content-type"@);
        names_are_compared_by_their_letters("Content-Type"@, "content-type"@);
        assert(reads_the_same("Content-Type"@, "content-type"@));
        assert(implied[0] == ("Content-Type"@, "application/x-www-form-urlencoded"@));
    }
}

proof fn lemma_lookup(a: Headers, b: Headers, name: Seq<char>)
    requires
        header_value(a, name) is None,
    ensures
        header_value(a + b, name) == header_value(b, name),
    decreases a.len(),
{
    if a.len() == 0 {
        assert(a + b =~= b);
    } else {
        assert((a + b)[0] == a[0]);
        assert((a + b).drop_first() =~= a.drop_first() + b);
        lemma_lookup(a.drop_first(), b, name);
    }
}

/// A stage is run in detection mode, on the request that it writes; a case is run in
/// blocking mode.
pub proof fn requests_are_sent_in_their_mode(
    rules: RuleSetView,
    stage: StageView,
    case: CaseView,
)
    ensures
        stage_request(rules, stage).mode == EngineMode::DetectionOnly,
        stage_request(rules, stage).rules == rules,
        case_request(rules, case).mode == EngineMode::Blocking,
        case_request(rules, case).rules == rules,
{
}

/// A stage that asserts nothing but a status is skipped; any other is judged by the
/// rules that fired.
pub proof fn stages_are_judged_by_what_fired(rules: RuleSetView, stage: StageView)
    ensures
        stage.has_status && stage.expect_ids.len() == 0 && stage.no_expect_ids.len() == 0
            ==> stage_outcome(rules, stage) == OutcomeView::Skipped,
        !stage.has_status || stage.expect_ids.len() > 0 || stage.no_expect_ids.len() > 0
            ==> stage_outcome(rules, stage) == outcome_of(
            stage,
            ids_of(stage_run(rules, stage).matches),
        ),
{
}

/// A case is right where a denial came exactly if one was expected, and a gap where
/// it is known as one; else it is wrong.
pub proof fn cases_are_judged_by_their_verdict(case: CaseView, status: u16, rule_id: u32)
    ensures
        case.expect_block ==> case_outcome(case, Verdict::Deny { status, rule_id })
            == CaseOutcome::Right,
        !case.expect_block ==> case_outcome(case, Verdict::Allow) == CaseOutcome::Right,
        case.expect_block && case.known_gap is None ==> case_outcome(case, Verdict::Allow)
            == CaseOutcome::Wrong,
        case.expect_block && case.known_gap is Some ==> case_outcome(case, Verdict::Allow)
            == CaseOutcome::KnownGap,
        !case.expect_block && case.known_gap is None ==> case_outcome(
            case,
            Verdict::Deny { status, rule_id },
        ) == CaseOutcome::Wrong,
        !case.expect_block && case.known_gap is Some ==> case_outcome(
            case,
            Verdict::Deny { status, rule_id },
        ) == CaseOutcome::KnownGap,
{
}

/// How often a key was counted.
pub open spec fn count_of(counts: Seq<(u32, usize)>, key: u32) -> nat
    decreases counts.len(),
{
    if counts.len() == 0 {
        0
    } else {
        (if counts[0].0 == key {
            counts[0].1 as nat
        } else {
            0
        }) + count_of(counts.drop_first(), key)
    }
}

/// Counting a key once more raises its count by one, and no other.
pub proof fn counting_adds_one(counts: Seq<(u32, usize)>, key: u32, other: u32)
    requires
        forall|i: int| 0 <= i < counts.len() ==> (#[trigger] counts[i]).1 < usize::MAX,
    ensures
        count_of(counted(counts, key), key) == count_of(counts, key) + 1,
        other != key ==> count_of(counted(counts, key), other) == count_of(counts, other),
    decreases counts.len(),
{
    let after = counted(counts, key);
    reveal_with_fuel(count_of, 2);
    if counts.len() == 0 {
        assert(after.drop_first() =~= seq![]);
    } else if counts[0].0 == key {
        assert(after.drop_first() =~= counts.drop_first());
    } else {
        let rest = counts.drop_first();
        assert forall|i: int| 0 <= i < rest.len() implies (#[trigger] rest[i]).1 < usize::MAX by {
            assert(rest[i] == counts[i + 1]);
        }
        counting_adds_one(rest, key, other);
        assert(after.drop_first() =~= counted(rest, key));
        assert(after[0] == counts[0]);
    }
}

/// One more stage is counted by how it came out; only a failed one is looked into.
pub proof fn stages_are_counted_by_outcome(
    s: SummaryView,
    file: Seq<char>,
    missing: Seq<u32>,
    unexpected: Seq<u32>,
    fired: Seq<u32>,
)
    ensures
        summary_with(s, file, OutcomeView::Passed) == (SummaryView { passed: s.passed + 1, ..s }),
        summary_with(s, file, OutcomeView::Skipped) == (SummaryView { skipped: s.skipped + 1, ..s }),
        ({
            let after = summary_with(s, file, OutcomeView::Failed { missing, unexpected, fired });
            &&& after.failed == s.failed + 1 && after.passed == s.passed && after.skipped
                == s.skipped
            &&& missing.len() == 0 ==> after.never_fired == s.never_fired
            &&& missing.len() == 1 ==> after.never_fired == counted(s.never_fired, missing[0])
            &&& unexpected.len() == 0 ==> after.false_positives == s.false_positives
            &&& unexpected.len() == 1 ==> after.false_positives == counted(
                s.false_positives,
                unexpected[0],
            )
            &&& after.failing_files == counted(s.failing_files, file)
        }),
{
    reveal_with_fuel(crate::conformance::stages::all_counted, 2);
}

} // verus!
