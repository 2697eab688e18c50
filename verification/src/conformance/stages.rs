//! The regression suite of the Core Rule Set, run in process.
//!
//! `go-ftw` normally drives a live web server with a WAF in front and greps
//! the error log. Running the same corpus directly against the library is
//! faster, deterministic, and gives a label when something fails, at the cost
//! of not exercising a real HTTP stack. The assertions are the same ones: which
//! rule ids fired.
//!
//! Stages run in detection-only mode. The assertions are about which rules
//! appear in the log, so a disruptive action that ended the transaction early
//! would hide later rules and turn a correct engine into a failing one.

use crate::bytes::bytes_of;
use crate::collections::VariablesView;
use crate::engine::RuleSet;
use crate::engine::RuleSetView;
use crate::text::before;
use crate::text::chars_of;
use crate::text::decimal;
use crate::text::eq_ignore_case_str;
use crate::text::same_ignoring_case;
use crate::text::same_str;
use crate::text::string_of;
use crate::text::write_decimal;
use crate::transaction::detection_never_denies;
use crate::transaction::ids_of;
use crate::transaction::never_turns_blocking_on;
use crate::transaction::new_transaction;
use crate::transaction::phase_run;
use crate::transaction::phases_take_nothing_back;
use crate::transaction::with_request_body;
use crate::transaction::with_request_header;
use crate::transaction::with_request_line;
use crate::transaction::EngineMode;
use crate::transaction::Transaction;
use crate::transaction::TransactionView;
use crate::Phase;
use crate::Verdict;
use vstd::prelude::*;
use vstd::utf8::encode_utf8;

verus! {

// ---------------------------------------------------------------------------
// Stages

/// One stage of a regression test: a request, and which rules it must and must
/// not make fire.
#[derive(Debug)]
pub struct Stage {
    /// The file the test comes from.
    pub file: String,
    /// The number of the test.
    pub test_id: Option<u32>,
    /// The number of the stage within the test.
    pub stage: u32,
    /// What the test is about.
    pub desc: String,
    /// The request line.
    pub method: String,
    pub uri: String,
    pub version: String,
    /// The request headers, in order.
    pub headers: Vec<(String, String)>,
    /// The request body.
    pub data: Option<String>,
    /// The rules that must fire.
    pub expect_ids: Vec<u32>,
    /// The rules that must not fire.
    pub no_expect_ids: Vec<u32>,
    /// Whether the stage asserts a response status.
    pub has_status: bool,
}

/// Headers in order.
pub type Headers = Seq<(Seq<char>, Seq<char>)>;

/// The view of a [`Stage`].
#[verifier::ext_equal]
pub struct StageView {
    pub file: Seq<char>,
    pub test_id: Option<u32>,
    pub stage: u32,
    pub desc: Seq<char>,
    pub method: Seq<char>,
    pub uri: Seq<char>,
    pub version: Seq<char>,
    pub headers: Headers,
    pub data: Option<Seq<char>>,
    pub expect_ids: Seq<u32>,
    pub no_expect_ids: Seq<u32>,
    pub has_status: bool,
}

impl DeepView for Stage {
    type V = StageView;

    open spec fn deep_view(&self) -> StageView {
        StageView {
            file: self.file@,
            test_id: self.test_id,
            stage: self.stage,
            desc: self.desc@,
            method: self.method@,
            uri: self.uri@,
            version: self.version@,
            headers: Seq::new(
                self.headers@.len(),
                |i: int| (self.headers@[i].0@, self.headers@[i].1@),
            ),
            data: self.data.deep_view(),
            expect_ids: self.expect_ids@,
            no_expect_ids: self.no_expect_ids@,
            has_status: self.has_status,
        }
    }
}

/// A file name without `.yaml`, as often as it ends in it.
pub open spec fn without_yaml(file: Seq<char>) -> Seq<char>
    decreases file.len(),
{
    let n = file.len() - 5;
    if n >= 0 && file.skip(n) == seq!['.', 'y', 'a', 'm', 'l'] {
        without_yaml(file.take(n))
    } else {
        file
    }
}

impl StageView {
    /// How a stage is called: by file, test and stage.
    pub open spec fn label(self) -> Seq<char> {
        without_yaml(self.file) + "#"@ + decimal(
            (match self.test_id {
                Some(id) => id,
                None => 0,
            }) as nat,
        ) + "."@ + decimal(self.stage as nat)
    }

    /// Whether a stage asserts nothing but a status, which needs a blocking run
    /// and a real HTTP response.
    pub open spec fn is_status_only(self) -> bool {
        self.has_status && self.expect_ids.len() == 0 && self.no_expect_ids.len() == 0
    }
}

impl Stage {
    /// How the stage is called: by file, test and stage.
    pub fn label(&self) -> (r: String)
        ensures
            r@ == self.deep_view().label(),
    {
        let chars = chars_of(self.file.as_str());
        let mut n: usize = chars.len();
        assert(chars@.take(n as int) =~= chars@);
        while n >= 5 && chars[n - 5] == '.' && chars[n - 4] == 'y' && chars[n - 3] == 'a'
            && chars[n - 2] == 'm' && chars[n - 1] == 'l'
            invariant
                n <= chars@.len(),
                without_yaml(chars@) == without_yaml(chars@.take(n as int)),
            decreases n,
        {
            let ghost name = chars@.take(n as int);
            assert(name.skip(n - 5) =~= seq!['.', 'y', 'a', 'm', 'l']);
            assert(name.take(n - 5) =~= chars@.take(n - 5));
            n = n - 5;
        }
        proof {
            let name = chars@.take(n as int);
            if n >= 5 && name.skip(n - 5) == seq!['.', 'y', 'a', 'm', 'l'] {
                assert(name.skip(n - 5)[0] == chars@[n - 5]);
                assert(name.skip(n - 5)[1] == chars@[n - 4]);
                assert(name.skip(n - 5)[2] == chars@[n - 3]);
                assert(name.skip(n - 5)[3] == chars@[n - 2]);
                assert(name.skip(n - 5)[4] == chars@[n - 1]);
            }
        }
        let test: u32 = match self.test_id {
            Some(id) => id,
            None => 0,
        };
        let mut out = string_of(before(chars.as_slice(), n));
        out.append("#");
        out.append(write_decimal(test as u64).as_str());
        out.append(".");
        out.append(write_decimal(self.stage as u64).as_str());
        out
    }

    /// Whether the stage asserts nothing but a status, which needs a blocking run
    /// and a real HTTP response.
    pub fn is_status_only(&self) -> (r: bool)
        ensures
            r == self.deep_view().is_status_only(),
    {
        self.has_status && self.expect_ids.len() == 0 && self.no_expect_ids.len() == 0
    }
}

// ---------------------------------------------------------------------------
// Running a stage

/// The value of the first header of a name.
pub open spec fn header_value(headers: Headers, name: Seq<char>) -> Option<Seq<char>>
    decreases headers.len(),
{
    if headers.len() == 0 {
        None
    } else if same_ignoring_case(headers[0].0, name) {
        Some(headers[0].1)
    } else {
        header_value(headers.drop_first(), name)
    }
}

/// The variables after some request headers, in order.
pub open spec fn with_headers(vars: VariablesView, headers: Headers) -> VariablesView
    decreases headers.len(),
{
    if headers.len() == 0 {
        vars
    } else {
        with_request_header(
            with_headers(vars, headers.drop_last()),
            headers.last().0,
            headers.last().1,
        )
    }
}

/// The headers that a client adds to the request of a stage: a body implies a
/// `Content-Type` and a `Content-Length` unless the test sets them. Without this
/// the form of a body would not be parsed.
pub open spec fn implied_headers(stage: StageView) -> Headers {
    match stage.data {
        None => seq![],
        Some(data) => {
            let form = if header_value(stage.headers, "content-type"@) is None {
                seq![("Content-Type"@, "application/x-www-form-urlencoded"@)]
            } else {
                seq![]
            };
            let length = if header_value(stage.headers, "content-length"@) is None {
                seq![("Content-Length"@, decimal(encode_utf8(data).len()))]
            } else {
                seq![]
            };
            form + length
        },
    }
}

/// The media type of the body of a stage.
pub open spec fn stage_content_type(stage: StageView) -> Option<Seq<char>> {
    header_value(stage.headers + implied_headers(stage), "content-type"@)
}

/// The transaction of a stage before its first phase.
pub open spec fn stage_request(rules: RuleSetView, stage: StageView) -> TransactionView {
    let t = new_transaction(rules, EngineMode::DetectionOnly);
    TransactionView {
        vars: with_headers(
            with_request_line(
                VariablesView { remote_addr: encode_utf8("127.0.0.1"@), ..t.vars },
                stage.method,
                stage.uri,
                stage.version,
            ),
            stage.headers + implied_headers(stage),
        ),
        ..t
    }
}

/// The transaction of a stage after its two request phases.
pub open spec fn request_phases(rules: RuleSetView, stage: StageView) -> TransactionView {
    let headed = phase_run(stage_request(rules, stage), Phase::RequestHeaders);
    let with_body = match stage.data {
        Some(data) => with_request_body(headed, encode_utf8(data), stage_content_type(stage)),
        None => headed,
    };
    phase_run(with_body, Phase::RequestBody)
}

/// A transaction after an empty response with status 200. The corpus has no real
/// one, but the rules of the response phases get a chance to fire.
pub open spec fn response_phases(t: TransactionView) -> TransactionView {
    let answered = phase_run(
        TransactionView {
            vars: VariablesView { response_status: encode_utf8(decimal(200)), ..t.vars },
            ..t
        },
        Phase::ResponseHeaders,
    );
    let filled = phase_run(
        TransactionView {
            vars: VariablesView { response_body: seq![], ..answered.vars },
            ..answered
        },
        Phase::ResponseBody,
    );
    phase_run(filled, Phase::Logging)
}

/// The transaction of a stage after all phases.
pub open spec fn stage_run(rules: RuleSetView, stage: StageView) -> TransactionView {
    response_phases(request_phases(rules, stage))
}

fn find_header<'a>(headers: &'a Vec<(String, String)>, name: &str) -> (r: Option<&'a str>)
    ensures
        (match r {
            Some(value) => header_value(headers_view(headers@), name@) == Some(value@),
            None => header_value(headers_view(headers@), name@) is None,
        }),
{
    let ghost all = headers_view(headers@);
    let mut i: usize = 0;
    assert(all.skip(0) =~= all);
    while i < headers.len()
        invariant
            i <= headers@.len(),
            all == headers_view(headers@),
            header_value(all, name@) == header_value(all.skip(i as int), name@),
        decreases headers@.len() - i,
    {
        assert(all.skip(i as int)[0] == (headers@[i as int].0@, headers@[i as int].1@));
        assert(all.skip(i as int).drop_first() =~= all.skip(i + 1));
        if eq_ignore_case_str(headers[i].0.as_str(), name) {
            return Some(headers[i].1.as_str());
        }
        i += 1;
    }
    None
}

/// What a list of headers shows.
pub open spec fn headers_view(headers: Seq<(String, String)>) -> Headers {
    Seq::new(headers.len(), |i: int| (headers[i].0@, headers[i].1@))
}

proof fn lemma_with_headers_then(vars: VariablesView, a: Headers, name: Seq<char>, value: Seq<char>)
    ensures
        with_headers(vars, a.push((name, value))) == with_request_header(
            with_headers(vars, a),
            name,
            value,
        ),
{
    assert(a.push((name, value)).drop_last() =~= a);
}

proof fn lemma_header_value_concat(a: Headers, b: Headers, name: Seq<char>)
    ensures
        header_value(a + b, name) == (match header_value(a, name) {
            Some(value) => Some(value),
            None => header_value(b, name),
        }),
    decreases a.len(),
{
    if a.len() == 0 {
        assert(a + b =~= b);
    } else {
        assert((a + b).drop_first() =~= a.drop_first() + b);
        lemma_header_value_concat(a.drop_first(), b, name);
    }
}

fn add_headers(tx: &mut Transaction<'_>, headers: &Vec<(String, String)>)
    ensures
        final(tx)@ == (TransactionView {
            vars: with_headers(old(tx)@.vars, headers_view(headers@)),
            ..old(tx)@
        }),
{
    let ghost start = tx@;
    let ghost all = headers_view(headers@);
    let mut i: usize = 0;
    assert(all.take(0) =~= seq![]);
    while i < headers.len()
        invariant
            i <= headers@.len(),
            all == headers_view(headers@),
            tx@ == (TransactionView {
                vars: with_headers(start.vars, all.take(i as int)),
                ..start
            }),
        decreases headers@.len() - i,
    {
        assert(all.take(i + 1).drop_last() =~= all.take(i as int));
        assert(all.take(i + 1).last() == (headers@[i as int].0@, headers@[i as int].1@));
        tx.add_request_header(headers[i].0.as_str(), headers[i].1.as_str());
        i += 1;
    }
    assert(all.take(i as int) =~= all);
}

/// Run a stage: the ids of the rules that fired, in order.
pub fn run_stage(rules: &RuleSet, stage: &Stage) -> (r: Vec<u32>)
    requires
        rules@.jumps_forward(),
    ensures
        r@ == ids_of(stage_run(rules@, stage.deep_view()).matches),
{
    let ghost s = stage.deep_view();
    let ghost own = s.headers;
    let mut tx = Transaction::new(rules, EngineMode::DetectionOnly);
    tx.set_remote_addr(bytes_of("127.0.0.1"));
    tx.process_uri(stage.method.as_str(), stage.uri.as_str(), stage.version.as_str());
    let ghost lined = tx@.vars;
    assert(own =~= headers_view(stage.headers@));
    add_headers(&mut tx, &stage.headers);
    let declared = find_header(&stage.headers, "content-type");
    let measured = find_header(&stage.headers, "content-length");
    let form = "application/x-www-form-urlencoded";
    let content_type: Option<&str> = match (declared, &stage.data) {
        (Some(value), _) => Some(value),
        (None, Some(_)) => Some(form),
        (None, None) => None,
    };
    if let Some(data) = &stage.data {
        let ghost length = ("Content-Length"@, decimal(encode_utf8(data@).len()));
        if declared.is_none() {
            tx.add_request_header("Content-Type", form);
            proof {
                lemma_with_headers_then(lined, own, "Content-Type"@, form@);
            }
        }
        let ghost typed = if declared is None {
            own.push(("Content-Type"@, form@))
        } else {
            own
        };
        assert(tx@.vars == with_headers(lined, typed));
        if measured.is_none() {
            let size = bytes_of(data.as_str()).len();
            tx.add_request_header("Content-Length", write_decimal(size as u64).as_str());
            proof {
                lemma_with_headers_then(lined, typed, length.0, length.1);
            }
        }
        proof {
            let all = if measured is None {
                typed.push(length)
            } else {
                typed
            };
            assert(all =~= own + implied_headers(s));
        }
    } else {
        assert(own =~= own + implied_headers(s));
    }
    assert(tx@ =~= stage_request(rules@, s));
    proof {
        lemma_header_value_concat(own, implied_headers(s), "content-type"@);
        lemma_implied_content_type(s);
        assert(stage_content_type(s) == match content_type {
            Some(value) => Some(value@),
            None => None,
        });
    }
    let _ = tx.process_request_headers();
    if let Some(data) = &stage.data {
        tx.set_request_body(bytes_of(data.as_str()).as_slice(), content_type);
    }
    let _ = tx.process_request_body();
    assert(tx@ == request_phases(rules@, s));
    tx.set_response_status(200);
    let _ = tx.process_response_headers();
    let nothing: Vec<u8> = Vec::new();
    assert(nothing@ =~= seq![]);
    tx.set_response_body(nothing.as_slice());
    let _ = tx.process_response_body();
    let _ = tx.process_logging();
    tx.matched_ids()
}

proof fn lemma_implied_content_type(stage: StageView)
    ensures
        header_value(stage.headers, "content-type"@) is None ==> header_value(
            implied_headers(stage),
            "content-type"@,
        ) == (match stage.data {
            Some(_) => Some("application/x-www-form-urlencoded"@),
            None => None,
        }),
{
    reveal_strlit("Content-Type");
    reveal_strlit("content-type");
    assert(same_ignoring_case("Content-Type"@, "content-type"@)) by {
        assert(crate::text::lower("Content-Type"@) =~= crate::text::lower("content-type"@));
    }
    if stage.data is Some && header_value(stage.headers, "content-type"@) is None {
        assert(implied_headers(stage)[0] == (
            "Content-Type"@,
            "application/x-www-form-urlencoded"@,
        ));
    }
}

// ---------------------------------------------------------------------------
// Outcomes

/// What a stage came to.
#[derive(Debug)]
pub enum StageOutcome {
    /// The stage asserts a status alone.
    Skipped,
    /// Every assertion holds.
    Passed,
    /// Some rules did not fire, or fired and should not have.
    Failed {
        /// The rules that must fire and did not.
        missing: Vec<u32>,
        /// The rules that must not fire and did.
        unexpected: Vec<u32>,
        /// The rules that fired, in order.
        fired: Vec<u32>,
    },
}

/// The view of a [`StageOutcome`].
#[verifier::ext_equal]
pub enum OutcomeView {
    Skipped,
    Passed,
    Failed { missing: Seq<u32>, unexpected: Seq<u32>, fired: Seq<u32> },
}

impl DeepView for StageOutcome {
    type V = OutcomeView;

    open spec fn deep_view(&self) -> OutcomeView {
        match self {
            StageOutcome::Skipped => OutcomeView::Skipped,
            StageOutcome::Passed => OutcomeView::Passed,
            StageOutcome::Failed { missing, unexpected, fired } => OutcomeView::Failed {
                missing: missing@,
                unexpected: unexpected@,
                fired: fired@,
            },
        }
    }
}

/// The ids of a list that fired, or those that did not, in order.
pub open spec fn ids_that(ids: Seq<u32>, fired: Seq<u32>, wanted: bool) -> Seq<u32>
    decreases ids.len(),
{
    if ids.len() == 0 {
        seq![]
    } else {
        let before_ = ids_that(ids.drop_last(), fired, wanted);
        if fired.contains(ids.last()) == wanted {
            before_.push(ids.last())
        } else {
            before_
        }
    }
}

/// What a stage comes to when some rules fire.
pub open spec fn outcome_of(stage: StageView, fired: Seq<u32>) -> OutcomeView {
    let missing = ids_that(stage.expect_ids, fired, false);
    let unexpected = ids_that(stage.no_expect_ids, fired, true);
    if missing.len() == 0 && unexpected.len() == 0 {
        OutcomeView::Passed
    } else {
        OutcomeView::Failed { missing, unexpected, fired }
    }
}

/// What a stage comes to against a rule set.
pub open spec fn stage_outcome(rules: RuleSetView, stage: StageView) -> OutcomeView {
    if stage.is_status_only() {
        OutcomeView::Skipped
    } else {
        outcome_of(stage, ids_of(stage_run(rules, stage).matches))
    }
}

fn holds_id(ids: &Vec<u32>, id: u32) -> (r: bool)
    ensures
        r == ids@.contains(id),
{
    let mut i: usize = 0;
    while i < ids.len()
        invariant
            i <= ids@.len(),
            forall|k: int| 0 <= k < i ==> ids@[k] != id,
        decreases ids@.len() - i,
    {
        if ids[i] == id {
            return true;
        }
        i += 1;
    }
    false
}

fn pick_ids(ids: &Vec<u32>, fired: &Vec<u32>, wanted: bool) -> (r: Vec<u32>)
    ensures
        r@ == ids_that(ids@, fired@, wanted),
{
    let mut out: Vec<u32> = Vec::new();
    let mut i: usize = 0;
    assert(ids@.take(0) =~= seq![]);
    while i < ids.len()
        invariant
            i <= ids@.len(),
            out@ == ids_that(ids@.take(i as int), fired@, wanted),
        decreases ids@.len() - i,
    {
        assert(ids@.take(i + 1).drop_last() =~= ids@.take(i as int));
        assert(ids@.take(i + 1).last() == ids@[i as int]);
        if holds_id(fired, ids[i]) == wanted {
            out.push(ids[i]);
        }
        i += 1;
    }
    assert(ids@.take(i as int) =~= ids@);
    out
}

/// What a stage comes to when some rules fire.
pub fn judge_stage(stage: &Stage, fired: Vec<u32>) -> (r: StageOutcome)
    ensures
        r.deep_view() == outcome_of(stage.deep_view(), fired@),
{
    let missing = pick_ids(&stage.expect_ids, &fired, false);
    let unexpected = pick_ids(&stage.no_expect_ids, &fired, true);
    if missing.len() == 0 && unexpected.len() == 0 {
        StageOutcome::Passed
    } else {
        StageOutcome::Failed { missing, unexpected, fired }
    }
}

/// Run stages against a rule set: what each of them came to.
pub fn run_stages(rules: &RuleSet, stages: &Vec<Stage>) -> (r: Vec<StageOutcome>)
    requires
        rules@.jumps_forward(),
    ensures
        r@.len() == stages@.len(),
        forall|i: int|
            0 <= i < r@.len() ==> (#[trigger] r@[i]).deep_view() == stage_outcome(
                rules@,
                stages@[i].deep_view(),
            ),
{
    let mut out: Vec<StageOutcome> = Vec::new();
    let mut i: usize = 0;
    while i < stages.len()
        invariant
            i <= stages@.len(),
            out@.len() == i,
            rules@.jumps_forward(),
            forall|k: int|
                0 <= k < i ==> (#[trigger] out@[k]).deep_view() == stage_outcome(
                    rules@,
                    stages@[k].deep_view(),
                ),
        decreases stages@.len() - i,
    {
        let stage = &stages[i];
        let outcome = if stage.is_status_only() {
            StageOutcome::Skipped
        } else {
            judge_stage(stage, run_stage(rules, stage))
        };
        out.push(outcome);
        i += 1;
    }
    out
}

// ---------------------------------------------------------------------------
// Summaries

/// A count one higher, as far as a `usize` holds it.
pub open spec fn one_more(n: usize) -> usize {
    if n < usize::MAX {
        (n + 1) as usize
    } else {
        n
    }
}

/// Counts with one more of a key, in its place or at the end.
pub open spec fn counted<K>(counts: Seq<(K, usize)>, key: K) -> Seq<(K, usize)>
    decreases counts.len(),
{
    if counts.len() == 0 {
        seq![(key, 1usize)]
    } else if counts[0].0 == key {
        seq![(key, one_more(counts[0].1))] + counts.drop_first()
    } else {
        seq![counts[0]] + counted(counts.drop_first(), key)
    }
}

/// Counts with one more of each key in a list.
pub open spec fn all_counted(counts: Seq<(u32, usize)>, keys: Seq<u32>) -> Seq<(u32, usize)>
    decreases keys.len(),
{
    if keys.len() == 0 {
        counts
    } else {
        counted(all_counted(counts, keys.drop_last()), keys.last())
    }
}

/// What running stages came to as a whole.
#[derive(Debug)]
pub struct Summary {
    /// How many stages passed.
    pub passed: usize,
    /// How many failed.
    pub failed: usize,
    /// How many were skipped.
    pub skipped: usize,
    /// Which expected rules did not fire, and how often. This is the number that
    /// says where the remaining work is.
    pub never_fired: Vec<(u32, usize)>,
    /// Which rules fired when they should not have, and how often.
    pub false_positives: Vec<(u32, usize)>,
    /// In which files stages failed, and how often.
    pub failing_files: Vec<(String, usize)>,
}

/// The view of a [`Summary`].
#[verifier::ext_equal]
pub struct SummaryView {
    pub passed: nat,
    pub failed: nat,
    pub skipped: nat,
    pub never_fired: Seq<(u32, usize)>,
    pub false_positives: Seq<(u32, usize)>,
    pub failing_files: Seq<(Seq<char>, usize)>,
}

/// What counts by file show.
pub open spec fn files_view(files: Seq<(String, usize)>) -> Seq<(Seq<char>, usize)> {
    Seq::new(files.len(), |i: int| (files[i].0@, files[i].1))
}

impl View for Summary {
    type V = SummaryView;

    open spec fn view(&self) -> SummaryView {
        SummaryView {
            passed: self.passed as nat,
            failed: self.failed as nat,
            skipped: self.skipped as nat,
            never_fired: self.never_fired@,
            false_positives: self.false_positives@,
            failing_files: files_view(self.failing_files@),
        }
    }
}

/// A summary of nothing.
pub open spec fn no_summary() -> SummaryView {
    SummaryView {
        passed: 0,
        failed: 0,
        skipped: 0,
        never_fired: seq![],
        false_positives: seq![],
        failing_files: seq![],
    }
}

/// A summary with one more stage.
pub open spec fn summary_with(s: SummaryView, file: Seq<char>, outcome: OutcomeView) -> SummaryView {
    match outcome {
        OutcomeView::Skipped => SummaryView { skipped: s.skipped + 1, ..s },
        OutcomeView::Passed => SummaryView { passed: s.passed + 1, ..s },
        OutcomeView::Failed { missing, unexpected, .. } => SummaryView {
            failed: s.failed + 1,
            never_fired: all_counted(s.never_fired, missing),
            false_positives: all_counted(s.false_positives, unexpected),
            failing_files: counted(s.failing_files, file),
            ..s
        },
    }
}

/// The summary of the first `n` of some stages.
pub open spec fn summary_of(
    stages: Seq<StageView>,
    outcomes: Seq<OutcomeView>,
    n: nat,
) -> SummaryView
    decreases n,
{
    if n == 0 {
        no_summary()
    } else {
        summary_with(
            summary_of(stages, outcomes, (n - 1) as nat),
            stages[n - 1].file,
            outcomes[n - 1],
        )
    }
}

fn count_id(counts: &mut Vec<(u32, usize)>, id: u32)
    ensures
        final(counts)@ == counted(old(counts)@, id),
{
    let ghost all = counts@;
    let mut i: usize = 0;
    assert(all.skip(0) =~= all);
    assert(all.take(0) + counted(all, id) =~= counted(all, id));
    while i < counts.len()
        invariant
            i <= counts@.len(),
            counts@ == all,
            all == old(counts)@,
            counted(all, id) == all.take(i as int) + counted(all.skip(i as int), id),
        decreases counts@.len() - i,
    {
        let ghost rest = all.skip(i as int);
        assert(rest[0] == all[i as int]);
        assert(rest.drop_first() =~= all.skip(i + 1));
        if counts[i].0 == id {
            let more = counts[i].1.saturating_add(1);
            counts.set(i, (id, more));
            assert(counts@ =~= all.take(i as int) + (seq![(id, more)] + rest.drop_first()));
            return;
        }
        assert(all.take(i as int) + (seq![rest[0]] + counted(rest.drop_first(), id)) =~= all.take(
            i + 1,
        ) + counted(all.skip(i + 1), id));
        i += 1;
    }
    counts.push((id, 1));
    assert(counts@ =~= all.take(i as int) + seq![(id, 1usize)]);
}

fn count_ids(counts: &mut Vec<(u32, usize)>, ids: &Vec<u32>)
    ensures
        final(counts)@ == all_counted(old(counts)@, ids@),
{
    let ghost start = counts@;
    let mut i: usize = 0;
    assert(ids@.take(0) =~= seq![]);
    while i < ids.len()
        invariant
            i <= ids@.len(),
            counts@ == all_counted(start, ids@.take(i as int)),
        decreases ids@.len() - i,
    {
        assert(ids@.take(i + 1).drop_last() =~= ids@.take(i as int));
        assert(ids@.take(i + 1).last() == ids@[i as int]);
        count_id(counts, ids[i]);
        i += 1;
    }
    assert(ids@.take(i as int) =~= ids@);
}

fn count_file(counts: &mut Vec<(String, usize)>, file: &str)
    ensures
        files_view(final(counts)@) == counted(files_view(old(counts)@), file@),
{
    let ghost all = files_view(counts@);
    let mut i: usize = 0;
    assert(all.skip(0) =~= all);
    assert(all.take(0) + counted(all, file@) =~= counted(all, file@));
    while i < counts.len()
        invariant
            i <= counts@.len(),
            files_view(counts@) == all,
            all == files_view(old(counts)@),
            counted(all, file@) == all.take(i as int) + counted(all.skip(i as int), file@),
        decreases counts@.len() - i,
    {
        let ghost rest = all.skip(i as int);
        assert(all.len() == counts@.len());
        assert(rest[0] == (counts@[i as int].0@, counts@[i as int].1));
        assert(rest.drop_first() =~= all.skip(i + 1));
        if same_str(counts[i].0.as_str(), file) {
            let more = counts[i].1.saturating_add(1);
            counts.set(i, (file.to_string(), more));
            assert(files_view(counts@) =~= all.take(i as int) + (seq![(file@, more)]
                + rest.drop_first()));
            return;
        }
        assert(all.take(i as int) + (seq![rest[0]] + counted(rest.drop_first(), file@))
            =~= all.take(i + 1) + counted(all.skip(i + 1), file@));
        i += 1;
    }
    assert(all.len() == counts@.len());
    counts.push((file.to_string(), 1));
    assert(files_view(counts@) =~= all.take(i as int) + seq![(file@, 1usize)]);
}

/// Sum up what stages came to.
pub fn summarize(stages: &Vec<Stage>, outcomes: &Vec<StageOutcome>) -> (r: Summary)
    requires
        outcomes@.len() == stages@.len(),
    ensures
        r@ == summary_of(stages.deep_view(), outcomes.deep_view(), stages@.len()),
{
    let ghost all = stages.deep_view();
    let ghost ends = outcomes.deep_view();
    let mut s = Summary {
        passed: 0,
        failed: 0,
        skipped: 0,
        never_fired: Vec::new(),
        false_positives: Vec::new(),
        failing_files: Vec::new(),
    };
    let mut i: usize = 0;
    assert(s@ =~= no_summary());
    while i < stages.len()
        invariant
            i <= stages@.len(),
            outcomes@.len() == stages@.len(),
            all == stages.deep_view(),
            ends == outcomes.deep_view(),
            s@ == summary_of(all, ends, i as nat),
            s.passed + s.failed + s.skipped == i,
        decreases stages@.len() - i,
    {
        let ghost before_ = s@;
        assert(all[i as int] == stages@[i as int].deep_view());
        assert(ends[i as int] == outcomes@[i as int].deep_view());
        match &outcomes[i] {
            StageOutcome::Skipped => {
                s.skipped += 1;
            },
            StageOutcome::Passed => {
                s.passed += 1;
            },
            StageOutcome::Failed { missing, unexpected, .. } => {
                s.failed += 1;
                count_file(&mut s.failing_files, stages[i].file.as_str());
                count_ids(&mut s.never_fired, missing);
                count_ids(&mut s.false_positives, unexpected);
            },
        }
        assert(s@ =~= summary_with(before_, all[i as int].file, ends[i as int]));
        i += 1;
    }
    s
}

// ---------------------------------------------------------------------------
// Laws

proof fn lemma_ids_that(ids: Seq<u32>, fired: Seq<u32>, wanted: bool)
    ensures
        forall|id: u32| #[trigger]
            ids_that(ids, fired, wanted).contains(id) <==> ids.contains(id) && fired.contains(id)
                == wanted,
    decreases ids.len(),
{
    let picked = ids_that(ids, fired, wanted);
    if ids.len() > 0 {
        let shorter = ids.drop_last();
        let early = ids_that(shorter, fired, wanted);
        lemma_ids_that(shorter, fired, wanted);
        assert forall|id: u32| #[trigger] picked.contains(id) <==> ids.contains(id)
            && fired.contains(id) == wanted by {
            if picked.contains(id) {
                let k = choose|k: int| 0 <= k < picked.len() && picked[k] == id;
                if k < early.len() {
                    assert(early[k] == id);
                    assert(early.contains(id));
                    let j = choose|j: int| 0 <= j < shorter.len() && shorter[j] == id;
                    assert(ids[j] == id);
                } else {
                    assert(ids[ids.len() - 1] == id);
                }
            }
            if ids.contains(id) && fired.contains(id) == wanted {
                let j = choose|j: int| 0 <= j < ids.len() && ids[j] == id;
                if j < shorter.len() {
                    assert(shorter[j] == id);
                    assert(early.contains(id));
                    let k = choose|k: int| 0 <= k < early.len() && early[k] == id;
                    assert(picked[k] == id);
                } else {
                    assert(picked[picked.len() - 1] == id);
                }
            }
        }
    }
}

/// A stage passes exactly when every rule it expects fired and none that it
/// forbids did.
pub proof fn stages_pass_when_their_assertions_hold(stage: StageView, fired: Seq<u32>)
    ensures
        outcome_of(stage, fired) == OutcomeView::Passed <==> (forall|id: u32|
            (stage.expect_ids.contains(id) ==> #[trigger] fired.contains(id)) && (
            stage.no_expect_ids.contains(id) ==> !fired.contains(id))),
{
    let missing = ids_that(stage.expect_ids, fired, false);
    let unexpected = ids_that(stage.no_expect_ids, fired, true);
    lemma_ids_that(stage.expect_ids, fired, false);
    lemma_ids_that(stage.no_expect_ids, fired, true);
    if missing.len() > 0 {
        assert(missing.contains(missing[0]));
    }
    if unexpected.len() > 0 {
        assert(unexpected.contains(unexpected[0]));
    }
    if missing.len() == 0 && unexpected.len() == 0 {
        assert forall|id: u32|
            (stage.expect_ids.contains(id) ==> #[trigger] fired.contains(id)) && (
            stage.no_expect_ids.contains(id) ==> !fired.contains(id)) by {
            assert(!missing.contains(id));
            assert(!unexpected.contains(id));
        }
    }
}

/// No stage is lost: every one passed, failed or was skipped.
pub proof fn every_stage_is_accounted_for(
    stages: Seq<StageView>,
    outcomes: Seq<OutcomeView>,
    n: nat,
)
    ensures
        ({
            let s = summary_of(stages, outcomes, n);
            s.passed + s.failed + s.skipped == n
        }),
    decreases n,
{
    if n > 0 {
        every_stage_is_accounted_for(stages, outcomes, (n - 1) as nat);
    }
}

/// A stage runs through all phases: nothing interrupts it, so no later rule is
/// hidden, unless a rule turns blocking on.
pub proof fn stages_are_not_interrupted(rules: RuleSetView, stage: StageView)
    requires
        never_turns_blocking_on(rules),
    ensures
        stage_run(rules, stage).verdict == Verdict::Allow,
{
    let t0 = stage_request(rules, stage);
    detection_never_denies(t0, Phase::RequestHeaders);
    phases_take_nothing_back(t0, Phase::RequestHeaders);
    let headed = phase_run(t0, Phase::RequestHeaders);
    let t1 = match stage.data {
        Some(data) => with_request_body(headed, encode_utf8(data), stage_content_type(stage)),
        None => headed,
    };
    detection_never_denies(t1, Phase::RequestBody);
    phases_take_nothing_back(t1, Phase::RequestBody);
    let t2 = request_phases(rules, stage);
    let status = TransactionView {
        vars: VariablesView { response_status: encode_utf8(decimal(200)), ..t2.vars },
        ..t2
    };
    detection_never_denies(status, Phase::ResponseHeaders);
    phases_take_nothing_back(status, Phase::ResponseHeaders);
    let t3 = phase_run(status, Phase::ResponseHeaders);
    let filled = TransactionView {
        vars: VariablesView { response_body: seq![], ..t3.vars },
        ..t3
    };
    detection_never_denies(filled, Phase::ResponseBody);
    phases_take_nothing_back(filled, Phase::ResponseBody);
    detection_never_denies(phase_run(filled, Phase::ResponseBody), Phase::Logging);
}

} // verus!
