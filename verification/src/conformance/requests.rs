//! Requests whose verdict is known, run end to end.
//!
//! Compile coverage says the rules loaded; this says whether they fire on
//! attacks and stay quiet on benign traffic, which is the only property that
//! matters in the end.

use crate::bytes::bytes_of;
use crate::collections::tx_written;
use crate::collections::Entries;
use crate::collections::VariablesView;
use crate::engine::RuleSet;
use crate::engine::RuleSetView;
use crate::transaction::new_transaction;
use crate::transaction::phase_run;
use crate::transaction::with_request_body;
use crate::transaction::with_request_header;
use crate::transaction::with_request_line;
use crate::transaction::EngineMode;
use crate::transaction::Transaction;
use crate::transaction::TransactionView;
use crate::Phase;
use crate::Verdict;
use vstd::prelude::*;
use vstd::utf8::encode_utf8;

verus! {

/// A request, and whether it should be blocked.
#[derive(Debug)]
pub struct RequestCase {
    /// What the case is called.
    pub name: &'static str,
    /// The request line.
    pub method: &'static str,
    pub uri: &'static str,
    /// The media type and the body, where there is one.
    pub body: Option<(&'static str, &'static str)>,
    /// Whether the Core Rule Set at the default paranoia level should block this.
    pub expect_block: bool,
    /// Set when a miss is a known, attributed gap rather than a defect. The
    /// case still runs and is still reported; it just does not count as wrong.
    pub known_gap: Option<&'static str>,
}

/// The view of a [`RequestCase`].
#[verifier::ext_equal]
pub struct CaseView {
    pub name: Seq<char>,
    pub method: Seq<char>,
    pub uri: Seq<char>,
    pub body: Option<(Seq<char>, Seq<char>)>,
    pub expect_block: bool,
    pub known_gap: Option<Seq<char>>,
}

impl View for RequestCase {
    type V = CaseView;

    open spec fn view(&self) -> CaseView {
        CaseView {
            name: self.name@,
            method: self.method@,
            uri: self.uri@,
            body: match self.body {
                Some((media, body)) => Some((media@, body@)),
                None => None,
            },
            expect_block: self.expect_block,
            known_gap: match self.known_gap {
                Some(reason) => Some(reason@),
                None => None,
            },
        }
    }
}

/// The variables with the headers that a browser sends.
pub open spec fn with_browser_headers(
    vars: VariablesView,
    media: Option<Seq<char>>,
) -> VariablesView {
    let host = with_request_header(vars, "Host"@, "example.test"@);
    let agent = with_request_header(
        host,
        "User-Agent"@,
        "Mozilla/5.0 (X11; Linux x86_64)"@,
    );
    let accept = with_request_header(agent, "Accept"@, "text/html,application/xhtml+xml"@);
    match media {
        Some(m) => with_request_header(accept, "Content-Type"@, m),
        None => accept,
    }
}

/// The transaction of a case before its first phase.
pub open spec fn case_request(rules: RuleSetView, case: CaseView) -> TransactionView {
    let t = new_transaction(rules, EngineMode::Blocking);
    TransactionView {
        vars: with_browser_headers(
            with_request_line(
                VariablesView { remote_addr: encode_utf8("203.0.113.7"@), ..t.vars },
                case.method,
                case.uri,
                "HTTP/1.1"@,
            ),
            match case.body {
                Some((media, _)) => Some(media),
                None => None,
            },
        ),
        ..t
    }
}

/// The transaction of a case after its request. A request that is denied on its
/// headers sends no body.
pub open spec fn case_run(rules: RuleSetView, case: CaseView) -> TransactionView {
    let headed = phase_run(case_request(rules, case), Phase::RequestHeaders);
    if headed.verdict != Verdict::Allow {
        headed
    } else {
        phase_run(
            match case.body {
                Some((media, body)) => with_request_body(headed, encode_utf8(body), Some(media)),
                None => headed,
            },
            Phase::RequestBody,
        )
    }
}

/// What a case came to.
#[derive(Debug, Clone, Copy, PartialEq, Eq, Structural)]
pub enum CaseOutcome {
    /// The verdict is the expected one.
    Right,
    /// It is not, for a known reason.
    KnownGap,
    /// It is not, and nothing explains it.
    Wrong,
}

/// What a case comes to under a verdict.
pub open spec fn case_outcome(case: CaseView, verdict: Verdict) -> CaseOutcome {
    if (verdict != Verdict::Allow) == case.expect_block {
        CaseOutcome::Right
    } else if case.known_gap is Some {
        CaseOutcome::KnownGap
    } else {
        CaseOutcome::Wrong
    }
}

/// Run a case against a rule set.
pub fn run_case<'r>(rules: &'r RuleSet, case: &RequestCase) -> (r: Transaction<'r>)
    requires
        rules@.jumps_forward(),
    ensures
        r@ == case_run(rules@, case@),
{
    let mut tx = Transaction::new(rules, EngineMode::Blocking);
    tx.set_remote_addr(bytes_of("203.0.113.7"));
    tx.process_uri(case.method, case.uri, "HTTP/1.1");
    tx.add_request_header("Host", "example.test");
    tx.add_request_header("User-Agent", "Mozilla/5.0 (X11; Linux x86_64)");
    tx.add_request_header("Accept", "text/html,application/xhtml+xml");
    if let Some((media, _)) = case.body {
        tx.add_request_header("Content-Type", media);
    }
    assert(tx@ =~= case_request(rules@, case@));
    let verdict = tx.process_request_headers();
    if verdict == Verdict::Allow {
        if let Some((media, body)) = case.body {
            tx.set_request_body(bytes_of(body).as_slice(), Some(media));
        }
        let _ = tx.process_request_body();
    }
    tx
}

/// What a case comes to under a verdict.
pub fn judge_case(case: &RequestCase, verdict: Verdict) -> (r: CaseOutcome)
    ensures
        r == case_outcome(case@, verdict),
{
    let blocked = verdict != Verdict::Allow;
    if blocked == case.expect_block {
        CaseOutcome::Right
    } else if case.known_gap.is_some() {
        CaseOutcome::KnownGap
    } else {
        CaseOutcome::Wrong
    }
}

// ---------------------------------------------------------------------------
// Inspection alone

/// A request to measure inspection with.
#[derive(Debug)]
pub struct InspectCase {
    /// The request line.
    pub method: &'static str,
    pub uri: &'static str,
    /// A `Cookie` header value, where there is one. The number of cookies is a
    /// first-order cost, and a realistic browser request carries several.
    pub cookies: Option<String>,
    /// The media type and the body, where there is one.
    pub body: Option<(&'static str, String)>,
}

/// `TX` with the paranoia levels and thresholds of a default setup.
pub open spec fn default_setup() -> Entries {
    tx_written(
        tx_written(
            tx_written(
                tx_written(seq![], "blocking_paranoia_level"@, encode_utf8("1"@)),
                "detection_paranoia_level"@,
                encode_utf8("1"@),
            ),
            "inbound_anomaly_score_threshold"@,
            encode_utf8("5"@),
        ),
        "outbound_anomaly_score_threshold"@,
        encode_utf8("4"@),
    )
}

/// The transaction of a case before its first phase.
pub open spec fn inspect_request(rules: RuleSetView, case: InspectCase) -> TransactionView {
    let t = new_transaction(rules, EngineMode::Blocking);
    let lined = with_request_line(
        VariablesView {
            tx: default_setup(),
            remote_addr: encode_utf8("203.0.113.7"@),
            ..t.vars
        },
        case.method@,
        case.uri@,
        "HTTP/1.1"@,
    );
    let headed = with_browser_headers(lined, None);
    let jar = match case.cookies {
        Some(cookies) => with_request_header(headed, "Cookie"@, cookies@),
        None => headed,
    };
    TransactionView {
        vars: match case.body {
            Some((media, _)) => with_request_header(jar, "Content-Type"@, media@),
            None => jar,
        },
        ..t
    }
}

/// The verdict on a case.
pub open spec fn inspect_verdict(rules: RuleSetView, case: InspectCase) -> Verdict {
    let headed = phase_run(inspect_request(rules, case), Phase::RequestHeaders);
    if headed.verdict != Verdict::Allow {
        headed.verdict
    } else {
        phase_run(
            match case.body {
                Some((media, body)) => with_request_body(headed, encode_utf8(body@), Some(media@)),
                None => headed,
            },
            Phase::RequestBody,
        ).verdict
    }
}

/// Inspect a request.
pub fn inspect(rules: &RuleSet, case: &InspectCase) -> (r: Verdict)
    requires
        rules@.jumps_forward(),
    ensures
        r == inspect_verdict(rules@, *case),
{
    let mut tx = Transaction::new(rules, EngineMode::Blocking);
    tx.set_tx("blocking_paranoia_level", bytes_of("1"));
    tx.set_tx("detection_paranoia_level", bytes_of("1"));
    tx.set_tx("inbound_anomaly_score_threshold", bytes_of("5"));
    tx.set_tx("outbound_anomaly_score_threshold", bytes_of("4"));
    tx.set_remote_addr(bytes_of("203.0.113.7"));
    tx.process_uri(case.method, case.uri, "HTTP/1.1");
    tx.add_request_header("Host", "example.test");
    tx.add_request_header("User-Agent", "Mozilla/5.0 (X11; Linux x86_64)");
    tx.add_request_header("Accept", "text/html,application/xhtml+xml");
    if let Some(cookies) = &case.cookies {
        tx.add_request_header("Cookie", cookies.as_str());
    }
    if let Some((media, _)) = &case.body {
        tx.add_request_header("Content-Type", *media);
    }
    assert(tx@ =~= inspect_request(rules@, *case));
    let verdict = tx.process_request_headers();
    if verdict != Verdict::Allow {
        return verdict;
    }
    if let Some((media, body)) = &case.body {
        tx.set_request_body(bytes_of(body.as_str()).as_slice(), Some(*media));
    }
    tx.process_request_body()
}

// ---------------------------------------------------------------------------
// Counting

/// How many of some outcomes are a given one.
pub open spec fn outcomes_of(outcomes: Seq<CaseOutcome>, which: CaseOutcome) -> nat
    decreases outcomes.len(),
{
    if outcomes.len() == 0 {
        0
    } else {
        outcomes_of(outcomes.drop_last(), which) + if outcomes.last() == which {
            1nat
        } else {
            0nat
        }
    }
}

/// How many of some outcomes are a given one.
pub fn count_outcomes(outcomes: &Vec<CaseOutcome>, which: CaseOutcome) -> (r: usize)
    ensures
        r == outcomes_of(outcomes@, which),
{
    let mut n: usize = 0;
    let mut i: usize = 0;
    assert(outcomes@.take(0) =~= seq![]);
    while i < outcomes.len()
        invariant
            i <= outcomes@.len(),
            n <= i,
            n == outcomes_of(outcomes@.take(i as int), which),
        decreases outcomes@.len() - i,
    {
        assert(outcomes@.take(i + 1).drop_last() =~= outcomes@.take(i as int));
        assert(outcomes@.take(i + 1).last() == outcomes@[i as int]);
        if outcomes[i] == which {
            n += 1;
        }
        i += 1;
    }
    assert(outcomes@.take(i as int) =~= outcomes@);
    n
}

/// Every case is right, a known gap or wrong, and only one of them.
pub proof fn every_case_is_accounted_for(outcomes: Seq<CaseOutcome>)
    ensures
        outcomes_of(outcomes, CaseOutcome::Right) + outcomes_of(outcomes, CaseOutcome::KnownGap)
            + outcomes_of(outcomes, CaseOutcome::Wrong) == outcomes.len(),
    decreases outcomes.len(),
{
    if outcomes.len() > 0 {
        every_case_is_accounted_for(outcomes.drop_last());
    }
}

} // verus!
