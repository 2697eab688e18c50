//! Running a request through a rule set.
//!
//! A transaction is fed the request in the order a proxy learns it, and each
//! `process_*` call runs the rules for that phase. Evaluation stops at the
//! first disruptive action, as SecLang specifies.

use crate::action::Ctl;
use crate::action::CtlView;
use crate::action::RuleEngineMode;
use crate::body::bodies_fill_only_their_collections;
use crate::body::body_format;
use crate::body::body_read;
use crate::body::declared_format;
use crate::body::header_text;
use crate::body::processor_name;
use crate::body::processor_of;
use crate::body::read_body;
use crate::bytes::bytes_of;
use crate::bytes::lossy_text;
use crate::bytes::utf8_lossy;
use crate::collections::macro_values;
use crate::collections::no_variables;
use crate::collections::number_or_zero;
use crate::collections::tx_reads_what_was_written;
use crate::collections::tx_unique;
use crate::collections::tx_value;
use crate::collections::tx_written;
use crate::collections::BodyError;
use crate::collections::BodyErrorView;
use crate::collections::Variables;
use crate::collections::VariablesView;
use crate::engine::jumps_ahead;
use crate::engine::marker_of;
use crate::engine::CompiledRule;
use crate::engine::CompiledRuleView;
use crate::engine::Disruptive;
use crate::engine::EntryView;
use crate::engine::Markers;
use crate::engine::RuleSet;
use crate::engine::RuleSetView;
use crate::evaluate::apply_setvars;
use crate::evaluate::evaluate_rule;
use crate::evaluate::request_is_kept;
use crate::evaluate::rule_taken;
use crate::evaluate::rules_keep_names_unique;
use crate::evaluate::rules_keep_the_request;
use crate::evaluate::setvars_keep_names_unique;
use crate::evaluate::setvars_write_only_tx;
use crate::evaluate::with_setvars;
use crate::form::cookies;
use crate::form::parse_cookies;
use crate::form::parse_urlencoded;
use crate::form::urlencoded;
use crate::macros::expanded;
use crate::macros::PartView;
use crate::macros::Template;
use crate::matcher::cow_bytes;
use crate::text::before;
use crate::text::chars_of;
use crate::text::decimal;
use crate::text::eq_ignore_case_str;
use crate::text::find_char;
use crate::text::from;
use crate::text::lemma_position;
use crate::text::parse_unsigned;
use crate::text::position;
use crate::text::same_ignoring_case;
use crate::text::same_str;
use crate::text::split;
use crate::text::split_chars;
use crate::text::string_of;
use crate::text::trim;
use crate::text::trimmed;
use crate::text::unsigned_number;
use crate::text::views;
use crate::text::write_decimal;
use crate::Phase;
use crate::Verdict;
use std::collections::HashSet;
use vstd::prelude::*;
use vstd::slice::slice_to_vec;
use vstd::utf8::encode_utf8;

verus! {

broadcast use vstd::std_specs::hash::group_hash_axioms;

// ---------------------------------------------------------------------------
// Transactions

/// Whether the engine blocks or only records.
#[derive(Debug, Clone, Copy, PartialEq, Eq, Structural)]
pub enum EngineMode {
    /// Disruptive actions take effect.
    Blocking,
    /// Rules are evaluated and logged, but nothing is interrupted. Useful for
    /// tuning, and not a security control.
    DetectionOnly,
}

impl Default for EngineMode {
    fn default() -> (r: Self)
        ensures
            r == EngineMode::Blocking,
    {
        EngineMode::Blocking
    }
}

/// One rule that matched.
#[derive(Debug, Clone)]
pub struct RuleMatch {
    /// Whether the rule would appear in the audit log. A `nolog` rule still
    /// matched and still scored; it just does not log.
    pub logged: bool,
    /// The rule's id.
    pub id: Option<u32>,
    /// The expanded `msg:`.
    pub message: String,
    /// The expanded `logdata:`.
    pub data: String,
    /// The rule's tags.
    pub tags: Vec<String>,
    /// The name of the variable that matched, as `MATCHED_VAR_NAME` reports.
    pub matched_name: String,
}

/// The view of a [`RuleMatch`].
#[verifier::ext_equal]
pub struct RuleMatchView {
    pub logged: bool,
    pub id: Option<u32>,
    pub message: Seq<char>,
    pub data: Seq<char>,
    pub tags: Seq<Seq<char>>,
    pub matched_name: Seq<char>,
}

impl DeepView for RuleMatch {
    type V = RuleMatchView;

    open spec fn deep_view(&self) -> RuleMatchView {
        RuleMatchView {
            logged: self.logged,
            id: self.id,
            message: self.message@,
            data: self.data@,
            tags: self.tags.deep_view(),
            matched_name: self.matched_name@,
        }
    }
}

/// How a `ctl:ruleRemoveTarget*` names the rules it applies to.
#[derive(Debug)]
enum RuleSelector {
    Id(String),
    Tag(String),
}

/// The view of how a `ctl:ruleRemoveTarget*` names the rules it applies to.
#[verifier::ext_equal]
pub enum RuleSelectorView {
    Id(Seq<char>),
    Tag(Seq<char>),
}

impl RuleSelector {
    spec fn shown(&self) -> RuleSelectorView {
        match self {
            RuleSelector::Id(s) => RuleSelectorView::Id(s@),
            RuleSelector::Tag(s) => RuleSelectorView::Tag(s@),
        }
    }
}

/// An in-flight transaction.
pub struct Transaction<'r> {
    rules: &'r RuleSet,
    mode: EngineMode,
    /// Transaction variables, public so an embedder can seed `TX` the way
    /// `crs-setup.conf` does.
    pub vars: Variables,
    verdict: Verdict,
    matches: Vec<RuleMatch>,
    body_error: Option<BodyError>,
    completed: Option<Phase>,
    /// Rules switched off for this transaction by `ctl:ruleRemoveById`.
    removed_ids: HashSet<u32>,
    /// Rules switched off by `ctl:ruleRemoveByTag`.
    removed_tags: Vec<String>,
    /// Targets removed from specific rules by `ctl:ruleRemoveTargetById`.
    removed_targets: Vec<(RuleSelector, String)>,
    /// Set by `ctl:ruleEngine=Off`, which stops further evaluation.
    engine_off: bool,
}

/// Targets removed from the rules that a selector names.
pub type RemovedTargets = Seq<(RuleSelectorView, Seq<char>)>;

/// The view of a [`Transaction`].
#[verifier::ext_equal]
pub struct TransactionView {
    pub rules: RuleSetView,
    pub mode: EngineMode,
    pub vars: VariablesView,
    pub verdict: Verdict,
    pub matches: Seq<RuleMatchView>,
    pub body_error: Option<BodyErrorView>,
    pub completed: Option<Phase>,
    pub removed_ids: Set<u32>,
    pub removed_tags: Set<Seq<char>>,
    pub removed_targets: RemovedTargets,
    pub engine_off: bool,
}

impl<'r> View for Transaction<'r> {
    type V = TransactionView;

    closed spec fn view(&self) -> TransactionView {
        TransactionView {
            rules: self.rules@,
            mode: self.mode,
            vars: self.vars.deep_view(),
            verdict: self.verdict,
            matches: self.matches.deep_view(),
            body_error: self.body_error.deep_view(),
            completed: self.completed,
            removed_ids: self.removed_ids@,
            removed_tags: self.removed_tags.deep_view().to_set(),
            removed_targets: Seq::new(
                self.removed_targets@.len(),
                |i: int| (self.removed_targets@[i].0.shown(), self.removed_targets@[i].1@),
            ),
            engine_off: self.engine_off,
        }
    }
}

/// A transaction that has seen nothing yet.
pub open spec fn new_transaction(rules: RuleSetView, mode: EngineMode) -> TransactionView {
    TransactionView {
        rules,
        mode,
        vars: no_variables(),
        verdict: Verdict::Allow,
        matches: seq![],
        body_error: None,
        completed: None,
        removed_ids: Set::empty(),
        removed_tags: Set::empty(),
        removed_targets: seq![],
        engine_off: false,
    }
}

// ---------------------------------------------------------------------------
// Switching rules off

/// The ids that an operand of `ctl:ruleRemoveById` names, as the first and the
/// last: one id, or an inclusive `start-end` range of no more than 100,000.
pub open spec fn id_range(operand: Seq<char>) -> Option<(int, int)> {
    let s = trimmed(operand);
    let p = position(s, '-');
    if p >= s.len() {
        match unsigned_number(s) {
            Some(id) => if id <= u32::MAX {
                Some((id as int, id as int))
            } else {
                None
            },
            None => None,
        }
    } else {
        match (unsigned_number(trimmed(s.take(p))), unsigned_number(trimmed(s.skip(p + 1)))) {
            (Some(lo), Some(hi)) => if lo <= u32::MAX && hi <= u32::MAX && lo <= hi && hi - lo
                < 100_000 {
                Some((lo as int, hi as int))
            } else {
                None
            },
            _ => None,
        }
    }
}

/// Whether an operand of `ctl:ruleRemoveById` names an id.
pub open spec fn names_id(operand: Seq<char>, id: u32) -> bool {
    match id_range(operand) {
        Some((lo, hi)) => lo <= id <= hi,
        None => false,
    }
}

/// The ids that an operand of `ctl:ruleRemoveById` names.
pub open spec fn ids_named(operand: Seq<char>) -> Set<u32> {
    Set::new(|id: u32| names_id(operand, id))
}

/// Parse a `ctl:ruleRemoveById` operand, which is an id or an inclusive
/// `start-end` range, into the first and the last id.
pub fn parse_id_range(operand: &str) -> (r: Option<(u32, u32)>)
    ensures
        (match r {
            Some((lo, hi)) => id_range(operand@) == Some((lo as int, hi as int)),
            None => id_range(operand@) is None,
        }),
{
    let chars = chars_of(operand);
    let s = trim(chars.as_slice());
    let p = find_char(s, '-');
    if p >= s.len() {
        match parse_unsigned(s, u32::MAX as u64) {
            Some(id) => Some((id as u32, id as u32)),
            None => None,
        }
    } else {
        let lo = parse_unsigned(trim(before(s, p)), u32::MAX as u64);
        let hi = parse_unsigned(trim(from(s, p + 1)), u32::MAX as u64);
        match (lo, hi) {
            (Some(lo), Some(hi)) => if lo <= hi && hi - lo < 100_000 {
                Some((lo as u32, hi as u32))
            } else {
                None
            },
            _ => None,
        }
    }
}

/// Whether a `ctl:` action has switched a rule off for the transaction.
pub open spec fn is_switched_off(t: TransactionView, rule: CompiledRuleView) -> bool {
    ||| (rule.id matches Some(id) && t.removed_ids.contains(id))
    ||| exists|i: int| 0 <= i < rule.tags.len() && t.removed_tags.contains(#[trigger] rule.tags[i])
}

/// Whether a `ctl:ruleRemoveTarget*` applies to a rule.
pub open spec fn selects(selector: RuleSelectorView, rule: CompiledRuleView) -> bool {
    match selector {
        RuleSelectorView::Id(operand) => match rule.id {
            Some(id) => names_id(operand, id),
            None => false,
        },
        RuleSelectorView::Tag(tag) => rule.tags.contains(tag),
    }
}

/// The targets that a rule must not inspect.
pub open spec fn excluded_targets(removed: RemovedTargets, rule: CompiledRuleView) -> Seq<Seq<char>>
    decreases removed.len(),
{
    if removed.len() == 0 {
        seq![]
    } else if selects(removed.last().0, rule) {
        excluded_targets(removed.drop_last(), rule).push(removed.last().1)
    } else {
        excluded_targets(removed.drop_last(), rule)
    }
}

/// A transaction after one `ctl:` action.
///
/// Audit logging is not implemented, and body handling is decided when the body
/// arrives, before any rule of its phase can run; the actions on those change
/// nothing.
pub open spec fn with_ctl(t: TransactionView, ctl: CtlView) -> TransactionView {
    match ctl {
        CtlView::RuleEngine(RuleEngineMode::Off) => TransactionView { engine_off: true, ..t },
        CtlView::RuleEngine(RuleEngineMode::DetectionOnly) => TransactionView {
            mode: EngineMode::DetectionOnly,
            ..t
        },
        CtlView::RuleEngine(RuleEngineMode::On) => TransactionView {
            mode: EngineMode::Blocking,
            ..t
        },
        CtlView::RuleRemoveById(operand) => TransactionView {
            removed_ids: t.removed_ids.union(ids_named(operand)),
            ..t
        },
        CtlView::RuleRemoveByTag(tag) => TransactionView {
            removed_tags: t.removed_tags.insert(tag),
            ..t
        },
        CtlView::RuleRemoveTargetById { rule, target } => TransactionView {
            removed_targets: t.removed_targets.push((RuleSelectorView::Id(rule), target)),
            ..t
        },
        CtlView::RuleRemoveTargetByTag { tag, target } => TransactionView {
            removed_targets: t.removed_targets.push((RuleSelectorView::Tag(tag), target)),
            ..t
        },
        CtlView::AuditEngine(_)
        | CtlView::ForceRequestBodyVariable(_)
        | CtlView::RequestBodyProcessor(_) => t,
    }
}

/// A transaction after some `ctl:` actions, in order.
pub open spec fn with_ctls(t: TransactionView, ctls: Seq<CtlView>) -> TransactionView
    decreases ctls.len(),
{
    if ctls.len() == 0 {
        t
    } else {
        with_ctl(with_ctls(t, ctls.drop_last()), ctls.last())
    }
}

// ---------------------------------------------------------------------------
// Phases

/// The text of a template, or nothing where there is none.
pub open spec fn template_text(template: Option<Seq<PartView>>, vars: VariablesView) -> Seq<char> {
    match template {
        Some(parts) => lossy_text(expanded(parts, macro_values(vars))),
        None => seq![],
    }
}

/// What is recorded of a rule that matched.
pub open spec fn match_of(rule: CompiledRuleView, vars: VariablesView) -> RuleMatchView {
    RuleMatchView {
        logged: !rule.nolog,
        id: rule.id,
        message: template_text(rule.msg, vars),
        data: template_text(rule.logdata, vars),
        tags: rule.tags,
        matched_name: lossy_text(vars.matched_var_name),
    }
}

/// A transaction after a rule matched: the match is recorded, then the `setvar`
/// and then the `ctl` actions run.
pub open spec fn fired(t: TransactionView, rule: CompiledRuleView) -> TransactionView {
    with_ctls(
        TransactionView {
            matches: t.matches.push(match_of(rule, t.vars)),
            vars: with_setvars(t.vars, rule.setvars),
            ..t
        },
        rule.ctl,
    )
}

/// Where evaluation goes on after a rule that jumps.
pub open spec fn jump_target(rule: CompiledRuleView, markers: Markers) -> Option<nat> {
    match rule.skip_after {
        Some(name) => marker_of(markers, name),
        None => None,
    }
}

/// Whether a matching rule interrupts a transaction that blocks.
pub open spec fn is_disruptive(rule: CompiledRuleView) -> bool {
    match rule.disruptive {
        Some(Disruptive::Pass) => false,
        Some(_) => true,
        None => false,
    }
}

/// The verdict of a rule that interrupts.
pub open spec fn denial(rule: CompiledRuleView) -> Verdict {
    Verdict::Deny {
        status: match rule.status {
            Some(status) => status,
            None => 403,
        },
        rule_id: match rule.id {
            Some(id) => id,
            None => 0,
        },
    }
}

/// Whether a rule is passed over in a phase.
pub open spec fn is_passed_over(
    t: TransactionView,
    rule: CompiledRuleView,
    phase: Phase,
) -> bool {
    rule.phase != phase || t.engine_off || is_switched_off(t, rule)
}

/// A transaction after one rule in a phase, with the position where evaluation
/// goes on, or none where the rule interrupts it.
///
/// Evaluation stops at the first disruptive action. A matching rule that does not
/// interrupt and jumps goes on behind the marker.
pub open spec fn rule_run(
    t: TransactionView,
    rule: CompiledRuleView,
    phase: Phase,
    index: nat,
) -> (TransactionView, Option<nat>) {
    let (vars, matched) = rule_taken(t.vars, rule, excluded_targets(t.removed_targets, rule));
    let tested = TransactionView { vars, ..t };
    let after = fired(tested, rule);
    if is_passed_over(t, rule, phase) {
        (t, Some(index + 1))
    } else if !matched {
        (tested, Some(index + 1))
    } else if is_disruptive(rule) && after.mode == EngineMode::Blocking {
        (TransactionView { verdict: denial(rule), ..after }, None)
    } else if jump_target(rule, t.rules.markers) is Some {
        (after, Some(jump_target(rule, t.rules.markers)->0 + 1))
    } else {
        (after, Some(index + 1))
    }
}

/// A transaction after the rules of a phase, from a position on. A phase that
/// runs through is completed.
pub open spec fn run_from(t: TransactionView, phase: Phase, index: nat) -> TransactionView
    decreases
            if index < t.rules.entries.len() {
                t.rules.entries.len() - index
            } else {
                0
            },
{
    proof {
        lemma_firing_keeps_rules();
    }
    if index >= t.rules.entries.len() {
        TransactionView { completed: Some(phase), ..t }
    } else {
        match t.rules.rule_at(index as int) {
            None => run_from(t, phase, index + 1),
            Some(rule) => {
                let (after, next) = rule_run(t, rule, phase, index);
                match next {
                    Some(n) => if n > index {
                        run_from(after, phase, n)
                    } else {
                        after
                    },
                    None => after,
                }
            },
        }
    }
}

/// A transaction after a phase. Once a disruptive action has fired, later phases
/// do not run.
pub open spec fn phase_run(t: TransactionView, phase: Phase) -> TransactionView {
    if t.verdict != Verdict::Allow {
        t
    } else {
        run_from(t, phase, 0)
    }
}

/// Firing a rule leaves the rules as they are, and the verdict.
pub proof fn lemma_firing_keeps_rules()
    ensures
        forall|t: TransactionView, rule: CompiledRuleView|
            (#[trigger] fired(t, rule)).rules == t.rules && fired(t, rule).verdict == t.verdict
                && fired(t, rule).completed == t.completed,
{
    assert forall|t: TransactionView, rule: CompiledRuleView|
        (#[trigger] fired(t, rule)).rules == t.rules && fired(t, rule).verdict == t.verdict
            && fired(t, rule).completed == t.completed by {
        lemma_ctls_keep_rules(
            TransactionView {
                matches: t.matches.push(match_of(rule, t.vars)),
                vars: with_setvars(t.vars, rule.setvars),
                ..t
            },
            rule.ctl,
        );
    }
}

pub proof fn lemma_ctls_keep_rules(t: TransactionView, ctls: Seq<CtlView>)
    ensures
        with_ctls(t, ctls).rules == t.rules,
        with_ctls(t, ctls).verdict == t.verdict,
        with_ctls(t, ctls).completed == t.completed,
        with_ctls(t, ctls).matches == t.matches,
        with_ctls(t, ctls).vars == t.vars,
    decreases ctls.len(),
{
    if ctls.len() > 0 {
        lemma_ctls_keep_rules(t, ctls.drop_last());
    }
}

// ---------------------------------------------------------------------------
// Requests and responses

/// The part of a URI before its query, and the query where it has one.
pub open spec fn path_and_query(uri: Seq<char>) -> (Seq<char>, Option<Seq<char>>) {
    let p = position(uri, '?');
    if p >= uri.len() {
        (uri, None)
    } else {
        (uri.take(p), Some(uri.skip(p + 1)))
    }
}

/// The variables after the request line.
pub open spec fn with_request_line(
    vars: VariablesView,
    method: Seq<char>,
    uri: Seq<char>,
    protocol: Seq<char>,
) -> VariablesView {
    let (path, query) = path_and_query(uri);
    VariablesView {
        request_method: encode_utf8(method),
        request_uri: encode_utf8(uri),
        request_uri_raw: encode_utf8(uri),
        request_protocol: encode_utf8(protocol),
        request_line: encode_utf8(method + " "@ + uri + " "@ + protocol),
        request_filename: encode_utf8(path),
        request_basename: encode_utf8(split(path, '/').last()),
        query_string: match query {
            Some(q) => encode_utf8(q),
            None => vars.query_string,
        },
        args_get: match query {
            Some(q) => vars.args_get + urlencoded(encode_utf8(q)),
            None => vars.args_get,
        },
        ..vars
    }
}

/// The variables after a request header. A `Cookie` header fills the cookies
/// too.
pub open spec fn with_request_header(
    vars: VariablesView,
    name: Seq<char>,
    value: Seq<char>,
) -> VariablesView {
    VariablesView {
        request_cookies: if same_ignoring_case(name, "cookie"@) {
            vars.request_cookies + cookies(encode_utf8(value))
        } else {
            vars.request_cookies
        },
        request_headers: vars.request_headers.push((name, encode_utf8(value))),
        ..vars
    }
}

/// The variables with what went wrong with the body, where anything did.
pub open spec fn with_body_error(
    vars: VariablesView,
    error: Option<BodyErrorView>,
) -> VariablesView {
    if error is Some {
        VariablesView { tx: tx_written(vars.tx, "reqbody_error"@, seq!['1' as u8]), ..vars }
    } else {
        vars
    }
}

/// The variables as a request body arrives, before it is read.
pub open spec fn with_raw_body(
    vars: VariablesView,
    body: Seq<u8>,
    content_type: Option<Seq<char>>,
) -> VariablesView {
    VariablesView {
        request_body: body,
        reqbody_processor: match processor_name(declared_format(content_type)) {
            Some(processor) => encode_utf8(processor),
            None => vars.reqbody_processor,
        },
        ..vars
    }
}

/// A transaction after its request body.
pub open spec fn with_request_body(
    t: TransactionView,
    body: Seq<u8>,
    content_type: Option<Seq<char>>,
) -> TransactionView {
    let received = with_raw_body(t.vars, body, content_type);
    match body_read(received, body, content_type) {
        Ok(vars) => TransactionView { vars: with_body_error(vars, t.body_error), ..t },
        Err(error) => TransactionView {
            vars: with_body_error(received, Some(error)),
            body_error: Some(error),
            ..t
        },
    }
}

/// The ids of some matches, without those that have none.
pub open spec fn ids_of(matches: Seq<RuleMatchView>) -> Seq<u32>
    decreases matches.len(),
{
    if matches.len() == 0 {
        seq![]
    } else {
        match matches.last().id {
            Some(id) => ids_of(matches.drop_last()).push(id),
            None => ids_of(matches.drop_last()),
        }
    }
}

fn copy_texts(texts: &Vec<String>) -> (r: Vec<String>)
    ensures
        r.deep_view() == texts.deep_view(),
{
    let mut out: Vec<String> = Vec::new();
    let mut i: usize = 0;
    while i < texts.len()
        invariant
            i <= texts@.len(),
            out.deep_view() == texts.deep_view().take(i as int),
        decreases texts@.len() - i,
    {
        let ghost done = out.deep_view();
        out.push(texts[i].clone());
        assert(out.deep_view() =~= done.push(texts@[i as int]@));
        assert(out.deep_view() =~= texts.deep_view().take(i + 1));
        i += 1;
    }
    assert(texts.deep_view().take(i as int) =~= texts.deep_view());
    out
}

fn holds_text(texts: &Vec<String>, text: &str) -> (r: bool)
    ensures
        r == texts.deep_view().contains(text@),
{
    let mut i: usize = 0;
    while i < texts.len()
        invariant
            i <= texts@.len(),
            forall|k: int| 0 <= k < i ==> texts.deep_view()[k] != text@,
        decreases texts@.len() - i,
    {
        assert(texts.deep_view()[i as int] == texts@[i as int]@);
        if same_str(texts[i].as_str(), text) {
            return true;
        }
        i += 1;
    }
    false
}

fn template_string(template: &Option<Template>, vars: &Variables) -> (r: String)
    ensures
        r@ == template_text(template.deep_view(), vars.deep_view()),
{
    match template {
        Some(t) => {
            let bytes = t.expand(vars);
            utf8_lossy(cow_bytes(&bytes))
        },
        None => {
            let none = String::new();
            assert(none@ =~= seq![]);
            none
        },
    }
}

fn add_ids(ids: &mut HashSet<u32>, lo: u32, hi: u32)
    requires
        lo <= hi,
    ensures
        final(ids)@ == old(ids)@.union(Set::new(|id: u32| lo <= id <= hi)),
{
    let ghost start = ids@;
    let mut next: u64 = lo as u64;
    assert(ids@ =~= start.union(Set::new(|id: u32| lo <= id < next)));
    while next <= hi as u64
        invariant
            lo <= next <= hi + 1,
            ids@ == start.union(Set::new(|id: u32| lo <= id < next)),
        decreases hi + 1 - next,
    {
        ids.insert(next as u32);
        assert(ids@ =~= start.union(Set::new(|id: u32| lo <= id < next + 1)));
        next += 1;
    }
    assert(ids@ =~= start.union(Set::new(|id: u32| lo <= id <= hi)));
}

impl<'r> Transaction<'r> {
    /// Start a transaction against a rule set.
    pub fn new(rules: &'r RuleSet, mode: EngineMode) -> (r: Self)
        ensures
            r@ == new_transaction(rules@, mode),
    {
        let r = Transaction {
            rules,
            mode,
            vars: Variables::default(),
            verdict: Verdict::Allow,
            matches: Vec::new(),
            body_error: None,
            completed: None,
            removed_ids: HashSet::new(),
            removed_tags: Vec::new(),
            removed_targets: Vec::new(),
            engine_off: false,
        };
        assert(r@ =~= new_transaction(rules@, mode)) by {
            assert(r.removed_tags.deep_view() =~= seq![]);
            assert(r@.removed_tags =~= Set::empty());
        }
        r
    }

    /// Seed a `TX` variable, as `crs-setup.conf` does with paranoia levels and
    /// anomaly thresholds.
    ///
    /// This matters more than it looks: the Core Rule Set gates whole rule files
    /// on `TX:DETECTION_PARANOIA_LEVEL`, and an unset variable reads as 0, which
    /// would skip them all.
    pub fn set_tx(&mut self, name: &str, value: Vec<u8>)
        ensures
            final(self)@ == (TransactionView {
                vars: VariablesView {
                    tx: tx_written(old(self)@.vars.tx, name@, value@),
                    ..old(self)@.vars
                },
                ..old(self)@
            }),
    {
        self.vars.tx_set(name, value);
    }

    /// Record the connection's remote address.
    pub fn set_remote_addr(&mut self, addr: Vec<u8>)
        ensures
            final(self)@ == (TransactionView {
                vars: VariablesView { remote_addr: addr@, ..old(self)@.vars },
                ..old(self)@
            }),
    {
        self.vars.remote_addr = addr;
    }

    /// Record the request line and derive the URI variables from it.
    pub fn process_uri(&mut self, method: &str, uri: &str, protocol: &str)
        ensures
            final(self)@ == (TransactionView {
                vars: with_request_line(old(self)@.vars, method@, uri@, protocol@),
                ..old(self)@
            }),
    {
        let ghost start = self@;
        self.vars.request_method = bytes_of(method);
        self.vars.request_uri = bytes_of(uri);
        self.vars.request_uri_raw = bytes_of(uri);
        self.vars.request_protocol = bytes_of(protocol);
        let mut line = method.to_string();
        line.append(" ");
        line.append(uri);
        line.append(" ");
        line.append(protocol);
        self.vars.request_line = bytes_of(line.as_str());
        let chars = chars_of(uri);
        let s = chars.as_slice();
        let p = find_char(s, '?');
        let path = before(s, p);
        assert(path@ =~= path_and_query(uri@).0);
        self.vars.request_filename = bytes_of(string_of(path).as_str());
        let segments = split_chars(path, '/');
        let last: usize = segments.len() - 1;
        assert(views(segments@).last() == segments@[last as int]@);
        self.vars.request_basename = bytes_of(string_of(segments[last]).as_str());
        if p < s.len() {
            let query = string_of(from(s, p + 1));
            let bytes = bytes_of(query.as_str());
            self.vars.args_get.push_all(parse_urlencoded(bytes.as_slice()));
            self.vars.query_string = bytes;
        }
        assert(self@ =~= (TransactionView {
            vars: with_request_line(start.vars, method@, uri@, protocol@),
            ..start
        }));
    }

    /// Add a request header. Call before [`Self::process_request_headers`].
    pub fn add_request_header(&mut self, name: &str, value: &str)
        ensures
            final(self)@ == (TransactionView {
                vars: with_request_header(old(self)@.vars, name@, value@),
                ..old(self)@
            }),
    {
        let ghost start = self@;
        let bytes = bytes_of(value);
        if eq_ignore_case_str(name, "cookie") {
            self.vars.request_cookies.push_all(parse_cookies(bytes.as_slice()));
        }
        self.vars.request_headers.push(name, bytes.as_slice());
        assert(self@ =~= (TransactionView {
            vars: with_request_header(start.vars, name@, value@),
            ..start
        }));
    }

    /// Run phase 1.
    pub fn process_request_headers(&mut self) -> (r: Verdict)
        requires
            old(self)@.rules.jumps_forward(),
        ensures
            final(self)@ == phase_run(old(self)@, Phase::RequestHeaders),
            final(self)@.rules == old(self)@.rules,
            r == final(self)@.verdict,
    {
        self.run_phase(Phase::RequestHeaders)
    }

    /// Supply the request body and parse it according to `content_type`.
    ///
    /// A malformed body, or one in a format with no parser, sets a body error,
    /// which SecLang exposes as `REQBODY_ERROR`. That is deliberate: an XML
    /// payload must be refused rather than inspected against an empty collection.
    pub fn set_request_body(&mut self, body: &[u8], content_type: Option<&str>)
        ensures
            final(self)@ == with_request_body(old(self)@, body@, header_text(content_type)),
    {
        let ghost start = self@;
        let ghost declared = header_text(content_type);
        self.vars.request_body = slice_to_vec(body);
        if let Some(processor) = processor_of(body_format(content_type)) {
            self.vars.reqbody_processor = bytes_of(processor);
        }
        assert(self.vars.deep_view() =~= with_raw_body(start.vars, body@, declared));
        if let Some(error) = read_body(&mut self.vars, body, content_type) {
            self.body_error = Some(error);
        }
        if self.body_error.is_some() {
            let mut one: Vec<u8> = Vec::new();
            one.push('1' as u8);
            assert(one@ =~= seq!['1' as u8]);
            self.vars.tx_set("reqbody_error", one);
        }
        assert(self@ =~= with_request_body(start, body@, declared));
    }

    /// Whether a body could not be parsed, and why.
    pub fn body_error(&self) -> (r: Option<&BodyError>)
        ensures
            (match r {
                Some(error) => self@.body_error == Some(error.deep_view()),
                None => self@.body_error is None,
            }),
    {
        match &self.body_error {
            Some(error) => Some(error),
            None => None,
        }
    }

    /// Run phase 2.
    pub fn process_request_body(&mut self) -> (r: Verdict)
        requires
            old(self)@.rules.jumps_forward(),
        ensures
            final(self)@ == phase_run(old(self)@, Phase::RequestBody),
            final(self)@.rules == old(self)@.rules,
            r == final(self)@.verdict,
    {
        self.run_phase(Phase::RequestBody)
    }

    /// Record the response status.
    pub fn set_response_status(&mut self, status: u16)
        ensures
            final(self)@ == (TransactionView {
                vars: VariablesView {
                    response_status: encode_utf8(decimal(status as nat)),
                    ..old(self)@.vars
                },
                ..old(self)@
            }),
    {
        let text = write_decimal(status as u64);
        self.vars.response_status = bytes_of(text.as_str());
    }

    /// Add a response header.
    pub fn add_response_header(&mut self, name: &str, value: &str)
        ensures
            final(self)@ == (TransactionView {
                vars: VariablesView {
                    response_headers: old(self)@.vars.response_headers.push(
                        (name@, encode_utf8(value@)),
                    ),
                    ..old(self)@.vars
                },
                ..old(self)@
            }),
    {
        let bytes = bytes_of(value);
        self.vars.response_headers.push(name, bytes.as_slice());
    }

    /// Run phase 3.
    pub fn process_response_headers(&mut self) -> (r: Verdict)
        requires
            old(self)@.rules.jumps_forward(),
        ensures
            final(self)@ == phase_run(old(self)@, Phase::ResponseHeaders),
            final(self)@.rules == old(self)@.rules,
            r == final(self)@.verdict,
    {
        self.run_phase(Phase::ResponseHeaders)
    }

    /// Supply the response body.
    pub fn set_response_body(&mut self, body: &[u8])
        ensures
            final(self)@ == (TransactionView {
                vars: VariablesView { response_body: body@, ..old(self)@.vars },
                ..old(self)@
            }),
    {
        self.vars.response_body = slice_to_vec(body);
    }

    /// Run phase 4.
    pub fn process_response_body(&mut self) -> (r: Verdict)
        requires
            old(self)@.rules.jumps_forward(),
        ensures
            final(self)@ == phase_run(old(self)@, Phase::ResponseBody),
            final(self)@.rules == old(self)@.rules,
            r == final(self)@.verdict,
    {
        self.run_phase(Phase::ResponseBody)
    }

    /// Run phase 5.
    pub fn process_logging(&mut self) -> (r: Verdict)
        requires
            old(self)@.rules.jumps_forward(),
        ensures
            final(self)@ == phase_run(old(self)@, Phase::Logging),
            final(self)@.rules == old(self)@.rules,
            r == final(self)@.verdict,
    {
        self.run_phase(Phase::Logging)
    }

    /// The verdict so far.
    pub fn verdict(&self) -> (r: &Verdict)
        ensures
            *r == self@.verdict,
    {
        &self.verdict
    }

    /// Every rule that matched, in order.
    pub fn matches(&self) -> (r: &[RuleMatch])
        ensures
            r.deep_view() == self@.matches,
    {
        self.matches.as_slice()
    }

    /// The ids of every rule that matched.
    pub fn matched_ids(&self) -> (r: Vec<u32>)
        ensures
            r@ == ids_of(self@.matches),
    {
        let ghost all = self@.matches;
        let mut out: Vec<u32> = Vec::new();
        let mut i: usize = 0;
        assert(all.take(0) =~= seq![]);
        while i < self.matches.len()
            invariant
                i <= self.matches@.len(),
                all == self.matches.deep_view(),
                out@ == ids_of(all.take(i as int)),
            decreases self.matches@.len() - i,
        {
            assert(all.take(i + 1).drop_last() =~= all.take(i as int));
            assert(all.take(i + 1).last() == self.matches@[i as int].deep_view());
            if let Some(id) = self.matches[i].id {
                out.push(id);
            }
            i += 1;
        }
        assert(all.take(i as int) =~= all);
        out
    }

    /// The last phase that ran to completion.
    pub fn last_completed_phase(&self) -> (r: Option<Phase>)
        ensures
            r == self@.completed,
    {
        self.completed
    }

    /// Read an anomaly score out of `TX`.
    pub fn anomaly_score(&self, name: &str) -> (r: i64)
        ensures
            r == number_or_zero(tx_value(self@.vars.tx, name@)),
    {
        self.vars.tx_number(name)
    }

    fn run_phase(&mut self, phase: Phase) -> (r: Verdict)
        requires
            old(self)@.rules.jumps_forward(),
        ensures
            final(self)@ == phase_run(old(self)@, phase),
            final(self)@.rules == old(self)@.rules,
            r == final(self)@.verdict,
    {
        if self.verdict != Verdict::Allow {
            return self.verdict;
        }
        let rules: &'r RuleSet = self.rules;
        let mut index: usize = 0;
        let ghost result = run_from(self@, phase, 0);
        while index < rules.entry_count()
            invariant
                rules == self.rules,
                rules@ == old(self)@.rules,
                rules@.jumps_forward(),
                result == phase_run(old(self)@, phase),
                run_from(self@, phase, index as nat) == result,
            decreases
                    if index < rules@.entries.len() {
                        rules@.entries.len() - index
                    } else {
                        0
                    },
        {
            match rules.rule_at(index) {
                None => {
                    index += 1;
                },
                Some(rule) => {
                    assert(jumps_ahead(rules@.entries[index as int], index as int, rules@));
                    match self.run_rule(rule, phase, index) {
                        Some(next) => {
                            index = next;
                        },
                        None => {
                            return self.verdict;
                        },
                    }
                },
            }
        }
        self.completed = Some(phase);
        self.verdict
    }

    /// Run one rule: where evaluation goes on, or nothing where it stops.
    fn run_rule(&mut self, rule: &CompiledRule, phase: Phase, index: usize) -> (r: Option<usize>)
        requires
            index < old(self)@.rules.entries.len() <= usize::MAX,
            jumps_ahead(EntryView::Rule(rule.deep_view()), index as int, old(self)@.rules),
        ensures
            ({
                let (after, next) = rule_run(old(self)@, rule.deep_view(), phase, index as nat);
                &&& final(self)@ == after
                &&& r is None <==> next is None
                &&& r matches Some(n) ==> next == Some(n as nat) && n > index
            }),
            final(self).rules == old(self).rules,
    {
        if rule.phase != phase || self.engine_off || self.is_removed(rule) {
            return Some(index + 1);
        }
        let excluded = self.removed_targets_for(rule);
        if !self.evaluate(rule, &excluded) {
            return Some(index + 1);
        }
        self.fire(rule);
        if self.mode == EngineMode::Blocking {
            match rule.disruptive {
                Some(Disruptive::Pass) | None => {},
                Some(_) => {
                    self.verdict = Verdict::Deny {
                        status: match rule.status {
                            Some(status) => status,
                            None => 403,
                        },
                        rule_id: match rule.id {
                            Some(id) => id,
                            None => 0,
                        },
                    };
                    return None;
                },
            }
        }
        if let Some(marker) = &rule.skip_after {
            if let Some(position) = self.rules.marker_position(marker.as_str()) {
                return Some(position + 1);
            }
        }
        Some(index + 1)
    }

    /// Whether a `ctl:` action has switched this rule off for the transaction.
    fn is_removed(&self, rule: &CompiledRule) -> (r: bool)
        ensures
            r == is_switched_off(self@, rule.deep_view()),
    {
        if let Some(id) = rule.id {
            if self.removed_ids.contains(&id) {
                return true;
            }
        }
        let ghost tags = rule.deep_view().tags;
        let mut i: usize = 0;
        while i < rule.tags.len()
            invariant
                i <= rule.tags@.len(),
                tags == rule.deep_view().tags,
                forall|k: int| 0 <= k < i ==> !self@.removed_tags.contains(#[trigger] tags[k]),
            decreases rule.tags@.len() - i,
        {
            assert(tags[i as int] == rule.tags@[i as int]@);
            if holds_text(&self.removed_tags, rule.tags[i].as_str()) {
                assert(self@.removed_tags.contains(tags[i as int]));
                return true;
            }
            i += 1;
        }
        false
    }

    /// Targets this rule must not inspect, per `ctl:ruleRemoveTarget*`.
    fn removed_targets_for(&self, rule: &CompiledRule) -> (r: Vec<String>)
        ensures
            r.deep_view() == excluded_targets(self@.removed_targets, rule.deep_view()),
    {
        let ghost all = self@.removed_targets;
        let mut out: Vec<String> = Vec::new();
        let mut i: usize = 0;
        assert(out.deep_view() =~= seq![]);
        assert(all.take(0) =~= seq![]);
        while i < self.removed_targets.len()
            invariant
                i <= self.removed_targets@.len(),
                all == self@.removed_targets,
                out.deep_view() == excluded_targets(all.take(i as int), rule.deep_view()),
            decreases self.removed_targets@.len() - i,
        {
            let ghost done = out.deep_view();
            assert(all.take(i + 1).drop_last() =~= all.take(i as int));
            assert(all.take(i + 1).last() == all[i as int]);
            let removed = &self.removed_targets[i];
            let applies = match &removed.0 {
                RuleSelector::Id(operand) => match (rule.id, parse_id_range(operand.as_str())) {
                    (Some(id), Some((lo, hi))) => lo <= id && id <= hi,
                    _ => false,
                },
                RuleSelector::Tag(tag) => holds_text(&rule.tags, tag.as_str()),
            };
            assert(applies == selects(all[i as int].0, rule.deep_view()));
            if applies {
                out.push(removed.1.clone());
                assert(out.deep_view() =~= done.push(all[i as int].1));
            }
            i += 1;
        }
        assert(all.take(i as int) =~= all);
        out
    }

    fn evaluate(&mut self, rule: &CompiledRule, excluded: &Vec<String>) -> (r: bool)
        ensures
            ({
                let (vars, matched) = rule_taken(
                    old(self)@.vars,
                    rule.deep_view(),
                    excluded.deep_view(),
                );
                r == matched && final(self)@ == (TransactionView { vars, ..old(self)@ })
            }),
            final(self).rules == old(self).rules,
    {
        evaluate_rule(&mut self.vars, rule, excluded)
    }

    /// Record a match and run the actions of its rule.
    fn fire(&mut self, rule: &CompiledRule)
        ensures
            final(self)@ == fired(old(self)@, rule.deep_view()),
            final(self).rules == old(self).rules,
    {
        self.record_match(rule);
        apply_setvars(&mut self.vars, &rule.setvars);
        self.apply_ctl(rule);
    }

    fn record_match(&mut self, rule: &CompiledRule)
        ensures
            final(self)@ == (TransactionView {
                matches: old(self)@.matches.push(match_of(rule.deep_view(), old(self)@.vars)),
                ..old(self)@
            }),
            final(self).rules == old(self).rules,
    {
        let ghost start = self@;
        let seen = RuleMatch {
            logged: !rule.nolog,
            id: rule.id,
            message: template_string(&rule.msg, &self.vars),
            data: template_string(&rule.logdata, &self.vars),
            tags: copy_texts(&rule.tags),
            matched_name: utf8_lossy(self.vars.matched_var_name.as_slice()),
        };
        assert(seen.deep_view() =~= match_of(rule.deep_view(), start.vars));
        let ghost shown = seen.deep_view();
        self.matches.push(seen);
        assert(self@.matches =~= start.matches.push(shown));
        assert(self@ =~= (TransactionView { matches: start.matches.push(shown), ..start }));
    }

    fn apply_ctl(&mut self, rule: &CompiledRule)
        ensures
            final(self)@ == with_ctls(old(self)@, rule.deep_view().ctl),
            final(self).rules == old(self).rules,
    {
        let ghost start = self@;
        let ghost all = rule.deep_view().ctl;
        let mut i: usize = 0;
        assert(all.take(0) =~= seq![]);
        while i < rule.ctl.len()
            invariant
                i <= rule.ctl@.len(),
                all == rule.deep_view().ctl,
                self@ == with_ctls(start, all.take(i as int)),
                self.rules == old(self).rules,
            decreases rule.ctl@.len() - i,
        {
            assert(all.take(i + 1).drop_last() =~= all.take(i as int));
            assert(all.take(i + 1).last() == rule.ctl@[i as int].deep_view());
            self.apply_one_ctl(&rule.ctl[i]);
            i += 1;
        }
        assert(all.take(i as int) =~= all);
    }

    fn apply_one_ctl(&mut self, ctl: &Ctl)
        ensures
            final(self)@ == with_ctl(old(self)@, ctl.deep_view()),
            final(self).rules == old(self).rules,
    {
        let ghost start = self@;
        match ctl {
            Ctl::RuleEngine(mode) => match mode {
                RuleEngineMode::Off => self.engine_off = true,
                RuleEngineMode::DetectionOnly => self.mode = EngineMode::DetectionOnly,
                RuleEngineMode::On => self.mode = EngineMode::Blocking,
            },
            Ctl::RuleRemoveById(operand) => {
                match parse_id_range(operand.as_str()) {
                    Some((lo, hi)) => {
                        add_ids(&mut self.removed_ids, lo, hi);
                        assert(ids_named(operand@) =~= Set::new(|id: u32| lo <= id <= hi));
                    },
                    None => {
                        assert(ids_named(operand@) =~= Set::empty());
                    },
                }
                assert(self@.removed_ids =~= start.removed_ids.union(ids_named(operand@)));
            },
            Ctl::RuleRemoveByTag(tag) => {
                let ghost tags = self.removed_tags.deep_view();
                self.removed_tags.push(tag.clone());
                proof {
                    assert(self.removed_tags.deep_view() =~= tags.push(tag@));
                    tags.lemma_push_to_set_commute(tag@);
                    assert(start.removed_tags == tags.to_set());
                }
            },
            Ctl::RuleRemoveTargetById { rule, target } => {
                self.removed_targets.push((RuleSelector::Id(rule.clone()), target.clone()));
                assert(self@.removed_targets =~= start.removed_targets.push(
                    (RuleSelectorView::Id(rule@), target@),
                ));
            },
            Ctl::RuleRemoveTargetByTag { tag, target } => {
                self.removed_targets.push((RuleSelector::Tag(tag.clone()), target.clone()));
                assert(self@.removed_targets =~= start.removed_targets.push(
                    (RuleSelectorView::Tag(tag@), target@),
                ));
            },
            Ctl::AuditEngine(_) => {},
            Ctl::ForceRequestBodyVariable(_) => {},
            Ctl::RequestBodyProcessor(_) => {},
        }
        assert(self@ =~= with_ctl(start, ctl.deep_view()));
    }
}

// ---------------------------------------------------------------------------
// Laws

/// What running rules keeps, from one state of a transaction to a later one: the
/// rules, the request and the response, what was refused of the body, and the
/// matches so far.
pub open spec fn is_later(before: TransactionView, after: TransactionView) -> bool {
    &&& after.rules == before.rules
    &&& request_is_kept(before.vars, after.vars)
    &&& after.body_error == before.body_error
    &&& before.matches.is_prefix_of(after.matches)
    &&& before.removed_ids.subset_of(after.removed_ids)
    &&& before.removed_tags.subset_of(after.removed_tags)
    &&& before.removed_targets.is_prefix_of(after.removed_targets)
    &&& before.engine_off ==> after.engine_off
    &&& tx_unique(before.vars.tx) ==> tx_unique(after.vars.tx)
}

proof fn lemma_later_is_transitive(a: TransactionView, b: TransactionView, c: TransactionView)
    requires
        is_later(a, b),
        is_later(b, c),
    ensures
        is_later(a, c),
{
    assert(a.matches =~= c.matches.subrange(0, a.matches.len() as int)) by {
        assert(a.matches =~= b.matches.subrange(0, a.matches.len() as int));
        assert(b.matches =~= c.matches.subrange(0, b.matches.len() as int));
        assert forall|k: int| 0 <= k < a.matches.len() implies a.matches[k] == c.matches[k] by {
            assert(a.matches[k] == b.matches.subrange(0, a.matches.len() as int)[k]);
            assert(b.matches[k] == c.matches.subrange(0, b.matches.len() as int)[k]);
        }
    }
    assert(a.removed_targets =~= c.removed_targets.subrange(0, a.removed_targets.len() as int)) by {
        let n = a.removed_targets.len() as int;
        let m = b.removed_targets.len() as int;
        assert(a.removed_targets =~= b.removed_targets.subrange(0, n));
        assert(b.removed_targets =~= c.removed_targets.subrange(0, m));
        assert forall|k: int| 0 <= k < n implies a.removed_targets[k] == c.removed_targets[k] by {
            assert(a.removed_targets[k] == b.removed_targets.subrange(0, n)[k]);
            assert(b.removed_targets[k] == c.removed_targets.subrange(0, m)[k]);
        }
    }
}

proof fn lemma_ctls_are_later(t: TransactionView, ctls: Seq<CtlView>)
    ensures
        is_later(t, with_ctls(t, ctls)),
    decreases ctls.len(),
{
    if ctls.len() > 0 {
        let before = with_ctls(t, ctls.drop_last());
        lemma_ctls_are_later(t, ctls.drop_last());
        let after = with_ctl(before, ctls.last());
        assert(before.removed_targets =~= after.removed_targets.subrange(
            0,
            before.removed_targets.len() as int,
        ));
        assert(before.matches =~= after.matches.subrange(0, before.matches.len() as int));
        lemma_later_is_transitive(t, before, after);
    } else {
        assert(t.matches =~= t.matches.subrange(0, t.matches.len() as int));
        assert(t.removed_targets =~= t.removed_targets.subrange(
            0,
            t.removed_targets.len() as int,
        ));
    }
}

proof fn lemma_same_is_later(t: TransactionView, vars: VariablesView)
    requires
        request_is_kept(t.vars, vars),
        tx_unique(t.vars.tx) ==> tx_unique(vars.tx),
    ensures
        is_later(t, TransactionView { vars, ..t }),
{
    assert(t.matches =~= t.matches.subrange(0, t.matches.len() as int));
    assert(t.removed_targets =~= t.removed_targets.subrange(0, t.removed_targets.len() as int));
}

proof fn lemma_rule_run_is_later(
    t: TransactionView,
    rule: CompiledRuleView,
    phase: Phase,
    index: nat,
)
    ensures
        is_later(t, rule_run(t, rule, phase, index).0),
{
    let excluded = excluded_targets(t.removed_targets, rule);
    let (vars, matched) = rule_taken(t.vars, rule, excluded);
    let tested = TransactionView { vars, ..t };
    rules_keep_the_request(t.vars, rule, excluded);
    if tx_unique(t.vars.tx) {
        rules_keep_names_unique(t.vars, rule, excluded);
    }
    lemma_same_is_later(t, t.vars);
    lemma_same_is_later(t, vars);
    setvars_write_only_tx(vars, rule.setvars);
    if tx_unique(vars.tx) {
        setvars_keep_names_unique(vars, rule.setvars);
    }
    let recorded = TransactionView {
        matches: tested.matches.push(match_of(rule, vars)),
        vars: with_setvars(vars, rule.setvars),
        ..tested
    };
    assert(tested.matches =~= recorded.matches.subrange(0, tested.matches.len() as int));
    assert(tested.removed_targets =~= recorded.removed_targets.subrange(
        0,
        tested.removed_targets.len() as int,
    ));
    assert(is_later(tested, recorded));
    lemma_ctls_are_later(recorded, rule.ctl);
    lemma_later_is_transitive(t, tested, recorded);
    lemma_later_is_transitive(t, recorded, fired(tested, rule));
}

proof fn lemma_run_is_later(t: TransactionView, phase: Phase, index: nat)
    ensures
        is_later(t, run_from(t, phase, index)),
    decreases
            if index < t.rules.entries.len() {
                t.rules.entries.len() - index
            } else {
                0
            },
{
    lemma_firing_keeps_rules();
    lemma_same_is_later(t, t.vars);
    if index < t.rules.entries.len() {
        match t.rules.rule_at(index as int) {
            None => {
                lemma_run_is_later(t, phase, index + 1);
            },
            Some(rule) => {
                let (after, next) = rule_run(t, rule, phase, index);
                lemma_rule_run_is_later(t, rule, phase, index);
                if let Some(n) = next {
                    if n > index {
                        lemma_run_is_later(after, phase, n);
                        lemma_later_is_transitive(t, after, run_from(after, phase, n));
                    }
                }
            },
        }
    }
}

/// A phase never takes anything back: the rules, the request and the response
/// stay as they are, matches are only added, a rule or target that was switched
/// off stays off, and the names in `TX` stay unique.
pub proof fn phases_take_nothing_back(t: TransactionView, phase: Phase)
    ensures
        is_later(t, phase_run(t, phase)),
{
    lemma_run_is_later(t, phase, 0);
    lemma_same_is_later(t, t.vars);
}

/// Evaluation stops at the first disruptive action: a disruptive rule that matches
/// while the engine blocks denies, whether or not it jumps.
pub proof fn a_disruptive_match_denies(
    t: TransactionView,
    rule: CompiledRuleView,
    phase: Phase,
    index: nat,
)
    requires
        !is_passed_over(t, rule, phase),
        rule_taken(t.vars, rule, excluded_targets(t.removed_targets, rule)).1,
        is_disruptive(rule),
        rule_run(t, rule, phase, index).0.mode == EngineMode::Blocking,
    ensures
        rule_run(t, rule, phase, index).0.verdict == denial(rule),
        rule_run(t, rule, phase, index).1 is None,
{
}

/// After a denial later phases do not run.
pub proof fn a_denial_is_final(t: TransactionView, phase: Phase)
    requires
        t.verdict != Verdict::Allow,
    ensures
        phase_run(t, phase) == t,
{
}

/// Whether a verdict is the denial that a rule of a phase asks for.
pub open spec fn is_denial_of_a_rule(rules: RuleSetView, phase: Phase, verdict: Verdict) -> bool {
    exists|i: int|
        (#[trigger] rules.rule_at(i)) matches Some(rule) && rule.phase == phase && is_disruptive(
            rule,
        ) && verdict == denial(rule)
}

/// Whether a phase either ran through, and is then the last completed one, or
/// ended in the denial of a rule that was recorded last.
pub open spec fn completes_or_denies(
    before: TransactionView,
    after: TransactionView,
    phase: Phase,
) -> bool {
    match after.verdict {
        Verdict::Allow => after.completed == Some(phase),
        Verdict::Deny { rule_id, .. } => {
            &&& after.completed == before.completed
            &&& after.mode == EngineMode::Blocking
            &&& is_denial_of_a_rule(before.rules, phase, after.verdict)
            &&& after.matches.len() > 0
            &&& rule_id == match after.matches.last().id {
                Some(id) => id,
                None => 0,
            }
        },
    }
}

proof fn lemma_run_outcome(t: TransactionView, phase: Phase, index: nat)
    requires
        t.rules.jumps_forward(),
        t.verdict == Verdict::Allow,
    ensures
        completes_or_denies(t, run_from(t, phase, index), phase),
    decreases
            if index < t.rules.entries.len() {
                t.rules.entries.len() - index
            } else {
                0
            },
{
    lemma_firing_keeps_rules();
    if index < t.rules.entries.len() {
        match t.rules.rule_at(index as int) {
            None => {
                lemma_run_outcome(t, phase, index + 1);
            },
            Some(rule) => {
                assert(jumps_ahead(t.rules.entries[index as int], index as int, t.rules));
                let (after, next) = rule_run(t, rule, phase, index);
                match next {
                    Some(n) => {
                        assert(n > index);
                        lemma_run_outcome(after, phase, n);
                    },
                    None => {
                        let (vars, _) = rule_taken(
                            t.vars,
                            rule,
                            excluded_targets(t.removed_targets, rule),
                        );
                        let tested = TransactionView { vars, ..t };
                        lemma_ctls_keep_rules(
                            TransactionView {
                                matches: tested.matches.push(match_of(rule, vars)),
                                vars: with_setvars(vars, rule.setvars),
                                ..tested
                            },
                            rule.ctl,
                        );
                        assert(t.rules.rule_at(index as int) == Some(rule));
                    },
                }
            },
        }
    }
}

/// A phase either runs through, and is then the last completed one, or ends in
/// the denial that a disruptive rule of that phase asks for. That rule is the
/// last match recorded.
pub proof fn phases_complete_or_deny(t: TransactionView, phase: Phase)
    requires
        t.rules.jumps_forward(),
        t.verdict == Verdict::Allow,
    ensures
        completes_or_denies(t, phase_run(t, phase), phase),
{
    lemma_run_outcome(t, phase, 0);
}

/// Whether no rule of a rule set turns blocking on.
pub open spec fn never_turns_blocking_on(rules: RuleSetView) -> bool {
    forall|i: int|
        (#[trigger] rules.rule_at(i)) matches Some(rule) ==> !rule.ctl.contains(
            CtlView::RuleEngine(RuleEngineMode::On),
        )
}

proof fn lemma_ctls_stay_detecting(t: TransactionView, ctls: Seq<CtlView>)
    requires
        t.mode == EngineMode::DetectionOnly,
        !ctls.contains(CtlView::RuleEngine(RuleEngineMode::On)),
    ensures
        with_ctls(t, ctls).mode == EngineMode::DetectionOnly,
    decreases ctls.len(),
{
    if ctls.len() > 0 {
        let shorter = ctls.drop_last();
        assert(ctls.contains(ctls.last()));
        assert forall|c: CtlView| shorter.contains(c) implies ctls.contains(c) by {
            let k = choose|k: int| 0 <= k < shorter.len() && shorter[k] == c;
            assert(ctls[k] == c);
        }
        lemma_ctls_stay_detecting(t, shorter);
    }
}

proof fn lemma_detection_run(t: TransactionView, phase: Phase, index: nat)
    requires
        t.mode == EngineMode::DetectionOnly,
        t.verdict == Verdict::Allow,
        never_turns_blocking_on(t.rules),
    ensures
        run_from(t, phase, index).verdict == Verdict::Allow,
        run_from(t, phase, index).mode == EngineMode::DetectionOnly,
    decreases
            if index < t.rules.entries.len() {
                t.rules.entries.len() - index
            } else {
                0
            },
{
    lemma_firing_keeps_rules();
    if index < t.rules.entries.len() {
        match t.rules.rule_at(index as int) {
            None => {
                lemma_detection_run(t, phase, index + 1);
            },
            Some(rule) => {
                let (after, next) = rule_run(t, rule, phase, index);
                let (vars, _) = rule_taken(
                    t.vars,
                    rule,
                    excluded_targets(t.removed_targets, rule),
                );
                lemma_ctls_stay_detecting(
                    TransactionView {
                        matches: t.matches.push(match_of(rule, vars)),
                        vars: with_setvars(vars, rule.setvars),
                        ..t
                    },
                    rule.ctl,
                );
                assert(after.mode == EngineMode::DetectionOnly);
                if let Some(n) = next {
                    if n > index {
                        lemma_detection_run(after, phase, n);
                    }
                }
            },
        }
    }
}

/// A transaction that only detects never denies, unless a rule turns blocking on.
pub proof fn detection_never_denies(t: TransactionView, phase: Phase)
    requires
        t.mode == EngineMode::DetectionOnly,
        t.verdict == Verdict::Allow,
        never_turns_blocking_on(t.rules),
    ensures
        phase_run(t, phase).verdict == Verdict::Allow,
        phase_run(t, phase).mode == EngineMode::DetectionOnly,
{
    lemma_detection_run(t, phase, 0);
}

proof fn lemma_off_run(t: TransactionView, phase: Phase, index: nat)
    requires
        t.engine_off,
    ensures
        run_from(t, phase, index) == (TransactionView { completed: Some(phase), ..t }),
    decreases
            if index < t.rules.entries.len() {
                t.rules.entries.len() - index
            } else {
                0
            },
{
    if index < t.rules.entries.len() {
        lemma_off_run(t, phase, index + 1);
    }
}

/// Once `ctl:ruleEngine=Off` has run, no further rule is evaluated: a phase only
/// completes.
pub proof fn an_engine_that_is_off_does_nothing(t: TransactionView, phase: Phase)
    requires
        t.engine_off,
        t.verdict == Verdict::Allow,
    ensures
        phase_run(t, phase) == (TransactionView { completed: Some(phase), ..t }),
{
    lemma_off_run(t, phase, 0);
}

/// A rule that `ctl:ruleRemoveById` names is passed over from then on.
pub proof fn removed_rules_are_passed_over(
    t: TransactionView,
    operand: Seq<char>,
    rule: CompiledRuleView,
    id: u32,
    phase: Phase,
    index: nat,
)
    requires
        rule.id == Some(id),
        names_id(operand, id),
    ensures
        ({
            let after = with_ctl(t, CtlView::RuleRemoveById(operand));
            rule_run(after, rule, phase, index) == (after, Some(index + 1))
        }),
{
}

/// The path and the query of a URI, joined by `?`, are the URI.
pub proof fn path_and_query_make_the_uri(uri: Seq<char>)
    ensures
        ({
            let (path, query) = path_and_query(uri);
            uri == (match query {
                Some(q) => path + seq!['?'] + q,
                None => path,
            })
        }),
{
    lemma_position(uri, '?');
    let p = position(uri, '?');
    if p < uri.len() {
        assert(uri =~= uri.take(p) + seq!['?'] + uri.skip(p + 1));
    }
}

/// A body is read or reported: where it cannot be read it sets a body error and
/// rules read `TX:REQBODY_ERROR` as 1, and where it can it sets none.
pub proof fn bodies_are_read_or_reported(
    t: TransactionView,
    body: Seq<u8>,
    content_type: Option<Seq<char>>,
    asked: Seq<char>,
)
    requires
        same_ignoring_case("reqbody_error"@, asked),
    ensures
        ({
            let after = with_request_body(t, body, content_type);
            match body_read(with_raw_body(t.vars, body, content_type), body, content_type) {
                Ok(_) => after.body_error == t.body_error && (t.body_error is None
                    ==> after.vars.tx == t.vars.tx),
                Err(error) => after.body_error == Some(error) && tx_value(after.vars.tx, asked)
                    == Some(seq!['1' as u8]),
            }
        }),
{
    let received = with_raw_body(t.vars, body, content_type);
    bodies_fill_only_their_collections(received, body, content_type);
    tx_reads_what_was_written(received.tx, "reqbody_error"@, seq!['1' as u8], asked);
}

} // verus!
