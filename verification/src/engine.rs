//! Compiling parsed directives into an evaluable rule set.

use crate::action::Action;
use crate::action::ActionView;
use crate::action::Ctl;
use crate::action::CtlView;
use crate::action::SetVar;
use crate::action::SetVarOp;
use crate::action::SetVarView;
use crate::action::Transformation;
use crate::collections::CompiledSelector;
use crate::collections::CompiledTarget;
use crate::macros::template_of;
use crate::macros::PartView;
use crate::macros::Template;
use crate::matcher::compiled_of;
use crate::matcher::load_data;
use crate::matcher::loaded_view;
use crate::matcher::loads_as;
use crate::matcher::CompiledOperator;
use crate::matcher::CompiledOperatorView;
use crate::matcher::DataLoader;
use crate::matcher::Loads;
use crate::matcher::OperatorCompileError;
use crate::matcher::OperatorCompileErrorView;
use crate::operator::OperatorView;
use crate::pattern::new_regex;
use crate::pattern::regex_error;
use crate::rule::first_id;
use crate::rule::Collection;
use crate::rule::Directive;
use crate::rule::DirectiveView;
use crate::rule::Rule;
use crate::rule::RuleView;
use crate::rule::Selector;
use crate::rule::SelectorView;
use crate::rule::Severity;
use crate::rule::Target;
use crate::rule::TargetView;
use crate::text::debug_text;
use crate::text::debug_quoted;
use crate::text::decimal;
use crate::text::joined;
use crate::text::same_str;
use crate::text::write_decimal;
use crate::xml::is_supported_xpath;
use crate::xml::xpath_is_supported;
use crate::xml::SUPPORTED_XPATH;
use crate::Phase;
use vstd::prelude::*;

verus! {

// ---------------------------------------------------------------------------
// Compiled rules

/// What a matching rule does to the transaction.
#[derive(Debug, Clone, Copy, PartialEq, Eq, Structural)]
pub enum Disruptive {
    /// `deny`
    Deny,
    /// `drop`
    Drop,
    /// `block`, which defers to the configured default action.
    Block,
    /// `redirect`
    Redirect,
    /// `pass`, which is explicitly not disruptive.
    Pass,
}

/// A `setvar:` with its operand pre-parsed.
#[derive(Debug, Clone)]
pub struct SetVarSpec {
    /// Variable name, itself a template because the Core Rule Set writes
    /// `setvar:'tx.rfi_parameter_%{MATCHED_VAR_NAME}=1'`.
    pub name: Template,
    /// How the value combines with the existing one.
    pub op: SetVarOp,
    /// The value template. Absent means 1, as SecLang defines.
    pub value: Option<Template>,
}

/// The view of a [`SetVarSpec`].
#[verifier::ext_equal]
pub struct SetVarSpecView {
    pub name: Seq<PartView>,
    pub op: SetVarOp,
    pub value: Option<Seq<PartView>>,
}

impl DeepView for SetVarSpec {
    type V = SetVarSpecView;

    open spec fn deep_view(&self) -> SetVarSpecView {
        SetVarSpecView { name: self.name@, op: self.op, value: self.value.deep_view() }
    }
}

/// One link in a chain after the starter.
#[derive(Debug)]
pub struct ChainLink {
    /// Variables this link inspects.
    pub targets: Vec<CompiledTarget>,
    /// The link's test.
    pub operator: Option<CompiledOperator>,
    /// Whether the link's result is inverted.
    pub negated: bool,
    /// Transformations applied before the operator, in order.
    pub transformations: Vec<Transformation>,
    /// Whether the link exposes regex captures.
    pub capture: bool,
    /// `setvar:` actions that run when this link matches.
    pub setvars: Vec<SetVarSpec>,
}

/// The view of a [`ChainLink`].
#[verifier::ext_equal]
pub struct ChainLinkView {
    pub targets: Seq<TargetView>,
    pub operator: Option<CompiledOperatorView>,
    pub negated: bool,
    pub transformations: Seq<Transformation>,
    pub capture: bool,
    pub setvars: Seq<SetVarSpecView>,
}

impl DeepView for ChainLink {
    type V = ChainLinkView;

    open spec fn deep_view(&self) -> ChainLinkView {
        ChainLinkView {
            targets: self.targets.deep_view(),
            operator: self.operator.deep_view(),
            negated: self.negated,
            transformations: self.transformations@,
            capture: self.capture,
            setvars: self.setvars.deep_view(),
        }
    }
}

/// A rule ready to evaluate.
#[derive(Debug)]
pub struct CompiledRule {
    /// The rule's `id:`, absent on chained rules and some `SecAction`s.
    pub id: Option<u32>,
    /// Which phase the rule runs in.
    pub phase: Phase,
    /// Variables the rule inspects. Empty for `SecAction`.
    pub targets: Vec<CompiledTarget>,
    /// The rule's test. `None` means always match, as `SecAction` does.
    pub operator: Option<CompiledOperator>,
    /// Whether the operator result is inverted.
    pub negated: bool,
    /// Transformations applied before the operator, in order.
    pub transformations: Vec<Transformation>,
    /// Whether to expose regex captures as `TX:0` through `TX:9`.
    pub capture: bool,
    /// Whether to re-evaluate after each transformation.
    pub multi_match: bool,
    /// The disruptive action, if any.
    pub disruptive: Option<Disruptive>,
    /// The status a disruptive action should use.
    pub status: Option<u16>,
    /// `setvar:` actions.
    pub setvars: Vec<SetVarSpec>,
    /// `skipAfter:` jump target.
    pub skip_after: Option<String>,
    /// `msg:`
    pub msg: Option<Template>,
    /// `logdata:`
    pub logdata: Option<Template>,
    /// `tag:` values.
    pub tags: Vec<String>,
    /// `severity:`
    pub severity: Option<Severity>,
    /// `ctl:` actions.
    pub ctl: Vec<Ctl>,
    /// Whether logging was explicitly suppressed with `nolog`.
    pub nolog: bool,
    /// Remaining links of the chain, all of which must match.
    pub chain: Vec<ChainLink>,
    /// Source line, for diagnostics.
    pub line: usize,
}

/// The view of a [`CompiledRule`].
#[verifier::ext_equal]
pub struct CompiledRuleView {
    pub id: Option<u32>,
    pub phase: Phase,
    pub targets: Seq<TargetView>,
    pub operator: Option<CompiledOperatorView>,
    pub negated: bool,
    pub transformations: Seq<Transformation>,
    pub capture: bool,
    pub multi_match: bool,
    pub disruptive: Option<Disruptive>,
    pub status: Option<u16>,
    pub setvars: Seq<SetVarSpecView>,
    pub skip_after: Option<Seq<char>>,
    pub msg: Option<Seq<PartView>>,
    pub logdata: Option<Seq<PartView>>,
    pub tags: Seq<Seq<char>>,
    pub severity: Option<Severity>,
    pub ctl: Seq<CtlView>,
    pub nolog: bool,
    pub chain: Seq<ChainLinkView>,
    pub line: usize,
}

impl DeepView for CompiledRule {
    type V = CompiledRuleView;

    open spec fn deep_view(&self) -> CompiledRuleView {
        CompiledRuleView {
            id: self.id,
            phase: self.phase,
            targets: self.targets.deep_view(),
            operator: self.operator.deep_view(),
            negated: self.negated,
            transformations: self.transformations@,
            capture: self.capture,
            multi_match: self.multi_match,
            disruptive: self.disruptive,
            status: self.status,
            setvars: self.setvars.deep_view(),
            skip_after: self.skip_after.deep_view(),
            msg: self.msg.deep_view(),
            logdata: self.logdata.deep_view(),
            tags: self.tags.deep_view(),
            severity: self.severity,
            ctl: self.ctl.deep_view(),
            nolog: self.nolog,
            chain: self.chain.deep_view(),
            line: self.line,
        }
    }
}

// ---------------------------------------------------------------------------
// Rule sets

/// An entry in the rule set: a rule, or a `skipAfter` destination.
#[derive(Debug)]
enum Entry {
    Rule(Box<CompiledRule>),
    Marker,
}

/// The view of an entry of a [`RuleSet`].
#[verifier::ext_equal]
pub enum EntryView {
    Rule(CompiledRuleView),
    Marker,
}

impl Entry {
    spec fn shown(&self) -> EntryView {
        match self {
            Entry::Rule(r) => EntryView::Rule(r.deep_view()),
            Entry::Marker => EntryView::Marker,
        }
    }
}

/// A compiled rule set, ready to run transactions against.
#[derive(Debug)]
pub struct RuleSet {
    entries: Vec<Entry>,
    /// The position of each marker, by its name; no name stands here twice.
    markers: Vec<(String, usize)>,
}

/// Marker names with their positions, each name once.
pub type Markers = Seq<(Seq<char>, nat)>;

/// The view of a [`RuleSet`].
#[verifier::ext_equal]
pub struct RuleSetView {
    pub entries: Seq<EntryView>,
    pub markers: Markers,
}

impl View for RuleSet {
    type V = RuleSetView;

    closed spec fn view(&self) -> RuleSetView {
        RuleSetView {
            entries: Seq::new(self.entries@.len(), |i: int| self.entries@[i].shown()),
            markers: Seq::new(
                self.markers@.len(),
                |i: int| (self.markers@[i].0@, self.markers@[i].1 as nat),
            ),
        }
    }
}

/// A rule set without rules.
pub open spec fn no_rules() -> RuleSetView {
    RuleSetView { entries: seq![], markers: seq![] }
}

impl Default for RuleSet {
    fn default() -> (r: Self)
        ensures
            r@ == no_rules(),
    {
        let r = RuleSet { entries: Vec::new(), markers: Vec::new() };
        assert(r@ =~= no_rules());
        r
    }
}

/// Where a marker stands.
pub open spec fn marker_of(markers: Markers, name: Seq<char>) -> Option<nat>
    decreases markers.len(),
{
    if markers.len() == 0 {
        None
    } else if markers[0].0 == name {
        Some(markers[0].1)
    } else {
        marker_of(markers.drop_first(), name)
    }
}

/// The markers after one more; a later marker of the same name takes its place.
pub open spec fn marked(markers: Markers, name: Seq<char>, position: nat) -> Markers
    decreases markers.len(),
{
    if markers.len() == 0 {
        seq![(name, position)]
    } else if markers[0].0 == name {
        seq![(name, position)] + markers.drop_first()
    } else {
        seq![markers[0]] + marked(markers.drop_first(), name, position)
    }
}

impl RuleSetView {
    /// The rule at a position, where there is one.
    pub open spec fn rule_at(self, index: int) -> Option<CompiledRuleView> {
        if 0 <= index < self.entries.len() {
            match self.entries[index] {
                EntryView::Rule(r) => Some(r),
                EntryView::Marker => None,
            }
        } else {
            None
        }
    }

    /// Whether every `skipAfter` names a marker that stands ahead of it.
    pub open spec fn jumps_resolved(self) -> bool {
        forall|i: int|
            0 <= i < self.entries.len() ==> jump_error(
                #[trigger] self.entries[i],
                i,
                self.markers,
            ) is None
    }

    /// Whether every `skipAfter` whose marker exists leads ahead, to an entry.
    pub open spec fn jumps_forward(self) -> bool {
        forall|i: int|
            0 <= i < self.entries.len() ==> jumps_ahead(#[trigger] self.entries[i], i, self)
    }
}

/// Whether the jump of an entry, if it has one to make, leads ahead.
pub open spec fn jumps_ahead(entry: EntryView, index: int, set: RuleSetView) -> bool {
    match entry {
        EntryView::Rule(r) => match r.skip_after {
            Some(name) => match marker_of(set.markers, name) {
                Some(position) => index < position < set.entries.len(),
                None => true,
            },
            None => true,
        },
        EntryView::Marker => true,
    }
}

/// How many of some entries are rules.
pub open spec fn count_rules(entries: Seq<EntryView>) -> nat
    decreases entries.len(),
{
    if entries.len() == 0 {
        0
    } else if entries.last() is Rule {
        count_rules(entries.drop_last()) + 1
    } else {
        count_rules(entries.drop_last())
    }
}

/// How many of some entries are rules of a phase.
pub open spec fn count_in_phase(entries: Seq<EntryView>, phase: Phase) -> nat
    decreases entries.len(),
{
    if entries.len() == 0 {
        0
    } else {
        let before = count_in_phase(entries.drop_last(), phase);
        match entries.last() {
            EntryView::Rule(r) => if r.phase == phase {
                before + 1
            } else {
                before
            },
            EntryView::Marker => before,
        }
    }
}

// ---------------------------------------------------------------------------
// Errors

/// Why a rule set could not be compiled.
#[derive(Debug)]
pub enum CompileError {
    /// An operator could not be compiled.
    Operator {
        /// The rule id, or 0 when it has none.
        id: u32,
        /// Source line.
        line: usize,
        /// The underlying operator error.
        source: OperatorCompileError,
    },
    /// A rule declared `chain` but nothing followed it.
    DanglingChain {
        /// The rule id, or 0 when it has none.
        id: u32,
        /// Source line.
        line: usize,
    },
    /// An XPath expression Parapet cannot evaluate.
    ///
    /// Refused rather than resolved to nothing: a target that inspects nothing
    /// is a rule that cannot fire, and it would do so silently.
    UnsupportedXPath {
        /// The rule id, or 0 when it has none.
        id: u32,
        /// Source line.
        line: usize,
        /// The expression as written.
        expression: String,
        /// The expressions that are implemented.
        supported: [&'static str; 2],
    },
    /// A `skipAfter:` names a marker that does not exist.
    UnknownMarker {
        /// The rule id, or 0 when it has none.
        id: u32,
        /// Source line.
        line: usize,
        /// The marker name.
        marker: String,
    },
    /// A `skipAfter:` names a marker at or before the rule itself.
    ///
    /// Evaluation resumes just after the marker, so a marker that is not ahead
    /// of the rule sends evaluation backward. A rule that skips backward and
    /// still matches re-runs forever, hanging the request. Refused rather than
    /// allowed: a jump that loops is not a jump.
    BackwardSkip {
        /// The rule id, or 0 when it has none.
        id: u32,
        /// Source line.
        line: usize,
        /// The marker name.
        marker: String,
    },
    /// A regex member-selector the engine cannot compile.
    ///
    /// Refused rather than resolved to nothing: an uncompilable selector
    /// silently selects no members, which turns the rule into a bypass with no
    /// signal, exactly as an unsupported XPath would.
    InvalidSelector {
        /// The rule id, or 0 when it has none.
        id: u32,
        /// Source line.
        line: usize,
        /// The selector pattern as written.
        selector: String,
        /// The regex parse error.
        error: String,
    },
}

/// The view of a [`CompileError`].
#[verifier::ext_equal]
pub enum CompileErrorView {
    Operator { id: u32, line: usize, source: OperatorCompileErrorView },
    DanglingChain { id: u32, line: usize },
    UnsupportedXPath { id: u32, line: usize, expression: Seq<char>, supported: Seq<Seq<char>> },
    UnknownMarker { id: u32, line: usize, marker: Seq<char> },
    BackwardSkip { id: u32, line: usize, marker: Seq<char> },
    InvalidSelector { id: u32, line: usize, selector: Seq<char>, error: Seq<char> },
}

impl DeepView for CompileError {
    type V = CompileErrorView;

    open spec fn deep_view(&self) -> CompileErrorView {
        match self {
            CompileError::Operator { id, line, source } => CompileErrorView::Operator {
                id: *id,
                line: *line,
                source: source.deep_view(),
            },
            CompileError::DanglingChain { id, line } => CompileErrorView::DanglingChain {
                id: *id,
                line: *line,
            },
            CompileError::UnsupportedXPath { id, line, expression, supported } =>
                CompileErrorView::UnsupportedXPath {
                id: *id,
                line: *line,
                expression: expression@,
                supported: seq![supported@[0]@, supported@[1]@],
            },
            CompileError::UnknownMarker { id, line, marker } => CompileErrorView::UnknownMarker {
                id: *id,
                line: *line,
                marker: marker@,
            },
            CompileError::BackwardSkip { id, line, marker } => CompileErrorView::BackwardSkip {
                id: *id,
                line: *line,
                marker: marker@,
            },
            CompileError::InvalidSelector { id, line, selector, error } =>
                CompileErrorView::InvalidSelector {
                id: *id,
                line: *line,
                selector: selector@,
                error: error@,
            },
        }
    }
}

/// The front of an error message, which says where the rule is.
pub open spec fn rule_place(id: u32, line: usize) -> Seq<char> {
    "rule "@ + decimal(id as nat) + " (line "@ + decimal(line as nat) + ")"@
}

impl CompileErrorView {
    /// The message that reports the error.
    pub open spec fn text(self) -> Seq<char> {
        match self {
            CompileErrorView::Operator { id, line, source } => rule_place(id, line) + ": "@
                + source.text(),
            CompileErrorView::DanglingChain { id, line } => rule_place(id, line)
                + " ends with `chain` but no rule follows it"@,
            CompileErrorView::UnsupportedXPath { id, line, expression, supported } => rule_place(
                id,
                line,
            ) + " selects XML with "@ + debug_text(expression) + "; only ["@ + debug_text(
                supported[0],
            ) + ", "@ + debug_text(supported[1]) + "] are implemented"@,
            CompileErrorView::UnknownMarker { id, line, marker } => rule_place(id, line)
                + " skips to "@ + debug_text(marker) + ", which no SecMarker defines"@,
            CompileErrorView::BackwardSkip { id, line, marker } => rule_place(id, line)
                + " skips to "@ + debug_text(marker)
                + ", which is not ahead of it; skipAfter must jump forward"@,
            CompileErrorView::InvalidSelector { id, line, selector, error } => rule_place(id, line)
                + " selects members with /"@ + selector + "/, which is not a valid regex: "@
                + error,
        }
    }
}

fn write_rule_place(id: u32, line: usize) -> (r: String)
    ensures
        r@ == rule_place(id, line),
{
    let mut out = joined("rule ", write_decimal(id as u64).as_str());
    out.append(" (line ");
    out.append(write_decimal(line as u64).as_str());
    out.append(")");
    out
}

impl CompileError {
    /// The message that reports the error.
    pub fn to_string(&self) -> (r: String)
        ensures
            r@ == self.deep_view().text(),
    {
        match self {
            CompileError::Operator { id, line, source } => {
                let mut out = write_rule_place(*id, *line);
                out.append(": ");
                out.append(source.to_string().as_str());
                out
            },
            CompileError::DanglingChain { id, line } => {
                let mut out = write_rule_place(*id, *line);
                out.append(" ends with `chain` but no rule follows it");
                out
            },
            CompileError::UnsupportedXPath { id, line, expression, supported } => {
                let mut out = write_rule_place(*id, *line);
                out.append(" selects XML with ");
                out.append(debug_quoted(expression.as_str()).as_str());
                out.append("; only [");
                out.append(debug_quoted(supported[0]).as_str());
                out.append(", ");
                out.append(debug_quoted(supported[1]).as_str());
                out.append("] are implemented");
                out
            },
            CompileError::UnknownMarker { id, line, marker } => {
                let mut out = write_rule_place(*id, *line);
                out.append(" skips to ");
                out.append(debug_quoted(marker.as_str()).as_str());
                out.append(", which no SecMarker defines");
                out
            },
            CompileError::BackwardSkip { id, line, marker } => {
                let mut out = write_rule_place(*id, *line);
                out.append(" skips to ");
                out.append(debug_quoted(marker.as_str()).as_str());
                out.append(", which is not ahead of it; skipAfter must jump forward");
                out
            },
            CompileError::InvalidSelector { id, line, selector, error } => {
                let mut out = write_rule_place(*id, *line);
                out.append(" selects members with /");
                out.append(selector.as_str());
                out.append("/, which is not a valid regex: ");
                out.append(error.as_str());
                out
            },
        }
    }
}

// ---------------------------------------------------------------------------
// Targets and operators

/// What loading a data file came to.
pub type Loaded = Result<Seq<u8>, Seq<char>>;

/// What is wrong with the selector of a target, where it cannot be evaluated.
pub open spec fn target_error(target: TargetView, id: u32, line: usize) -> Option<
    CompileErrorView,
> {
    match target.selector {
        Some(SelectorView::XPath(expression)) => if target.collection == Collection::Xml
            && !is_supported_xpath(expression) {
            Some(
                CompileErrorView::UnsupportedXPath {
                    id,
                    line,
                    expression,
                    supported: seq!["/*"@, "//@*"@],
                },
            )
        } else {
            None
        },
        Some(SelectorView::Regex(pattern)) => match regex_error(pattern) {
            Some(error) => Some(
                CompileErrorView::InvalidSelector { id, line, selector: pattern, error },
            ),
            None => None,
        },
        _ => None,
    }
}

/// What is wrong with the first target of a list that cannot be evaluated.
pub open spec fn targets_error(targets: Seq<TargetView>, id: u32, line: usize) -> Option<
    CompileErrorView,
>
    decreases targets.len(),
{
    if targets.len() == 0 {
        None
    } else {
        match target_error(targets[0], id, line) {
            Some(e) => Some(e),
            None => targets_error(targets.drop_first(), id, line),
        }
    }
}

/// An id, or 0 where there is none.
pub open spec fn id_or_zero(id: Option<u32>) -> u32 {
    match id {
        Some(n) => n,
        None => 0,
    }
}

/// What the operator of a rule compiles to; a rule without one always matches.
pub open spec fn rule_operator(rule: RuleView, loaded: Loaded) -> Result<
    Option<CompiledOperatorView>,
    CompileErrorView,
> {
    match rule.operator {
        None => Ok(None),
        Some(op) => match compiled_of(op, loaded) {
            Ok(compiled) => Ok(Some(compiled)),
            Err(source) => Err(
                CompileErrorView::Operator {
                    id: id_or_zero(first_id(rule.actions)),
                    line: rule.line,
                    source,
                },
            ),
        },
    }
}

fn compile_selector(target: &Target, id: u32, line: usize) -> (r: Result<
    Option<CompiledSelector>,
    CompileError,
>)
    ensures
        (match r {
            Ok(s) => target_error(target.deep_view(), id, line) is None && s.deep_view()
                == target.deep_view().selector,
            Err(e) => target_error(target.deep_view(), id, line) == Some(e.deep_view()),
        }),
{
    match &target.selector {
        None => Ok(None),
        Some(Selector::Name(name)) => Ok(Some(CompiledSelector::Name(name.clone()))),
        Some(Selector::XPath(expression)) => {
            if target.collection == Collection::Xml && !xpath_is_supported(expression.as_str()) {
                return Err(
                    CompileError::UnsupportedXPath {
                        id,
                        line,
                        expression: expression.clone(),
                        supported: SUPPORTED_XPATH,
                    },
                );
            }
            Ok(Some(CompiledSelector::XPath(expression.clone())))
        },
        Some(Selector::Regex(pattern)) => match new_regex(pattern.as_str()) {
            Ok(re) => Ok(Some(CompiledSelector::Regex(re))),
            Err(error) => Err(
                CompileError::InvalidSelector { id, line, selector: pattern.clone(), error },
            ),
        },
    }
}

/// Compile a target list into its evaluable form.
///
/// A regex selector is compiled once here rather than on every resolution, and
/// a selector that cannot be evaluated is refused rather than left to select
/// nothing at request time: a rule that inspects nothing cannot fire, and it
/// would do so silently. An unsupported XPath and an uncompilable regex
/// selector both surface here, at compile time.
fn compile_targets(targets: &Vec<Target>, id: u32, line: usize) -> (r: Result<
    Vec<CompiledTarget>,
    CompileError,
>)
    ensures
        (match r {
            Ok(v) => targets_error(targets.deep_view(), id, line) is None && v.deep_view()
                == targets.deep_view(),
            Err(e) => targets_error(targets.deep_view(), id, line) == Some(e.deep_view()),
        }),
{
    let ghost all = targets.deep_view();
    let mut out: Vec<CompiledTarget> = Vec::new();
    let mut i: usize = 0;
    assert(all.skip(0) =~= all);
    assert(out.deep_view() =~= all.take(0));
    while i < targets.len()
        invariant
            i <= targets@.len(),
            all == targets.deep_view(),
            out.deep_view() == all.take(i as int),
            targets_error(all, id, line) == targets_error(all.skip(i as int), id, line),
        decreases targets@.len() - i,
    {
        let ghost done = out.deep_view();
        assert(all.skip(i as int)[0] == targets@[i as int].deep_view());
        assert(all.skip(i as int).drop_first() =~= all.skip(i + 1));
        let target = &targets[i];
        let selector = compile_selector(target, id, line)?;
        let compiled = CompiledTarget {
            collection: target.collection,
            selector,
            exclusion: target.exclusion,
            count: target.count,
        };
        assert(compiled.deep_view() == targets@[i as int].deep_view());
        out.push(compiled);
        assert(out.deep_view() =~= done.push(all[i as int]));
        assert(out.deep_view() =~= all.take(i + 1));
        i += 1;
    }
    assert(all.take(i as int) =~= all);
    Ok(out)
}

fn compile_operator(rule: &Rule, loaded: &Result<Vec<u8>, String>) -> (r: Result<
    Option<CompiledOperator>,
    CompileError,
>)
    ensures
        (match r {
            Ok(op) => rule_operator(rule.deep_view(), loaded_view(*loaded)) == Ok::<
                Option<CompiledOperatorView>,
                CompileErrorView,
            >(op.deep_view()),
            Err(e) => rule_operator(rule.deep_view(), loaded_view(*loaded)) == Err::<
                Option<CompiledOperatorView>,
                CompileErrorView,
            >(e.deep_view()),
        }),
{
    match &rule.operator {
        None => Ok(None),
        Some(op) => match CompiledOperator::compile_loaded(op, loaded) {
            Ok(compiled) => Ok(Some(compiled)),
            Err(source) => Err(
                CompileError::Operator { id: or_zero(rule.id()), line: rule.line, source },
            ),
        },
    }
}

fn or_zero(id: Option<u32>) -> (r: u32)
    ensures
        r == id_or_zero(id),
{
    match id {
        Some(n) => n,
        None => 0,
    }
}

// ---------------------------------------------------------------------------
// Rules

/// A `setvar:` with its operand pre-parsed.
pub open spec fn setvar_spec_of(sv: SetVarView) -> SetVarSpecView {
    SetVarSpecView {
        name: template_of(sv.name),
        op: sv.op,
        value: match sv.value {
            Some(s) => Some(template_of(s)),
            None => None,
        },
    }
}

fn setvar_spec(sv: &SetVar) -> (r: SetVarSpec)
    ensures
        r.deep_view() == setvar_spec_of(sv.deep_view()),
{
    SetVarSpec {
        name: Template::parse(sv.name.as_str()),
        op: sv.op,
        value: match &sv.value {
            Some(s) => Some(Template::parse(s.as_str())),
            None => None,
        },
    }
}

/// A rule after one of its actions.
pub open spec fn with_action(rule: CompiledRuleView, action: ActionView) -> CompiledRuleView {
    match action {
        ActionView::Phase(p) => CompiledRuleView { phase: p, ..rule },
        ActionView::Msg(m) => CompiledRuleView { msg: Some(template_of(m)), ..rule },
        ActionView::LogData(d) => CompiledRuleView { logdata: Some(template_of(d)), ..rule },
        ActionView::Tag(t) => CompiledRuleView { tags: rule.tags.push(t), ..rule },
        ActionView::Severity(s) => CompiledRuleView { severity: Some(s), ..rule },
        ActionView::Block => CompiledRuleView { disruptive: Some(Disruptive::Block), ..rule },
        ActionView::Deny => CompiledRuleView { disruptive: Some(Disruptive::Deny), ..rule },
        ActionView::Drop => CompiledRuleView { disruptive: Some(Disruptive::Drop), ..rule },
        ActionView::Pass => CompiledRuleView { disruptive: Some(Disruptive::Pass), ..rule },
        ActionView::Redirect(_) => CompiledRuleView {
            disruptive: Some(Disruptive::Redirect),
            ..rule
        },
        ActionView::Status(s) => CompiledRuleView { status: Some(s), ..rule },
        ActionView::SkipAfter(m) => CompiledRuleView { skip_after: Some(m), ..rule },
        ActionView::Transform(t) => CompiledRuleView {
            transformations: rule.transformations.push(t),
            ..rule
        },
        ActionView::Capture => CompiledRuleView { capture: true, ..rule },
        ActionView::SetVar(sv) => CompiledRuleView {
            setvars: rule.setvars.push(setvar_spec_of(sv)),
            ..rule
        },
        ActionView::MultiMatch => CompiledRuleView { multi_match: true, ..rule },
        ActionView::NoLog => CompiledRuleView { nolog: true, ..rule },
        ActionView::Ctl(c) => CompiledRuleView { ctl: rule.ctl.push(c), ..rule },
        ActionView::Id(_)
        | ActionView::Rev(_)
        | ActionView::Ver(_)
        | ActionView::Accuracy(_)
        | ActionView::Maturity(_)
        | ActionView::Chain
        | ActionView::InitCol { .. }
        | ActionView::Log
        | ActionView::AuditLog
        | ActionView::NoAuditLog => rule,
    }
}

/// A rule after its actions, in order.
pub open spec fn with_actions(rule: CompiledRuleView, actions: Seq<ActionView>) -> CompiledRuleView
    decreases actions.len(),
{
    if actions.len() == 0 {
        rule
    } else {
        with_action(with_actions(rule, actions.drop_last()), actions.last())
    }
}

/// A rule before its actions. SecLang defaults a rule with no explicit phase to
/// phase 2.
pub open spec fn bare_rule(
    rule: RuleView,
    operator: Option<CompiledOperatorView>,
) -> CompiledRuleView {
    CompiledRuleView {
        id: first_id(rule.actions),
        phase: Phase::RequestBody,
        targets: rule.targets,
        operator,
        negated: rule.negated,
        transformations: seq![],
        capture: false,
        multi_match: false,
        disruptive: None,
        status: None,
        setvars: seq![],
        skip_after: None,
        msg: None,
        logdata: None,
        tags: seq![],
        severity: None,
        ctl: seq![],
        nolog: false,
        chain: seq![],
        line: rule.line,
    }
}

/// A chain link after one of its actions. A chained rule carries no metadata or
/// disruptive action of its own; those belong to the starter.
pub open spec fn link_with_action(link: ChainLinkView, action: ActionView) -> ChainLinkView {
    match action {
        ActionView::Transform(t) => ChainLinkView {
            transformations: link.transformations.push(t),
            ..link
        },
        ActionView::Capture => ChainLinkView { capture: true, ..link },
        ActionView::SetVar(sv) => ChainLinkView {
            setvars: link.setvars.push(setvar_spec_of(sv)),
            ..link
        },
        _ => link,
    }
}

/// A chain link after its actions, in order.
pub open spec fn link_with_actions(link: ChainLinkView, actions: Seq<ActionView>) -> ChainLinkView
    decreases actions.len(),
{
    if actions.len() == 0 {
        link
    } else {
        link_with_action(link_with_actions(link, actions.drop_last()), actions.last())
    }
}

/// A chain link before its actions.
pub open spec fn bare_link(
    rule: RuleView,
    operator: Option<CompiledOperatorView>,
) -> ChainLinkView {
    ChainLinkView {
        targets: rule.targets,
        operator,
        negated: rule.negated,
        transformations: seq![],
        capture: false,
        setvars: seq![],
    }
}

/// What a chained rule compiles to; `owner` is the id to report where it has
/// none of its own.
pub open spec fn link_of(rule: RuleView, loaded: Loaded, owner: u32) -> Result<
    ChainLinkView,
    CompileErrorView,
> {
    let id = match first_id(rule.actions) {
        Some(n) => n,
        None => owner,
    };
    match targets_error(rule.targets, id, rule.line) {
        Some(e) => Err(e),
        None => match rule_operator(rule, loaded) {
            Err(e) => Err(e),
            Ok(operator) => Ok(link_with_actions(bare_link(rule, operator), rule.actions)),
        },
    }
}

/// `first` in front of the links that follow, if they compile.
pub open spec fn links_then(
    first: Seq<ChainLinkView>,
    rest: Result<Seq<ChainLinkView>, CompileErrorView>,
) -> Result<Seq<ChainLinkView>, CompileErrorView> {
    match rest {
        Ok(more) => Ok(first + more),
        Err(e) => Err(e),
    }
}

/// What the chained rules of a starter compile to.
pub open spec fn links_of(links: Seq<(RuleView, Loaded)>, owner: u32) -> Result<
    Seq<ChainLinkView>,
    CompileErrorView,
>
    decreases links.len(),
{
    if links.len() == 0 {
        Ok(seq![])
    } else {
        match link_of(links[0].0, links[0].1, owner) {
            Err(e) => Err(e),
            Ok(link) => links_then(seq![link], links_of(links.drop_first(), owner)),
        }
    }
}

/// What a starter and its chained rules compile to.
pub open spec fn rule_of(group: Seq<(RuleView, Loaded)>) -> Result<
    CompiledRuleView,
    CompileErrorView,
> {
    let (starter, loaded) = group[0];
    let id = first_id(starter.actions);
    match targets_error(starter.targets, id_or_zero(id), starter.line) {
        Some(e) => Err(e),
        None => match rule_operator(starter, loaded) {
            Err(e) => Err(e),
            Ok(operator) => match links_of(group.drop_first(), id_or_zero(id)) {
                Err(e) => Err(e),
                Ok(chain) => Ok(
                    CompiledRuleView {
                        chain,
                        ..with_actions(bare_rule(starter, operator), starter.actions)
                    },
                ),
            },
        },
    }
}

fn apply_action(rule: &mut CompiledRule, action: &Action)
    ensures
        final(rule).deep_view() == with_action(old(rule).deep_view(), action.deep_view()),
{
    let ghost start = rule.deep_view();
    match action {
        Action::Phase(p) => rule.phase = *p,
        Action::Msg(m) => rule.msg = Some(Template::parse(m.as_str())),
        Action::LogData(d) => rule.logdata = Some(Template::parse(d.as_str())),
        Action::Tag(t) => {
            rule.tags.push(t.clone());
            assert(rule.tags.deep_view() =~= start.tags.push(t@));
        },
        Action::Severity(s) => rule.severity = Some(*s),
        Action::Block => rule.disruptive = Some(Disruptive::Block),
        Action::Deny => rule.disruptive = Some(Disruptive::Deny),
        Action::Drop => rule.disruptive = Some(Disruptive::Drop),
        Action::Pass => rule.disruptive = Some(Disruptive::Pass),
        Action::Redirect(_) => rule.disruptive = Some(Disruptive::Redirect),
        Action::Status(s) => rule.status = Some(*s),
        Action::SkipAfter(m) => rule.skip_after = Some(m.clone()),
        Action::Transform(t) => rule.transformations.push(*t),
        Action::Capture => rule.capture = true,
        Action::SetVar(sv) => {
            rule.setvars.push(setvar_spec(sv));
            assert(rule.setvars.deep_view() =~= start.setvars.push(
                setvar_spec_of(sv.deep_view()),
            ));
        },
        Action::MultiMatch => rule.multi_match = true,
        Action::NoLog => rule.nolog = true,
        Action::Ctl(c) => {
            rule.ctl.push(c.clone());
            assert(rule.ctl.deep_view() =~= start.ctl.push(c.deep_view()));
        },
        Action::Id(_)
        | Action::Rev(_)
        | Action::Ver(_)
        | Action::Accuracy(_)
        | Action::Maturity(_)
        | Action::Chain
        | Action::InitCol { .. }
        | Action::Log
        | Action::AuditLog
        | Action::NoAuditLog => {},
    }
    assert(rule.deep_view() =~= with_action(start, action.deep_view()));
}

fn compile_link(rule: &Rule, loaded: &Result<Vec<u8>, String>, owner: u32) -> (r: Result<
    ChainLink,
    CompileError,
>)
    ensures
        (match r {
            Ok(link) => link_of(rule.deep_view(), loaded_view(*loaded), owner) == Ok::<
                ChainLinkView,
                CompileErrorView,
            >(link.deep_view()),
            Err(e) => link_of(rule.deep_view(), loaded_view(*loaded), owner) == Err::<
                ChainLinkView,
                CompileErrorView,
            >(e.deep_view()),
        }),
{
    let id = match rule.id() {
        Some(n) => n,
        None => owner,
    };
    let targets = compile_targets(&rule.targets, id, rule.line)?;
    let operator = compile_operator(rule, loaded)?;
    let mut link = ChainLink {
        targets,
        operator,
        negated: rule.negated,
        transformations: Vec::new(),
        capture: false,
        setvars: Vec::new(),
    };
    let ghost bare = bare_link(rule.deep_view(), operator.deep_view());
    assert(link.setvars.deep_view() =~= seq![]);
    assert(link.transformations@ =~= seq![]);
    assert(link.deep_view() =~= bare);
    let ghost all = rule.actions.deep_view();
    let mut i: usize = 0;
    assert(all.take(0) =~= seq![]);
    while i < rule.actions.len()
        invariant
            i <= rule.actions@.len(),
            all == rule.actions.deep_view(),
            link.deep_view() == link_with_actions(bare, all.take(i as int)),
        decreases rule.actions@.len() - i,
    {
        let ghost start = link.deep_view();
        assert(all.take(i + 1).drop_last() =~= all.take(i as int));
        assert(all.take(i + 1).last() == rule.actions@[i as int].deep_view());
        match &rule.actions[i] {
            Action::Transform(t) => link.transformations.push(*t),
            Action::Capture => link.capture = true,
            Action::SetVar(sv) => {
                link.setvars.push(setvar_spec(sv));
                assert(link.setvars.deep_view() =~= start.setvars.push(
                    setvar_spec_of(sv.deep_view()),
                ));
            },
            _ => {},
        }
        assert(link.deep_view() =~= link_with_action(start, rule.actions@[i as int].deep_view()));
        i += 1;
    }
    assert(all.take(i as int) =~= all);
    Ok(link)
}

/// What a list of rules with their loaded data shows.
pub open spec fn group_view(rules: Seq<(&Rule, &Result<Vec<u8>, String>)>) -> Seq<
    (RuleView, Loaded),
> {
    Seq::new(rules.len(), |i: int| (rules[i].0.deep_view(), loaded_view(*rules[i].1)))
}

fn compile_rule(group: &Vec<(&Rule, &Result<Vec<u8>, String>)>) -> (r: Result<
    CompiledRule,
    CompileError,
>)
    requires
        group@.len() > 0,
    ensures
        (match r {
            Ok(rule) => rule_of(group_view(group@)) == Ok::<CompiledRuleView, CompileErrorView>(
                rule.deep_view(),
            ),
            Err(e) => rule_of(group_view(group@)) == Err::<CompiledRuleView, CompileErrorView>(
                e.deep_view(),
            ),
        }),
{
    let ghost all = group_view(group@);
    let (starter, loaded) = group[0];
    assert(all[0] == (starter.deep_view(), loaded_view(*loaded)));
    let id = starter.id();
    let owner = or_zero(id);
    let targets = compile_targets(&starter.targets, owner, starter.line)?;
    let operator = compile_operator(starter, loaded)?;
    let mut compiled = CompiledRule {
        id,
        phase: Phase::RequestBody,
        targets,
        operator,
        negated: starter.negated,
        transformations: Vec::new(),
        capture: false,
        multi_match: false,
        disruptive: None,
        status: None,
        setvars: Vec::new(),
        skip_after: None,
        msg: None,
        logdata: None,
        tags: Vec::new(),
        severity: None,
        ctl: Vec::new(),
        nolog: false,
        chain: Vec::new(),
        line: starter.line,
    };
    let ghost bare = bare_rule(starter.deep_view(), operator.deep_view());
    assert(compiled.deep_view() =~= bare) by {
        assert(compiled.setvars.deep_view() =~= seq![]);
        assert(compiled.tags.deep_view() =~= seq![]);
        assert(compiled.ctl.deep_view() =~= seq![]);
        assert(compiled.chain.deep_view() =~= seq![]);
    }
    let ghost actions = starter.actions.deep_view();
    let mut i: usize = 0;
    assert(actions.take(0) =~= seq![]);
    while i < starter.actions.len()
        invariant
            i <= starter.actions@.len(),
            actions == starter.actions.deep_view(),
            compiled.deep_view() == with_actions(bare, actions.take(i as int)),
        decreases starter.actions@.len() - i,
    {
        assert(actions.take(i + 1).drop_last() =~= actions.take(i as int));
        assert(actions.take(i + 1).last() == starter.actions@[i as int].deep_view());
        apply_action(&mut compiled, &starter.actions[i]);
        i += 1;
    }
    assert(actions.take(i as int) =~= actions);
    let ghost dressed = compiled.deep_view();
    let ghost rest = all.drop_first();
    let mut chain: Vec<ChainLink> = Vec::new();
    let mut k: usize = 1;
    assert(rest.skip(0) =~= rest);
    proof {
        if let Ok(links) = links_of(rest, owner) {
            assert(chain.deep_view() + links =~= links);
        }
    }
    while k < group.len()
        invariant
            1 <= k <= group@.len(),
            all == group_view(group@),
            rest == all.drop_first(),
            links_of(rest, owner) == links_then(chain.deep_view(), links_of(rest.skip(k - 1), owner)),
            owner == id_or_zero(first_id(starter.deep_view().actions)),
            all[0] == (starter.deep_view(), loaded_view(*loaded)),
            targets_error(starter.deep_view().targets, owner, starter.line) is None,
            rule_operator(starter.deep_view(), loaded_view(*loaded)) is Ok,
        decreases group@.len() - k,
    {
        let (rule, data) = group[k];
        let ghost done = chain.deep_view();
        assert(rest.skip(k - 1)[0] == all[k as int]);
        assert(rest.skip(k - 1).drop_first() =~= rest.skip(k as int));
        let link = compile_link(rule, data, owner)?;
        let ghost seen = link.deep_view();
        chain.push(link);
        proof {
            assert(chain.deep_view() =~= done + seq![seen]);
            if let Ok(more) = links_of(rest.skip(k as int), owner) {
                assert(done + (seq![seen] + more) =~= chain.deep_view() + more);
            }
        }
        k += 1;
    }
    assert(links_of(rest, owner) == Ok::<Seq<ChainLinkView>, CompileErrorView>(
        chain.deep_view(),
    )) by {
        assert(chain.deep_view() + Seq::<ChainLinkView>::empty() =~= chain.deep_view());
    }
    compiled.chain = chain;
    assert(compiled.deep_view() =~= (CompiledRuleView { chain: chain.deep_view(), ..dressed }));
    Ok(compiled)
}

// ---------------------------------------------------------------------------
// Rule sets out of directives

/// What `block` resolves to where a phase has a default action: the disruptive
/// action and its status.
pub type DefaultAction = (Disruptive, Option<u16>);

/// What `block` resolves to, per phase.
#[derive(Debug, Clone, Copy)]
struct Defaults {
    request_headers: Option<DefaultAction>,
    request_body: Option<DefaultAction>,
    response_headers: Option<DefaultAction>,
    response_body: Option<DefaultAction>,
    logging: Option<DefaultAction>,
}

impl Defaults {
    spec fn of(self, phase: Phase) -> Option<DefaultAction> {
        match phase {
            Phase::RequestHeaders => self.request_headers,
            Phase::RequestBody => self.request_body,
            Phase::ResponseHeaders => self.response_headers,
            Phase::ResponseBody => self.response_body,
            Phase::Logging => self.logging,
        }
    }

    spec fn view(&self) -> Map<Phase, DefaultAction> {
        Map::new(|phase: Phase| self.of(phase) is Some, |phase: Phase| self.of(phase)->0)
    }

    fn get(&self, phase: Phase) -> (r: Option<DefaultAction>)
        ensures
            r == self.of(phase),
    {
        match phase {
            Phase::RequestHeaders => self.request_headers,
            Phase::RequestBody => self.request_body,
            Phase::ResponseHeaders => self.response_headers,
            Phase::ResponseBody => self.response_body,
            Phase::Logging => self.logging,
        }
    }

    fn put(&mut self, phase: Phase, action: DefaultAction)
        ensures
            final(self)@ == old(self)@.insert(phase, action),
    {
        let ghost start = self@;
        match phase {
            Phase::RequestHeaders => self.request_headers = Some(action),
            Phase::RequestBody => self.request_body = Some(action),
            Phase::ResponseHeaders => self.response_headers = Some(action),
            Phase::ResponseBody => self.response_body = Some(action),
            Phase::Logging => self.logging = Some(action),
        }
        assert(self@ =~= start.insert(phase, action));
    }
}

/// A default action after one of the actions of its directive. Only the
/// disruptive action and the status matter; the logging defaults do not change
/// what a rule does.
pub open spec fn default_with(default: DefaultAction, action: ActionView) -> DefaultAction {
    match action {
        ActionView::Deny => (Disruptive::Deny, default.1),
        ActionView::Drop => (Disruptive::Drop, default.1),
        ActionView::Pass => (Disruptive::Pass, default.1),
        ActionView::Redirect(_) => (Disruptive::Redirect, default.1),
        ActionView::Status(s) => (default.0, Some(s)),
        _ => default,
    }
}

/// The default action that a list of actions asks for.
pub open spec fn default_of(actions: Seq<ActionView>) -> DefaultAction
    decreases actions.len(),
{
    if actions.len() == 0 {
        (Disruptive::Pass, None)
    } else {
        default_with(default_of(actions.drop_last()), actions.last())
    }
}

fn default_action(actions: &Vec<Action>) -> (r: DefaultAction)
    ensures
        r == default_of(actions.deep_view()),
{
    let ghost all = actions.deep_view();
    let mut disruptive = Disruptive::Pass;
    let mut status: Option<u16> = None;
    let mut i: usize = 0;
    while i < actions.len()
        invariant
            i <= actions@.len(),
            all == actions.deep_view(),
            (disruptive, status) == default_of(all.take(i as int)),
        decreases actions@.len() - i,
    {
        assert(all.take(i + 1).drop_last() =~= all.take(i as int));
        assert(all.take(i + 1).last() == actions@[i as int].deep_view());
        match &actions[i] {
            Action::Deny => disruptive = Disruptive::Deny,
            Action::Drop => disruptive = Disruptive::Drop,
            Action::Pass => disruptive = Disruptive::Pass,
            Action::Redirect(_) => disruptive = Disruptive::Redirect,
            Action::Status(s) => status = Some(*s),
            _ => {},
        }
        i += 1;
    }
    assert(all.take(i as int) =~= all);
    (disruptive, status)
}

/// A rule with its `block` resolved. An unconfigured `block` scores without
/// denying, as ModSecurity's built-in default is `pass`.
pub open spec fn block_resolved(
    rule: CompiledRuleView,
    defaults: Map<Phase, DefaultAction>,
) -> CompiledRuleView {
    if rule.disruptive == Some(Disruptive::Block) {
        let (disruptive, status) = if defaults.dom().contains(rule.phase) {
            defaults[rule.phase]
        } else {
            (Disruptive::Pass, None)
        };
        CompiledRuleView {
            disruptive: Some(disruptive),
            status: if rule.status is None {
                status
            } else {
                rule.status
            },
            ..rule
        }
    } else {
        rule
    }
}

/// How far a list of directives has been compiled: the rule set and the errors
/// so far, the rules of a chain that is still open, and the default actions.
#[verifier::ext_equal]
pub struct Compilation {
    pub set: RuleSetView,
    pub errors: Seq<CompileErrorView>,
    pub pending: Seq<(RuleView, Loaded)>,
    pub defaults: Map<Phase, DefaultAction>,
}

/// A compilation before its first directive.
pub open spec fn nothing_compiled() -> Compilation {
    Compilation {
        set: no_rules(),
        errors: seq![],
        pending: seq![],
        defaults: Map::empty(),
    }
}

/// The rule in a directive, if it holds one.
pub open spec fn rule_in(directive: DirectiveView) -> Option<RuleView> {
    match directive {
        DirectiveView::Rule(rule) => Some(rule),
        DirectiveView::Action(rule) => Some(rule),
        _ => None,
    }
}

/// A compilation after one more rule. A rule with `chain` waits for the rest of
/// its chain, which is compiled as one.
pub open spec fn with_rule(c: Compilation, rule: RuleView, loaded: Loaded) -> Compilation {
    let group = c.pending.push((rule, loaded));
    if rule.actions.contains(ActionView::Chain) {
        Compilation { pending: group, ..c }
    } else {
        match rule_of(group) {
            Ok(compiled) => Compilation {
                set: RuleSetView {
                    entries: c.set.entries.push(
                        EntryView::Rule(block_resolved(compiled, c.defaults)),
                    ),
                    ..c.set
                },
                pending: seq![],
                ..c
            },
            Err(e) => Compilation { errors: c.errors.push(e), pending: seq![], ..c },
        }
    }
}

/// A compilation after one more directive.
pub open spec fn with_directive(
    c: Compilation,
    directive: DirectiveView,
    loaded: Loaded,
) -> Compilation {
    match directive {
        DirectiveView::Rule(rule) => with_rule(c, rule, loaded),
        DirectiveView::Action(rule) => with_rule(c, rule, loaded),
        DirectiveView::Marker(name) => Compilation {
            set: RuleSetView {
                entries: c.set.entries.push(EntryView::Marker),
                markers: marked(c.set.markers, name, c.set.entries.len()),
            },
            ..c
        },
        DirectiveView::DefaultAction { phase, actions } => Compilation {
            defaults: c.defaults.insert(phase, default_of(actions)),
            ..c
        },
        DirectiveView::ComponentSignature(_) => c,
    }
}

/// The compilation of a list of directives, given what the data file of each was
/// loaded as.
pub open spec fn compilation(directives: Seq<DirectiveView>, loaded: Seq<Loaded>) -> Compilation
    decreases directives.len(),
{
    if directives.len() == 0 {
        nothing_compiled()
    } else {
        with_directive(
            compilation(directives.drop_last(), loaded),
            directives.last(),
            loaded[directives.len() - 1],
        )
    }
}

/// What is wrong with a chain that nothing closes.
pub open spec fn dangling(pending: Seq<(RuleView, Loaded)>) -> Seq<CompileErrorView> {
    if pending.len() == 0 {
        seq![]
    } else {
        seq![
            CompileErrorView::DanglingChain {
                id: id_or_zero(first_id(pending[0].0.actions)),
                line: pending[0].0.line,
            },
        ]
    }
}

/// What is wrong with the jump of an entry.
pub open spec fn jump_error(entry: EntryView, index: int, markers: Markers) -> Option<
    CompileErrorView,
> {
    match entry {
        EntryView::Marker => None,
        EntryView::Rule(rule) => match rule.skip_after {
            None => None,
            Some(marker) => {
                let id = id_or_zero(rule.id);
                let line = rule.line;
                match marker_of(markers, marker) {
                    None => Some(CompileErrorView::UnknownMarker { id, line, marker }),
                    Some(position) => if position <= index {
                        Some(CompileErrorView::BackwardSkip { id, line, marker })
                    } else {
                        None
                    },
                }
            },
        },
    }
}

/// What is wrong with the jumps of some entries, in order.
pub open spec fn jump_errors(entries: Seq<EntryView>, markers: Markers) -> Seq<CompileErrorView>
    decreases entries.len(),
{
    if entries.len() == 0 {
        seq![]
    } else {
        let before = jump_errors(entries.drop_last(), markers);
        match jump_error(entries.last(), entries.len() - 1, markers) {
            Some(e) => before.push(e),
            None => before,
        }
    }
}

/// Everything that is wrong with a list of directives: the rules that do not
/// compile, a chain left open, and the jumps that lead nowhere or back.
pub open spec fn all_errors(c: Compilation) -> Seq<CompileErrorView> {
    c.errors + dangling(c.pending) + jump_errors(c.set.entries, c.set.markers)
}

/// Whether `loaded` is a way in which the data files of some directives can load.
pub open spec fn loads_all(
    directives: Seq<DirectiveView>,
    loads: Loads,
    loaded: Seq<Loaded>,
) -> bool {
    &&& loaded.len() == directives.len()
    &&& forall|i: int| 0 <= i < directives.len() ==> #[trigger] directive_loads(directives[i], loads, loaded[i])
}

/// Whether `loaded` is a way in which the data file of a directive can load.
pub open spec fn directive_loads(directive: DirectiveView, loads: Loads, loaded: Loaded) -> bool {
    match rule_in(directive) {
        Some(rule) => rule.operator matches Some(operator) ==> loads_as(operator, loads, loaded),
        None => true,
    }
}

/// Whether directives can compile to a rule set with some errors.
pub open spec fn compiles_all(
    directives: Seq<DirectiveView>,
    loads: Loads,
    set: RuleSetView,
    errors: Seq<CompileErrorView>,
) -> bool {
    exists|loaded: Seq<Loaded>| #[trigger]
        loads_all(directives, loads, loaded) && set == compilation(directives, loaded).set
            && errors == all_errors(compilation(directives, loaded))
}

/// What several loads show.
pub open spec fn loads_view(loaded: Seq<Result<Vec<u8>, String>>) -> Seq<Loaded> {
    Seq::new(loaded.len(), |i: int| loaded_view(loaded[i]))
}

/// The result of compiling, as the view of the rule set or of the error.
pub open spec fn set_view(r: Result<RuleSet, CompileError>) -> Result<
    RuleSetView,
    CompileErrorView,
> {
    match r {
        Ok(set) => Ok(set@),
        Err(e) => Err(e.deep_view()),
    }
}

/// The first of some errors, or the rule set where there are none.
pub open spec fn first_error_or(
    set: RuleSetView,
    errors: Seq<CompileErrorView>,
) -> Result<RuleSetView, CompileErrorView> {
    if errors.len() == 0 {
        Ok(set)
    } else {
        Err(errors[0])
    }
}

/// Whether directives can compile to a result, refusing on the first error.
pub open spec fn compiles_to_set(
    directives: Seq<DirectiveView>,
    loads: Loads,
    result: Result<RuleSetView, CompileErrorView>,
) -> bool {
    exists|set: RuleSetView, errors: Seq<CompileErrorView>| #[trigger]
        compiles_all(directives, loads, set, errors) && result == first_error_or(set, errors)
}

fn find_rule(directive: &Directive) -> (r: Option<&Rule>)
    ensures
        (match r {
            Some(rule) => rule_in(directive.deep_view()) == Some(rule.deep_view()),
            None => rule_in(directive.deep_view()) is None,
        }),
{
    match directive {
        Directive::Rule(rule) => Some(rule),
        Directive::Action(rule) => Some(rule),
        _ => None,
    }
}

fn load_all<L: DataLoader + ?Sized>(directives: &[Directive], loader: &L) -> (r: Vec<
    Result<Vec<u8>, String>,
>)
    ensures
        loads_all(directives.deep_view(), loader.loads(), loads_view(r@)),
{
    let mut out: Vec<Result<Vec<u8>, String>> = Vec::new();
    let ghost all = directives.deep_view();
    let mut i: usize = 0;
    while i < directives.len()
        invariant
            i <= directives@.len(),
            all == directives.deep_view(),
            out@.len() == i,
            forall|k: int|
                0 <= k < i ==> #[trigger] directive_loads(
                    all[k],
                    loader.loads(),
                    loads_view(out@)[k],
                ),
        decreases directives@.len() - i,
    {
        let ghost before = out@;
        assert(all[i as int] == directives@[i as int].deep_view());
        let loaded = match find_rule(&directives[i]) {
            Some(rule) => match &rule.operator {
                Some(operator) => load_data(operator, loader),
                None => Err(String::new()),
            },
            None => Err(String::new()),
        };
        out.push(loaded);
        assert forall|k: int| 0 <= k < i + 1 implies #[trigger] directive_loads(
            all[k],
            loader.loads(),
            loads_view(out@)[k],
        ) by {
            if k < i {
                assert(loads_view(out@)[k] == loads_view(before)[k]);
            }
        }
        i += 1;
    }
    out
}

fn resolve_block(rule: &mut CompiledRule, defaults: &Defaults)
    ensures
        final(rule).deep_view() == block_resolved(old(rule).deep_view(), defaults@),
{
    let ghost start = rule.deep_view();
    if rule.disruptive == Some(Disruptive::Block) {
        let (disruptive, status) = match defaults.get(rule.phase) {
            Some(default) => default,
            None => (Disruptive::Pass, None),
        };
        rule.disruptive = Some(disruptive);
        if rule.status.is_none() {
            rule.status = status;
        }
    }
    assert(rule.deep_view() =~= block_resolved(start, defaults@));
}

impl RuleSet {
    fn add_rule(&mut self, rule: CompiledRule)
        ensures
            final(self)@ == (RuleSetView {
                entries: old(self)@.entries.push(EntryView::Rule(rule.deep_view())),
                ..old(self)@
            }),
    {
        let ghost start = self@;
        self.entries.push(Entry::Rule(Box::new(rule)));
        assert(self@.entries =~= start.entries.push(EntryView::Rule(rule.deep_view())));
        assert(self@.markers =~= start.markers);
    }

    fn add_marker(&mut self, name: &str)
        ensures
            final(self)@ == (RuleSetView {
                entries: old(self)@.entries.push(EntryView::Marker),
                markers: marked(old(self)@.markers, name@, old(self)@.entries.len()),
            }),
    {
        let ghost start = self@;
        let position: usize = self.entries.len();
        let mut i: usize = 0;
        assert(start.markers.skip(0) =~= start.markers);
        proof {
            assert(start.markers.take(0) + marked(start.markers, name@, position as nat) =~= marked(
                start.markers,
                name@,
                position as nat,
            ));
        }
        while i < self.markers.len()
            invariant
                i <= self.markers@.len(),
                self@ == start,
                start == old(self)@,
                position == start.entries.len(),
                self.entries@.len() == position,
                marked(start.markers, name@, position as nat) == start.markers.take(i as int)
                    + marked(start.markers.skip(i as int), name@, position as nat),
            decreases self.markers@.len() - i,
        {
            let ghost rest = start.markers.skip(i as int);
            assert(start.markers.len() == self.markers@.len());
            assert(rest[0] == start.markers[i as int]);
            assert(rest.drop_first() =~= start.markers.skip(i + 1));
            assert(start.markers[i as int] == (
                self.markers@[i as int].0@,
                self.markers@[i as int].1 as nat,
            ));
            if same_str(self.markers[i].0.as_str(), name) {
                self.markers.set(i, (name.to_string(), position));
                self.entries.push(Entry::Marker);
                assert(self@.entries =~= start.entries.push(EntryView::Marker));
                assert(self@.markers =~= start.markers.take(i as int) + (seq![
                    (name@, position as nat),
                ] + rest.drop_first()));
                return;
            }
            assert(start.markers.take(i as int) + (seq![rest[0]] + marked(
                rest.drop_first(),
                name@,
                position as nat,
            )) =~= start.markers.take(i + 1) + marked(
                start.markers.skip(i + 1),
                name@,
                position as nat,
            ));
            i += 1;
        }
        assert(start.markers.len() == self.markers@.len());
        self.markers.push((name.to_string(), position));
        self.entries.push(Entry::Marker);
        assert(self@.entries =~= start.entries.push(EntryView::Marker));
        assert(self@.markers =~= start.markers.take(i as int) + seq![(name@, position as nat)]);
    }

    fn find_jump_errors(&self) -> (r: Vec<CompileError>)
        ensures
            r.deep_view() == jump_errors(self@.entries, self@.markers),
    {
        let ghost all = self@.entries;
        let ghost markers = self@.markers;
        let mut out: Vec<CompileError> = Vec::new();
        let mut i: usize = 0;
        assert(out.deep_view() =~= seq![]);
        assert(all.take(0) =~= seq![]);
        while i < self.entries.len()
            invariant
                i <= self.entries@.len(),
                all == self@.entries,
                markers == self@.markers,
                out.deep_view() == jump_errors(all.take(i as int), markers),
            decreases self.entries@.len() - i,
        {
            let ghost done = out.deep_view();
            assert(all.take(i + 1).drop_last() =~= all.take(i as int));
            assert(all.take(i + 1).last() == self.entries@[i as int].shown());
            if let Entry::Rule(rule) = &self.entries[i] {
                if let Some(marker) = &rule.skip_after {
                    let id = or_zero(rule.id);
                    let line = rule.line;
                    match self.marker_position(marker.as_str()) {
                        None => {
                            out.push(
                                CompileError::UnknownMarker { id, line, marker: marker.clone() },
                            );
                            assert(out.deep_view() =~= done.push(
                                CompileErrorView::UnknownMarker { id, line, marker: marker@ },
                            ));
                        },
                        Some(position) => if position <= i {
                            out.push(
                                CompileError::BackwardSkip { id, line, marker: marker.clone() },
                            );
                            assert(out.deep_view() =~= done.push(
                                CompileErrorView::BackwardSkip { id, line, marker: marker@ },
                            ));
                        },
                    }
                }
            }
            i += 1;
        }
        assert(all.take(i as int) =~= all);
        out
    }

    /// Compile parsed directives, given what the data file of each was loaded as,
    /// collecting every error instead of stopping.
    pub fn compile_loaded(
        directives: &[Directive],
        loaded: &Vec<Result<Vec<u8>, String>>,
    ) -> (r: (Self, Vec<CompileError>))
        requires
            loaded@.len() == directives@.len(),
        ensures
            r.0@ == compilation(directives.deep_view(), loads_view(loaded@)).set,
            r.1.deep_view() == all_errors(
                compilation(directives.deep_view(), loads_view(loaded@)),
            ),
    {
        let ghost all = directives.deep_view();
        let ghost data = loads_view(loaded@);
        let mut set = RuleSet::default();
        let mut errors: Vec<CompileError> = Vec::new();
        let mut pending: Vec<(&Rule, &Result<Vec<u8>, String>)> = Vec::new();
        let mut defaults = Defaults {
            request_headers: None,
            request_body: None,
            response_headers: None,
            response_body: None,
            logging: None,
        };
        let mut i: usize = 0;
        assert(defaults@ =~= Map::empty());
        assert(errors.deep_view() =~= seq![]);
        assert(group_view(pending@) =~= seq![]);
        assert(all.take(0) =~= seq![]);
        while i < directives.len()
            invariant
                i <= directives@.len(),
                loaded@.len() == directives@.len(),
                all == directives.deep_view(),
                data == loads_view(loaded@),
                compilation(all.take(i as int), data) == (Compilation {
                    set: set@,
                    errors: errors.deep_view(),
                    pending: group_view(pending@),
                    defaults: defaults@,
                }),
            decreases directives@.len() - i,
        {
            let ghost c = compilation(all.take(i as int), data);
            assert(all.take(i + 1).drop_last() =~= all.take(i as int));
            assert(all.take(i + 1).last() == directives@[i as int].deep_view());
            assert(data[i as int] == loaded_view(loaded@[i as int]));
            let directive = &directives[i];
            match find_rule(directive) {
                Some(rule) => {
                    pending.push((rule, &loaded[i]));
                    assert(group_view(pending@) =~= c.pending.push(
                        (rule.deep_view(), data[i as int]),
                    ));
                    if !rule.is_chained() {
                        match compile_rule(&pending) {
                            Ok(mut compiled) => {
                                resolve_block(&mut compiled, &defaults);
                                set.add_rule(compiled);
                            },
                            Err(e) => {
                                let ghost shown = e.deep_view();
                                errors.push(e);
                                assert(errors.deep_view() =~= c.errors.push(shown));
                            },
                        }
                        pending.clear();
                        assert(group_view(pending@) =~= seq![]);
                    }
                },
                None => match directive {
                    Directive::Marker(name) => set.add_marker(name.as_str()),
                    Directive::DefaultAction { phase, actions } => {
                        defaults.put(*phase, default_action(actions));
                    },
                    _ => {},
                },
            }
            assert(compilation(all.take(i + 1), data) =~= (Compilation {
                set: set@,
                errors: errors.deep_view(),
                pending: group_view(pending@),
                defaults: defaults@,
            }));
            i += 1;
        }
        assert(all.take(i as int) =~= all);
        let ghost c = compilation(all, data);
        if pending.len() > 0 {
            let (open, _) = pending[0];
            assert(group_view(pending@)[0].0 == open.deep_view());
            errors.push(CompileError::DanglingChain { id: or_zero(open.id()), line: open.line });
            assert(errors.deep_view() =~= c.errors + dangling(c.pending));
        } else {
            assert(errors.deep_view() =~= c.errors + dangling(c.pending));
        }
        let mut jumps = set.find_jump_errors();
        let ghost first = errors@;
        let ghost second = jumps@;
        errors.append(&mut jumps);
        assert(errors@ == first + second);
        assert(errors.deep_view() =~= all_errors(c));
        (set, errors)
    }

    /// Compile parsed directives, collecting every error instead of stopping.
    ///
    /// For tooling that needs to measure coverage across a whole rule set.
    /// Anything that *enforces* rules must treat a non-empty error list as a
    /// refusal: the rule set returned is missing the rules that failed, and
    /// enforcing a subset of a rule set silently weakens it. Use
    /// [`RuleSet::compile`] there.
    pub fn compile_all<L: DataLoader + ?Sized>(directives: &[Directive], loader: &L) -> (r: (
        Self,
        Vec<CompileError>,
    ))
        ensures
            compiles_all(directives.deep_view(), loader.loads(), r.0@, r.1.deep_view()),
            r.1@.len() == 0 ==> r.0@.jumps_resolved() && r.0@.jumps_forward(),
    {
        let loaded = load_all(directives, loader);
        assert(loads_all(directives.deep_view(), loader.loads(), loads_view(loaded@)));
        let (set, errors) = Self::compile_loaded(directives, &loaded);
        proof {
            if errors@.len() == 0 {
                assert(errors.deep_view().len() == 0);
                lemma_no_jump_errors(set@.entries, set@.markers);
                lemma_resolved_jumps_lead_ahead(directives.deep_view(), loads_view(loaded@));
            }
        }
        (set, errors)
    }

    /// Compile parsed directives into a rule set, refusing on the first error.
    ///
    /// Chained rules are folded into their starter, so the resulting sequence
    /// is flat and a `skipAfter` cannot land inside a chain.
    pub fn compile<L: DataLoader + ?Sized>(directives: &[Directive], loader: &L) -> (r: Result<
        Self,
        CompileError,
    >)
        ensures
            compiles_to_set(directives.deep_view(), loader.loads(), set_view(r)),
            r is Ok ==> r->Ok_0@.jumps_resolved() && r->Ok_0@.jumps_forward(),
    {
        let (set, mut errors) = Self::compile_all(directives, loader);
        assert(compiles_all(directives.deep_view(), loader.loads(), set@, errors.deep_view()));
        if errors.len() == 0 {
            Ok(set)
        } else {
            let ghost all = errors.deep_view();
            let first = errors.remove(0);
            assert(all[0] == first.deep_view());
            Err(first)
        }
    }

    /// Whether every `skipAfter` whose marker exists leads ahead, so that running
    /// the rules comes to an end. A rule set that compiled without an error is
    /// such a one.
    pub fn jumps_lead_ahead(&self) -> (r: bool)
        ensures
            r == self@.jumps_forward(),
    {
        let mut i: usize = 0;
        while i < self.entries.len()
            invariant
                i <= self.entries@.len(),
                forall|k: int|
                    0 <= k < i ==> jumps_ahead(#[trigger] self@.entries[k], k, self@),
            decreases self.entries@.len() - i,
        {
            assert(self@.entries[i as int] == self.entries@[i as int].shown());
            if let Entry::Rule(rule) = &self.entries[i] {
                if let Some(marker) = &rule.skip_after {
                    if let Some(position) = self.marker_position(marker.as_str()) {
                        if position <= i || position >= self.entries.len() {
                            assert(!jumps_ahead(self@.entries[i as int], i as int, self@));
                            return false;
                        }
                    }
                }
            }
            i += 1;
        }
        true
    }

    /// Number of rules, excluding markers.
    pub fn rule_count(&self) -> (r: usize)
        ensures
            r == count_rules(self@.entries),
    {
        let ghost all = self@.entries;
        let mut n: usize = 0;
        let mut i: usize = 0;
        assert(all.take(0) =~= seq![]);
        while i < self.entries.len()
            invariant
                i <= self.entries@.len(),
                n <= i,
                all == self@.entries,
                n == count_rules(all.take(i as int)),
            decreases self.entries@.len() - i,
        {
            assert(all.take(i + 1).drop_last() =~= all.take(i as int));
            assert(all.take(i + 1).last() == self.entries@[i as int].shown());
            if let Entry::Rule(_) = &self.entries[i] {
                n += 1;
            }
            i += 1;
        }
        assert(all.take(i as int) =~= all);
        n
    }

    /// Number of `skipAfter` destinations.
    pub fn marker_count(&self) -> (r: usize)
        ensures
            r == self@.markers.len(),
    {
        self.markers.len()
    }

    /// Rules in a given phase.
    pub fn rules_in_phase(&self, phase: Phase) -> (r: usize)
        ensures
            r == count_in_phase(self@.entries, phase),
    {
        let ghost all = self@.entries;
        let mut n: usize = 0;
        let mut i: usize = 0;
        assert(all.take(0) =~= seq![]);
        while i < self.entries.len()
            invariant
                i <= self.entries@.len(),
                n <= i,
                all == self@.entries,
                n == count_in_phase(all.take(i as int), phase),
            decreases self.entries@.len() - i,
        {
            assert(all.take(i + 1).drop_last() =~= all.take(i as int));
            assert(all.take(i + 1).last() == self.entries@[i as int].shown());
            if let Entry::Rule(rule) = &self.entries[i] {
                if rule.phase == phase {
                    n += 1;
                }
            }
            i += 1;
        }
        assert(all.take(i as int) =~= all);
        n
    }

    /// Number of entries, rules and markers together.
    pub fn entry_count(&self) -> (r: usize)
        ensures
            r == self@.entries.len(),
    {
        self.entries.len()
    }

    /// The rule at a position, where a rule stands there.
    pub fn rule_at(&self, index: usize) -> (r: Option<&CompiledRule>)
        ensures
            (match r {
                Some(rule) => self@.rule_at(index as int) == Some(rule.deep_view()),
                None => self@.rule_at(index as int) is None,
            }),
    {
        if index < self.entries.len() {
            assert(self@.entries[index as int] == self.entries@[index as int].shown());
            match &self.entries[index] {
                Entry::Rule(rule) => Some(&**rule),
                Entry::Marker => None,
            }
        } else {
            None
        }
    }

    /// Where a marker stands.
    pub fn marker_position(&self, name: &str) -> (r: Option<usize>)
        ensures
            (match r {
                Some(position) => marker_of(self@.markers, name@) == Some(position as nat),
                None => marker_of(self@.markers, name@) is None,
            }),
    {
        let ghost all = self@.markers;
        let mut i: usize = 0;
        assert(all.skip(0) =~= all);
        while i < self.markers.len()
            invariant
                i <= self.markers@.len(),
                all == self@.markers,
                marker_of(all, name@) == marker_of(all.skip(i as int), name@),
            decreases self.markers@.len() - i,
        {
            assert(all.skip(i as int).drop_first() =~= all.skip(i + 1));
            assert(all.skip(i as int)[0] == (
                self.markers@[i as int].0@,
                self.markers@[i as int].1 as nat,
            ));
            if same_str(self.markers[i].0.as_str(), name) {
                return Some(self.markers[i].1);
            }
            i += 1;
        }
        None
    }
}

proof fn lemma_no_jump_errors(entries: Seq<EntryView>, markers: Markers)
    requires
        jump_errors(entries, markers).len() == 0,
    ensures
        forall|i: int|
            0 <= i < entries.len() ==> jump_error(#[trigger] entries[i], i, markers) is None,
    decreases entries.len(),
{
    if entries.len() > 0 {
        lemma_no_jump_errors(entries.drop_last(), markers);
        assert forall|i: int| 0 <= i < entries.len() implies jump_error(
            #[trigger] entries[i],
            i,
            markers,
        ) is None by {
            if i < entries.len() - 1 {
                assert(entries.drop_last()[i] == entries[i]);
            }
        }
    }
}

// ---------------------------------------------------------------------------
// Laws

/// Whatever the loader does, a rule set that compiles without an error has every
/// jump resolved, and every jump leads ahead.
pub proof fn accepted_rule_sets_jump_ahead(
    directives: Seq<DirectiveView>,
    loads: Loads,
    set: RuleSetView,
)
    requires
        compiles_to_set(directives, loads, Ok(set)),
    ensures
        set.jumps_resolved(),
        set.jumps_forward(),
{
    let (s, errors) = choose|s: RuleSetView, errors: Seq<CompileErrorView>| #[trigger]
        compiles_all(directives, loads, s, errors) && Ok::<RuleSetView, CompileErrorView>(set)
            == first_error_or(s, errors);
    let loaded = choose|loaded: Seq<Loaded>| #[trigger]
        loads_all(directives, loads, loaded) && s == compilation(directives, loaded).set
            && errors == all_errors(compilation(directives, loaded));
    lemma_no_jump_errors(set.entries, set.markers);
    lemma_resolved_jumps_lead_ahead(directives, loaded);
}

proof fn lemma_resolved_jumps_lead_ahead(directives: Seq<DirectiveView>, loaded: Seq<Loaded>)
    requires
        compilation(directives, loaded).set.jumps_resolved(),
    ensures
        compilation(directives, loaded).set.jumps_forward(),
{
    let set = compilation(directives, loaded).set;
    assert forall|i: int| 0 <= i < set.entries.len() implies jumps_ahead(
        #[trigger] set.entries[i],
        i,
        set,
    ) by {
        assert(jump_error(set.entries[i], i, set.markers) is None);
        if let EntryView::Rule(rule) = set.entries[i] {
            if let Some(name) = rule.skip_after {
                jumps_land_on_markers(directives, loaded, name);
            }
        }
    }
}

/// A marker is found where it was put, and putting it leaves the other markers
/// where they are.
pub proof fn markers_stay_where_they_are_put(
    markers: Markers,
    name: Seq<char>,
    position: nat,
    other: Seq<char>,
)
    ensures
        marker_of(marked(markers, name, position), name) == Some(position),
        other != name ==> marker_of(marked(markers, name, position), other) == marker_of(
            markers,
            other,
        ),
    decreases markers.len(),
{
    let after = marked(markers, name, position);
    if markers.len() == 0 {
        assert(after.drop_first() =~= markers);
    } else if markers[0].0 == name {
        assert(after.drop_first() =~= markers.drop_first());
    } else {
        markers_stay_where_they_are_put(markers.drop_first(), name, position, other);
        assert(after.drop_first() =~= marked(markers.drop_first(), name, position));
    }
}

/// Whether no two markers have the same name.
pub open spec fn markers_unique(markers: Markers) -> bool {
    forall|i: int, j: int|
        0 <= i < j < markers.len() ==> (#[trigger] markers[i]).0 != (#[trigger] markers[j]).0
}

proof fn lemma_marked_unique(markers: Markers, name: Seq<char>, position: nat)
    requires
        markers_unique(markers),
    ensures
        markers_unique(marked(markers, name, position)),
        forall|i: int|
            0 <= i < marked(markers, name, position).len() ==> (
            #[trigger] marked(markers, name, position)[i]).0 == name || exists|k: int|
                0 <= k < markers.len() && (#[trigger] markers[k]).0 == marked(
                    markers,
                    name,
                    position,
                )[i].0,
    decreases markers.len(),
{
    let after = marked(markers, name, position);
    if markers.len() > 0 {
        let rest = markers.drop_first();
        let more = marked(rest, name, position);
        assert(markers_unique(rest)) by {
            assert forall|i: int, j: int| 0 <= i < j < rest.len() implies (#[trigger] rest[i]).0
                != (#[trigger] rest[j]).0 by {
                assert(rest[i] == markers[i + 1] && rest[j] == markers[j + 1]);
            }
        }
        lemma_marked_unique(rest, name, position);
        if markers[0].0 == name {
            assert forall|i: int, j: int| 0 <= i < j < after.len() implies (#[trigger] after[i]).0
                != (#[trigger] after[j]).0 by {
                assert(after[j] == markers[j]);
                assert(after[i].0 == markers[i].0);
            }
            assert forall|i: int| 0 <= i < after.len() implies (#[trigger] after[i]).0 == name
                || exists|k: int| 0 <= k < markers.len() && (#[trigger] markers[k]).0 == after[i].0 by {
                assert(after[i].0 == markers[i].0);
            }
        } else {
            assert forall|i: int| 0 < i < after.len() implies (#[trigger] after[i]).0 == name
                || exists|k: int| 1 <= k < markers.len() && (#[trigger] markers[k]).0 == after[i].0 by {
                assert(after[i] == more[i - 1]);
                if more[i - 1].0 != name {
                    let k = choose|k: int|
                        0 <= k < rest.len() && (#[trigger] rest[k]).0 == more[i - 1].0;
                    assert(markers[k + 1].0 == after[i].0);
                }
            }
            assert(after[0] == markers[0]);
            assert forall|i: int, j: int| 0 <= i < j < after.len() implies (#[trigger] after[i]).0
                != (#[trigger] after[j]).0 by {
                assert(after[j] == more[j - 1]);
                if i > 0 {
                    assert(after[i] == more[i - 1]);
                } else if after[j].0 != name {
                    let k = choose|k: int|
                        1 <= k < markers.len() && (#[trigger] markers[k]).0 == after[j].0;
                    assert(markers[0].0 != markers[k].0);
                }
            }
        }
    }
}

/// No marker name stands twice in a rule set, so the number of markers is the
/// number of `skipAfter` destinations.
pub proof fn markers_are_distinct(directives: Seq<DirectiveView>, loaded: Seq<Loaded>)
    ensures
        markers_unique(compilation(directives, loaded).set.markers),
    decreases directives.len(),
{
    if directives.len() > 0 {
        let before = compilation(directives.drop_last(), loaded);
        markers_are_distinct(directives.drop_last(), loaded);
        if let DirectiveView::Marker(name) = directives.last() {
            lemma_marked_unique(before.set.markers, name, before.set.entries.len());
        }
    }
}

/// A `skipAfter` lands on a marker, never on a rule and so never inside a chain.
pub proof fn jumps_land_on_markers(
    directives: Seq<DirectiveView>,
    loaded: Seq<Loaded>,
    name: Seq<char>,
)
    ensures
        ({
            let set = compilation(directives, loaded).set;
            marker_of(set.markers, name) matches Some(position) ==> position < set.entries.len()
                && set.entries[position as int] == EntryView::Marker
        }),
    decreases directives.len(),
{
    if directives.len() > 0 {
        let before = compilation(directives.drop_last(), loaded);
        jumps_land_on_markers(directives.drop_last(), loaded, name);
        if let DirectiveView::Marker(marker) = directives.last() {
            markers_stay_where_they_are_put(
                before.set.markers,
                marker,
                before.set.entries.len(),
                name,
            );
        }
    }
}

/// How many chains some directives close: one for each rule without `chain`.
pub open spec fn closed_chains(directives: Seq<DirectiveView>) -> nat
    decreases directives.len(),
{
    if directives.len() == 0 {
        0
    } else {
        let before = closed_chains(directives.drop_last());
        match rule_in(directives.last()) {
            Some(rule) => if rule.actions.contains(ActionView::Chain) {
                before
            } else {
                before + 1
            },
            None => before,
        }
    }
}

/// No rule is dropped in silence: every chain either stands in the rule set or is
/// reported as an error.
pub proof fn every_chain_compiles_or_is_reported(
    directives: Seq<DirectiveView>,
    loaded: Seq<Loaded>,
)
    ensures
        ({
            let c = compilation(directives, loaded);
            count_rules(c.set.entries) + c.errors.len() == closed_chains(directives)
        }),
    decreases directives.len(),
{
    if directives.len() > 0 {
        let before = compilation(directives.drop_last(), loaded);
        let after = compilation(directives, loaded);
        every_chain_compiles_or_is_reported(directives.drop_last(), loaded);
        if after.set.entries.len() > before.set.entries.len() {
            assert(after.set.entries.drop_last() =~= before.set.entries);
        }
    }
}

/// A default action never is `block` itself.
proof fn lemma_default_is_not_block(actions: Seq<ActionView>)
    ensures
        default_of(actions).0 != Disruptive::Block,
    decreases actions.len(),
{
    if actions.len() > 0 {
        lemma_default_is_not_block(actions.drop_last());
    }
}

/// No compiled rule still says `block`: the default action of its phase has taken
/// its place.
pub proof fn no_block_is_left(directives: Seq<DirectiveView>, loaded: Seq<Loaded>, index: int)
    ensures
        compilation(directives, loaded).set.rule_at(index) matches Some(rule) ==> rule.disruptive
            != Some(Disruptive::Block),
        forall|phase: Phase| #[trigger]
            compilation(directives, loaded).defaults.dom().contains(phase) ==> compilation(
                directives,
                loaded,
            ).defaults[phase].0 != Disruptive::Block,
    decreases directives.len(),
{
    if directives.len() > 0 {
        no_block_is_left(directives.drop_last(), loaded, index);
        let before = compilation(directives.drop_last(), loaded);
        let after = compilation(directives, loaded);
        if let DirectiveView::DefaultAction { phase, actions } = directives.last() {
            lemma_default_is_not_block(actions);
        }
        if 0 <= index < before.set.entries.len() {
            assert(after.set.entries[index] == before.set.entries[index]);
            assert(after.set.rule_at(index) == before.set.rule_at(index));
        }
        assert forall|phase: Phase| #[trigger]
            after.defaults.dom().contains(phase) implies after.defaults[phase].0
            != Disruptive::Block by {
            if before.defaults.dom().contains(phase) {
            }
        }
    }
}

/// Every rule runs in one phase: the counts of the five phases add up to the
/// number of rules.
pub proof fn phases_share_out_the_rules(entries: Seq<EntryView>)
    ensures
        count_rules(entries) == count_in_phase(entries, Phase::RequestHeaders) + count_in_phase(
            entries,
            Phase::RequestBody,
        ) + count_in_phase(entries, Phase::ResponseHeaders) + count_in_phase(
            entries,
            Phase::ResponseBody,
        ) + count_in_phase(entries, Phase::Logging),
    decreases entries.len(),
{
    if entries.len() > 0 {
        phases_share_out_the_rules(entries.drop_last());
    }
}

/// A data file that the loader cannot give refuses the rule set: a rule whose
/// operator does not compile is an error, never a rule.
pub proof fn unloadable_data_refuses_the_rule_set(
    directives: Seq<DirectiveView>,
    loaded: Seq<Loaded>,
    rule: RuleView,
    name: Seq<char>,
    reason: Seq<char>,
)
    requires
        loaded.len() == directives.len() + 1,
        compilation(directives, loaded).pending.len() == 0,
        rule.operator == Some(OperatorView::PmFromFile(name)),
        targets_error(rule.targets, id_or_zero(first_id(rule.actions)), rule.line) is None,
        !rule.actions.contains(ActionView::Chain),
        loaded.last() == Err::<Seq<u8>, Seq<char>>(reason),
    ensures
        compilation(directives.push(DirectiveView::Rule(rule)), loaded).errors == compilation(
            directives,
            loaded,
        ).errors.push(
            CompileErrorView::Operator {
                id: id_or_zero(first_id(rule.actions)),
                line: rule.line,
                source: OperatorCompileErrorView::DataFile(reason),
            },
        ),
        compilation(directives.push(DirectiveView::Rule(rule)), loaded).set == compilation(
            directives,
            loaded,
        ).set,
{
    let all = directives.push(DirectiveView::Rule(rule));
    assert(all.drop_last() =~= directives);
    assert(all.last() == DirectiveView::Rule(rule));
    let group = compilation(directives, loaded).pending.push((rule, loaded.last()));
    assert(group[0] == (rule, loaded.last()));
}

} // verus!
