//! What directives compile to: what each action makes of a rule, how chains, markers
//! and default actions are taken in, and what is refused.

use crate::action::ActionView;
use crate::engine::block_resolved;
use crate::engine::compilation;
use crate::engine::default_of;
use crate::engine::jump_error;
use crate::engine::link_of;
use crate::engine::link_with_action;
use crate::engine::link_with_actions;
use crate::engine::links_of;
use crate::engine::marker_of;
use crate::engine::markers_stay_where_they_are_put;
use crate::engine::rule_of;
use crate::engine::setvar_spec_of;
use crate::engine::targets_error;
use crate::engine::with_action;
use crate::engine::with_actions;
use crate::engine::with_directive;
use crate::engine::ChainLinkView;
use crate::engine::Compilation;
use crate::engine::CompileErrorView;
use crate::engine::CompiledRuleView;
use crate::engine::Disruptive;
use crate::engine::EntryView;
use crate::engine::Loaded;
use crate::engine::Markers;
use crate::macros::template_of;
use crate::matcher::compiled_of;
use crate::matcher::CompiledOperatorView;
use crate::pattern::regex_error;
use crate::rule::first_id;
use crate::rule::Collection;
use crate::rule::DirectiveView;
use crate::rule::RuleView;
use crate::rule::SelectorView;
use crate::rule::TargetView;
use crate::text::trimmed;
use crate::Phase;
use vstd::prelude::*;

verus! {

// ---------------------------------------------------------------------------
// Actions

/// What each action makes of a rule: it sets its own field and leaves the others.
/// Tags, transformations, `setvar`s and `ctl`s add up in order; of the others the
/// last one stands.
pub proof fn actions_set_their_field(rule: CompiledRuleView, action: ActionView)
    ensures
        ({
            let after = with_action(rule, action);
            match action {
                ActionView::Deny => after == (CompiledRuleView {
                    disruptive: Some(Disruptive::Deny),
                    ..rule
                }),
                ActionView::Drop => after == (CompiledRuleView {
                    disruptive: Some(Disruptive::Drop),
                    ..rule
                }),
                ActionView::Pass => after == (CompiledRuleView {
                    disruptive: Some(Disruptive::Pass),
                    ..rule
                }),
                ActionView::Block => after == (CompiledRuleView {
                    disruptive: Some(Disruptive::Block),
                    ..rule
                }),
                ActionView::Redirect(_) => after == (CompiledRuleView {
                    disruptive: Some(Disruptive::Redirect),
                    ..rule
                }),
                ActionView::Status(s) => after == (CompiledRuleView { status: Some(s), ..rule }),
                ActionView::Phase(p) => after == (CompiledRuleView { phase: p, ..rule }),
                ActionView::Msg(m) => after == (CompiledRuleView {
                    msg: Some(template_of(m)),
                    ..rule
                }),
                ActionView::LogData(d) => after == (CompiledRuleView {
                    logdata: Some(template_of(d)),
                    ..rule
                }),
                ActionView::Tag(t) => after == (CompiledRuleView {
                    tags: rule.tags + seq![t],
                    ..rule
                }),
                ActionView::Severity(s) => after == (CompiledRuleView {
                    severity: Some(s),
                    ..rule
                }),
                ActionView::SkipAfter(m) => after == (CompiledRuleView {
                    skip_after: Some(m),
                    ..rule
                }),
                ActionView::Transform(t) => after == (CompiledRuleView {
                    transformations: rule.transformations + seq![t],
                    ..rule
                }),
                ActionView::Capture => after == (CompiledRuleView { capture: true, ..rule }),
                ActionView::MultiMatch => after == (CompiledRuleView {
                    multi_match: true,
                    ..rule
                }),
                ActionView::NoLog => after == (CompiledRuleView { nolog: true, ..rule }),
                ActionView::Ctl(c) => after == (CompiledRuleView {
                    ctl: rule.ctl + seq![c],
                    ..rule
                }),
                ActionView::SetVar(v) => after.setvars.len() == rule.setvars.len() + 1
                    && after.setvars.drop_last() == rule.setvars && after.setvars.last().name
                    == template_of(v.name) && after.setvars.last().op == v.op && (v.value
                    matches Some(s) ==> after.setvars.last().value == Some(template_of(s))) && (
                v.value is None ==> after.setvars.last().value is None) && after == (
                CompiledRuleView { setvars: after.setvars, ..rule }),
                _ => after == rule,
            }
        }),
{
    match action {
        ActionView::Tag(t) => {
            assert(rule.tags.push(t) =~= rule.tags + seq![t]);
        },
        ActionView::Transform(t) => {
            assert(rule.transformations.push(t) =~= rule.transformations + seq![t]);
        },
        ActionView::Ctl(c) => {
            assert(rule.ctl.push(c) =~= rule.ctl + seq![c]);
        },
        ActionView::SetVar(v) => {
            assert(rule.setvars.push(setvar_spec_of(v)).drop_last() =~= rule.setvars);
        },
        _ => {},
    }
}

/// What each action makes of a link of a chain: a link has transformations, captures
/// and `setvar`s of its own, and nothing else.
pub proof fn links_take_their_own_actions(link: ChainLinkView, action: ActionView)
    ensures
        ({
            let after = link_with_action(link, action);
            match action {
                ActionView::Transform(t) => after == (ChainLinkView {
                    transformations: link.transformations + seq![t],
                    ..link
                }),
                ActionView::Capture => after == (ChainLinkView { capture: true, ..link }),
                ActionView::SetVar(v) => after == (ChainLinkView {
                    setvars: link.setvars + seq![setvar_spec_of(v)],
                    ..link
                }),
                _ => after == link,
            }
        }),
{
    match action {
        ActionView::Transform(t) => {
            assert(link.transformations.push(t) =~= link.transformations + seq![t]);
        },
        ActionView::SetVar(v) => {
            assert(link.setvars.push(setvar_spec_of(v)) =~= link.setvars + seq![
                setvar_spec_of(v),
            ]);
        },
        _ => {},
    }
}

/// The actions of a rule and of a link take effect in the order they are written.
pub proof fn actions_take_effect_in_order(
    rule: CompiledRuleView,
    link: ChainLinkView,
    before: Seq<ActionView>,
    last: ActionView,
)
    ensures
        with_actions(rule, Seq::<ActionView>::empty()) == rule,
        with_actions(rule, before + seq![last]) == with_action(with_actions(rule, before), last),
        link_with_actions(link, Seq::<ActionView>::empty()) == link,
        link_with_actions(link, before + seq![last]) == link_with_action(
            link_with_actions(link, before),
            last,
        ),
{
    let all = before + seq![last];
    assert(all.drop_last() =~= before);
    assert(all.last() == last);
}

// ---------------------------------------------------------------------------
// Rules and chains

/// A rule before its actions: of the second phase, with what it inspects and tests,
/// and nothing else asked for.
pub open spec fn plain_rule(rule: RuleView, operator: Option<CompiledOperatorView>) -> CompiledRuleView {
    CompiledRuleView {
        id: first_id(rule.actions),
        phase: Phase::RequestBody,
        targets: rule.targets,
        operator,
        negated: rule.negated,
        transformations: seq![],
        capture: false,
        multi_match: false,
        disruptive: None,
        status: None,
        setvars: seq![],
        skip_after: None,
        msg: None,
        logdata: None,
        tags: seq![],
        severity: None,
        ctl: seq![],
        nolog: false,
        chain: seq![],
        line: rule.line,
    }
}

/// Whether what a rule inspects and tests can be evaluated, with what it tests.
pub open spec fn tests_with(
    rule: RuleView,
    loaded: Loaded,
    operator: Option<CompiledOperatorView>,
) -> bool {
    &&& targets_error(rule.targets, 0, 0) is None
    &&& match rule.operator {
        Some(op) => compiled_of(op, loaded) is Ok && operator == Some(
            compiled_of(op, loaded)->Ok_0,
        ),
        None => operator is None,
    }
}

proof fn lemma_targets_error(targets: Seq<TargetView>, id: u32, line: usize)
    requires
        targets_error(targets, 0, 0) is None,
    ensures
        targets_error(targets, id, line) is None,
    decreases targets.len(),
{
    if targets.len() > 0 {
        lemma_targets_error(targets.drop_first(), id, line);
    }
}

/// A rule compiles to what it inspects and tests, `!` and all, with what its actions
/// ask for.
pub proof fn rules_compile_to_what_they_say(
    rule: RuleView,
    loaded: Loaded,
    operator: Option<CompiledOperatorView>,
)
    requires
        tests_with(rule, loaded, operator),
    ensures
        rule_of(seq![(rule, loaded)]) == Ok::<CompiledRuleView, CompileErrorView>(
            CompiledRuleView {
                chain: seq![],
                ..with_actions(plain_rule(rule, operator), rule.actions)
            },
        ),
{
    let group = seq![(rule, loaded)];
    assert(group[0] == (rule, loaded));
    assert(group.drop_first() =~= seq![]);
    lemma_targets_error(
        rule.targets,
        crate::engine::id_or_zero(first_id(rule.actions)),
        rule.line,
    );
    assert(crate::engine::bare_rule(rule, operator) == plain_rule(rule, operator));
}

/// A chained rule compiles to a link: what it inspects and tests, `!` and all, with
/// what its own actions ask for.
pub proof fn chained_rules_compile_to_links(
    rule: RuleView,
    loaded: Loaded,
    operator: Option<CompiledOperatorView>,
    owner: u32,
)
    requires
        tests_with(rule, loaded, operator),
    ensures
        link_of(rule, loaded, owner) == Ok::<ChainLinkView, CompileErrorView>(
            link_with_actions(
                ChainLinkView {
                    targets: rule.targets,
                    operator,
                    negated: rule.negated,
                    transformations: seq![],
                    capture: false,
                    setvars: seq![],
                },
                rule.actions,
            ),
        ),
{
    let id = match first_id(rule.actions) {
        Some(n) => n,
        None => owner,
    };
    lemma_targets_error(rule.targets, id, rule.line);
}

/// The rules that follow a starter in its chain are its links, in order.
pub proof fn chains_compile_in_order(
    starter: (RuleView, Loaded),
    link: (RuleView, Loaded),
    compiled: ChainLinkView,
    rest: Seq<(RuleView, Loaded)>,
    more: Seq<ChainLinkView>,
    rule: CompiledRuleView,
)
    requires
        rule_of(seq![starter]) == Ok::<CompiledRuleView, CompileErrorView>(rule),
        link_of(link.0, link.1, crate::engine::id_or_zero(first_id(starter.0.actions))) == Ok::<
            ChainLinkView,
            CompileErrorView,
        >(compiled),
        links_of(rest, crate::engine::id_or_zero(first_id(starter.0.actions))) == Ok::<
            Seq<ChainLinkView>,
            CompileErrorView,
        >(more),
    ensures
        links_of(
            seq![link] + rest,
            crate::engine::id_or_zero(first_id(starter.0.actions)),
        ) == Ok::<Seq<ChainLinkView>, CompileErrorView>(seq![compiled] + more),
        rule_of(seq![starter] + (seq![link] + rest)) == Ok::<CompiledRuleView, CompileErrorView>(
            CompiledRuleView { chain: seq![compiled] + more, ..rule },
        ),
{
    let links = seq![link] + rest;
    assert(links.drop_first() =~= rest);
    assert(links[0] == link);
    let group = seq![starter] + links;
    assert(group.drop_first() =~= links);
    assert(group[0] == starter);
    assert(seq![starter].drop_first() =~= seq![]);
    assert(seq![starter][0] == starter);
}

/// A pattern selector that does not compile is refused, and so is an XML expression
/// that is not one of the two that are read. A target without either is accepted.
pub proof fn selectors_that_cannot_be_evaluated_are_refused(
    target: TargetView,
    rest: Seq<TargetView>,
    id: u32,
    line: usize,
)
    ensures
        ({
            let e = targets_error(seq![target] + rest, id, line);
            &&& target.selector matches Some(SelectorView::Regex(pattern)) ==> (regex_error(pattern)
                is Some ==> e is Some)
            &&& target.selector matches Some(SelectorView::XPath(x)) ==> (target.collection
                == Collection::Xml && trimmed(x) != seq!['/', '*'] && trimmed(x) != seq![
                '/',
                '/',
                '@',
                '*',
            ] ==> e is Some)
            &&& target.selector matches Some(SelectorView::Name(_)) ==> e == targets_error(
                rest,
                id,
                line,
            )
            &&& target.selector is None ==> e == targets_error(rest, id, line)
        }),
{
    reveal_strlit("/*");
    reveal_strlit("//@*");
    assert("/*"@ =~= seq!['/', '*']);
    assert("//@*"@ =~= seq!['/', '/', '@', '*']);
    let all = seq![target] + rest;
    assert(all[0] == target);
    assert(all.drop_first() =~= rest);
}

// ---------------------------------------------------------------------------
// Directives

/// Whether an action is disruptive by itself.
pub open spec fn disrupts(action: ActionView) -> Option<Disruptive> {
    match action {
        ActionView::Deny => Some(Disruptive::Deny),
        ActionView::Drop => Some(Disruptive::Drop),
        ActionView::Pass => Some(Disruptive::Pass),
        ActionView::Redirect(_) => Some(Disruptive::Redirect),
        _ => None,
    }
}

/// A default action is the last disruptive action of its directive, with the last
/// status; `pass` where there is none.
pub proof fn default_actions_are_the_last_ones(before: Seq<ActionView>, last: ActionView)
    ensures
        default_of(Seq::<ActionView>::empty()) == (Disruptive::Pass, None::<u16>),
        default_of(before + seq![last]).0 == (if disrupts(last) is Some {
            disrupts(last)->0
        } else {
            default_of(before).0
        }),
        default_of(before + seq![last]).1 == (if last is Status {
            Some(last->Status_0)
        } else {
            default_of(before).1
        }),
{
    let all = before + seq![last];
    assert(all.drop_last() =~= before);
    assert(all.last() == last);
}

/// `block` takes the default action of the phase that the rule runs in, and its
/// status unless the rule has one; where there is none, `block` is `pass`. A rule
/// that does not say `block` is left alone.
pub proof fn block_takes_the_default_of_its_phase(
    rule: CompiledRuleView,
    defaults: Map<Phase, (Disruptive, Option<u16>)>,
)
    ensures
        ({
            let after = block_resolved(rule, defaults);
            &&& rule.disruptive != Some(Disruptive::Block) ==> after == rule
            &&& rule.disruptive == Some(Disruptive::Block) && defaults.dom().contains(rule.phase)
                ==> after == (CompiledRuleView {
                disruptive: Some(defaults[rule.phase].0),
                status: if rule.status is Some {
                    rule.status
                } else {
                    defaults[rule.phase].1
                },
                ..rule
            })
            &&& rule.disruptive == Some(Disruptive::Block) && !defaults.dom().contains(rule.phase)
                ==> after == (CompiledRuleView { disruptive: Some(Disruptive::Pass), ..rule })
        }),
{
}

/// A rule without `chain` closes its chain: what the chain compiles to is added
/// behind the rules before it, or its error is. A rule with `chain` waits.
pub proof fn chains_are_closed_by_a_rule_without_chain(
    c: Compilation,
    rule: RuleView,
    loaded: Loaded,
    directive: DirectiveView,
)
    requires
        directive == DirectiveView::Rule(rule) || directive == DirectiveView::Action(rule),
    ensures
        ({
            let after = with_directive(c, directive, loaded);
            let group = c.pending + seq![(rule, loaded)];
            &&& rule.actions.contains(ActionView::Chain) ==> after == (Compilation {
                pending: group,
                ..c
            })
            &&& !rule.actions.contains(ActionView::Chain) ==> after.pending.len() == 0
                && after.set.markers == c.set.markers && after.defaults == c.defaults && match rule_of(
                group,
            ) {
                Ok(compiled) => after.set.entries == c.set.entries + seq![
                    EntryView::Rule(block_resolved(compiled, c.defaults)),
                ] && after.errors == c.errors,
                Err(e) => after.set.entries == c.set.entries && after.errors == c.errors + seq![e],
            }
        }),
{
    let group = c.pending.push((rule, loaded));
    assert(group =~= c.pending + seq![(rule, loaded)]);
    if let Ok(compiled) = rule_of(group) {
        let entry = EntryView::Rule(block_resolved(compiled, c.defaults));
        assert(c.set.entries.push(entry) =~= c.set.entries + seq![entry]);
    }
    if let Err(e) = rule_of(group) {
        assert(c.errors.push(e) =~= c.errors + seq![e]);
    }
}

/// A marker takes a position of its own, where it is found by its name; a default
/// action holds from then on for its phase alone; a signature says nothing.
pub proof fn markers_and_defaults_are_taken_in(
    c: Compilation,
    name: Seq<char>,
    phase: Phase,
    other: Phase,
    actions: Seq<ActionView>,
    loaded: Loaded,
)
    ensures
        ({
            let marked = with_directive(c, DirectiveView::Marker(name), loaded);
            let set = with_directive(c, DirectiveView::DefaultAction { phase, actions }, loaded);
            &&& marked.set.entries == c.set.entries + seq![EntryView::Marker]
            &&& marker_of(marked.set.markers, name) == Some(c.set.entries.len())
            &&& marked.errors == c.errors && marked.pending == c.pending && marked.defaults
                == c.defaults
            &&& set.set == c.set && set.errors == c.errors && set.pending == c.pending
            &&& set.defaults.dom().contains(phase) && set.defaults[phase] == default_of(actions)
            &&& other != phase ==> set.defaults.dom().contains(other) == c.defaults.dom().contains(
                other,
            ) && (c.defaults.dom().contains(other) ==> set.defaults[other] == c.defaults[other])
            &&& with_directive(c, DirectiveView::ComponentSignature(name), loaded) == c
        }),
{
    assert(c.set.entries.push(EntryView::Marker) =~= c.set.entries + seq![EntryView::Marker]);
    markers_stay_where_they_are_put(c.set.markers, name, c.set.entries.len(), name);
}

/// Directives are compiled in order.
pub proof fn directives_compile_in_order(
    before: Seq<DirectiveView>,
    last: DirectiveView,
    loaded: Seq<Loaded>,
)
    ensures
        compilation(before + seq![last], loaded) == with_directive(
            compilation(before, loaded),
            last,
            loaded[before.len() as int],
        ),
        compilation(Seq::<DirectiveView>::empty(), loaded).set.entries.len() == 0,
        compilation(Seq::<DirectiveView>::empty(), loaded).errors.len() == 0,
{
    let all = before + seq![last];
    assert(all.drop_last() =~= before);
    assert(all.last() == last);
}

/// A `skipAfter` must name a marker, and one that stands behind its rule.
pub proof fn jumps_must_lead_ahead(
    rule: CompiledRuleView,
    index: int,
    markers: Markers,
)
    ensures
        jump_error(EntryView::Rule(rule), index, markers) is None <==> (rule.skip_after is None
            || (marker_of(markers, rule.skip_after->0) matches Some(position) && position > index)),
{
}

} // verus!
