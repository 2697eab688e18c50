//! What running the rules of a phase comes to: which rules are tested, what a match
//! does, and when the phase ends in a denial.

use crate::action::CtlView;
use crate::action::RuleEngineMode;
use crate::bytes::lossy_text;
use crate::collections::macro_values;
use crate::engine::marker_of;
use crate::engine::CompiledRuleView;
use crate::engine::Disruptive;
use crate::evaluate::rule_taken;
use crate::evaluate::with_setvars;
use crate::macros::expanded;
use crate::macros::PartView;
use crate::text::trimmed;
use crate::text::unsigned_number;
use crate::transaction::excluded_targets;
use crate::transaction::fired;
use crate::transaction::ids_of;
use crate::transaction::is_passed_over;
use crate::transaction::is_switched_off;
use crate::transaction::lemma_ctls_keep_rules;
use crate::transaction::lemma_firing_keeps_rules;
use crate::transaction::match_of;
use crate::transaction::new_transaction;
use crate::transaction::phase_run;
use crate::transaction::rule_run;
use crate::transaction::run_from;
use crate::transaction::with_ctl;
use crate::transaction::with_ctls;
use crate::transaction::EngineMode;
use crate::transaction::RuleMatchView;
use crate::transaction::RuleSelectorView;
use crate::transaction::TransactionView;
use crate::collections::VariablesView;
use crate::Phase;
use crate::Verdict;
use vstd::prelude::*;

verus! {

// ---------------------------------------------------------------------------
// Modes

/// The mode that some `ctl` actions leave, in order: the last `ruleEngine` that
/// turns blocking on or off decides.
pub open spec fn mode_after(mode: EngineMode, ctls: Seq<CtlView>) -> EngineMode
    decreases ctls.len(),
{
    if ctls.len() == 0 {
        mode
    } else {
        mode_after(
            match ctls[0] {
                CtlView::RuleEngine(RuleEngineMode::On) => EngineMode::Blocking,
                CtlView::RuleEngine(RuleEngineMode::DetectionOnly) => EngineMode::DetectionOnly,
                _ => mode,
            },
            ctls.drop_first(),
        )
    }
}

proof fn lemma_ctls_front(t: TransactionView, ctls: Seq<CtlView>)
    requires
        ctls.len() > 0,
    ensures
        with_ctls(t, ctls) == with_ctls(with_ctl(t, ctls[0]), ctls.drop_first()),
    decreases ctls.len(),
{
    if ctls.len() == 1 {
        reveal_with_fuel(with_ctls, 2);
        assert(ctls.drop_last() =~= seq![]);
        assert(ctls.drop_first() =~= seq![]);
        assert(ctls.last() == ctls[0]);
    } else {
        lemma_ctls_front(t, ctls.drop_last());
        assert(ctls.drop_last().drop_first() =~= ctls.drop_first().drop_last());
        assert(ctls.drop_first().last() == ctls.last());
        assert(ctls.drop_last()[0] == ctls[0]);
    }
}

proof fn lemma_mode_after(t: TransactionView, ctls: Seq<CtlView>)
    ensures
        with_ctls(t, ctls).mode == mode_after(t.mode, ctls),
    decreases ctls.len(),
{
    if ctls.len() > 0 {
        lemma_ctls_front(t, ctls);
        lemma_mode_after(with_ctl(t, ctls[0]), ctls.drop_first());
    }
}

/// The `ctl` actions of a rule run one after the other.
pub proof fn ctls_run_in_order(t: TransactionView, first: CtlView, rest: Seq<CtlView>)
    ensures
        with_ctls(t, Seq::<CtlView>::empty()) == t,
        with_ctls(t, seq![first] + rest) == with_ctls(with_ctl(t, first), rest),
{
    let all = seq![first] + rest;
    lemma_ctls_front(t, all);
    assert(all.drop_first() =~= rest);
}

// ---------------------------------------------------------------------------
// One rule

/// Whether a rule is tested in a phase: it is of that phase, the engine is on, and
/// neither its id nor one of its tags was switched off.
pub open spec fn is_tested(t: TransactionView, rule: CompiledRuleView, phase: Phase) -> bool {
    &&& rule.phase == phase
    &&& !t.engine_off
    &&& !(rule.id is Some && t.removed_ids.contains(rule.id->0))
    &&& forall|i: int|
        0 <= i < rule.tags.len() ==> !t.removed_tags.contains(#[trigger] rule.tags[i])
}

/// Whether a rule matches in a transaction, its removed targets left out.
pub open spec fn rule_matches(t: TransactionView, rule: CompiledRuleView) -> bool {
    rule_taken(t.vars, rule, excluded_targets(t.removed_targets, rule)).1
}

/// A rule that is not tested changes nothing, and the next one follows.
pub proof fn what_is_not_tested_changes_nothing(
    t: TransactionView,
    rule: CompiledRuleView,
    phase: Phase,
    index: nat,
)
    requires
        !is_tested(t, rule, phase),
    ensures
        rule_run(t, rule, phase, index) == (t, Some(index + 1)),
{
    assert(is_passed_over(t, rule, phase));
}

proof fn lemma_tested(t: TransactionView, rule: CompiledRuleView, phase: Phase)
    ensures
        is_passed_over(t, rule, phase) == !is_tested(t, rule, phase),
{
    if is_tested(t, rule, phase) {
        assert(!is_switched_off(t, rule));
    }
}

/// A rule that is tested and does not match leaves only what its test left in the
/// variables, and the next one follows.
pub proof fn what_does_not_match_is_not_recorded(
    t: TransactionView,
    rule: CompiledRuleView,
    phase: Phase,
    index: nat,
)
    requires
        is_tested(t, rule, phase),
        !rule_matches(t, rule),
    ensures
        rule_run(t, rule, phase, index) == (
            TransactionView {
                vars: rule_taken(t.vars, rule, excluded_targets(t.removed_targets, rule)).0,
                ..t
            },
            Some(index + 1),
        ),
{
    lemma_tested(t, rule, phase);
}

/// In blocking mode a matching rule whose action is `deny`, `drop`, `redirect` or a
/// `block` that nothing resolved ends the phase with a denial, of the status it asks
/// for or 403, in its own name.
pub proof fn deny_drop_and_redirect_deny(
    t: TransactionView,
    rule: CompiledRuleView,
    phase: Phase,
    index: nat,
)
    requires
        is_tested(t, rule, phase),
        rule_matches(t, rule),
        mode_after(t.mode, rule.ctl) == EngineMode::Blocking,
        rule.disruptive == Some(Disruptive::Deny) || rule.disruptive == Some(Disruptive::Drop)
            || rule.disruptive == Some(Disruptive::Redirect) || rule.disruptive == Some(
            Disruptive::Block,
        ),
    ensures
        rule_run(t, rule, phase, index).1 is None,
        rule_run(t, rule, phase, index).0.verdict matches Verdict::Deny { status, rule_id } && (
        rule.status is Some ==> status == rule.status->0) && (rule.status is None ==> status == 403)
            && (rule.id is Some ==> rule_id == rule.id->0) && (rule.id is None ==> rule_id == 0),
{
    lemma_tested(t, rule, phase);
    lemma_fired(t, rule);
}

/// A matching rule whose action is `pass`, or that has none, does not deny; nor does
/// any rule while the engine only detects.
pub proof fn pass_and_detection_do_not_deny(
    t: TransactionView,
    rule: CompiledRuleView,
    phase: Phase,
    index: nat,
)
    requires
        rule.disruptive == Some(Disruptive::Pass) || rule.disruptive is None || mode_after(
            t.mode,
            rule.ctl,
        ) == EngineMode::DetectionOnly,
    ensures
        rule_run(t, rule, phase, index).1 is Some,
        rule_run(t, rule, phase, index).0.verdict == t.verdict,
{
    lemma_tested(t, rule, phase);
    lemma_fired(t, rule);
    lemma_firing_keeps_rules();
}

/// Where evaluation goes on after a rule that matches and does not deny: behind the
/// marker that its `skipAfter` names, or else at the next position.
pub proof fn matches_jump_behind_their_marker(
    t: TransactionView,
    rule: CompiledRuleView,
    phase: Phase,
    index: nat,
)
    requires
        is_tested(t, rule, phase),
        rule_matches(t, rule),
        rule_run(t, rule, phase, index).1 is Some,
    ensures
        rule.skip_after is None ==> rule_run(t, rule, phase, index).1 == Some(index + 1),
        rule.skip_after matches Some(name) ==> match marker_of(t.rules.markers, name) {
            Some(position) => rule_run(t, rule, phase, index).1 == Some(position + 1),
            None => rule_run(t, rule, phase, index).1 == Some(index + 1),
        },
{
    lemma_tested(t, rule, phase);
}

proof fn lemma_fired(t: TransactionView, rule: CompiledRuleView)
    ensures
        ({
            let vars = rule_taken(t.vars, rule, excluded_targets(t.removed_targets, rule)).0;
            let after = fired(TransactionView { vars, ..t }, rule);
            &&& after.mode == mode_after(t.mode, rule.ctl)
            &&& after.verdict == t.verdict
            &&& after.matches == t.matches.push(match_of(rule, vars))
            &&& after.vars == with_setvars(vars, rule.setvars)
        }),
{
    let vars = rule_taken(t.vars, rule, excluded_targets(t.removed_targets, rule)).0;
    let recorded = TransactionView {
        matches: t.matches.push(match_of(rule, vars)),
        vars: with_setvars(vars, rule.setvars),
        ..t
    };
    lemma_mode_after(recorded, rule.ctl);
    lemma_ctls_keep_rules(recorded, rule.ctl);
}

/// The text that a template expands to.
pub open spec fn text_of(template: Option<Seq<PartView>>, vars: VariablesView) -> Seq<char> {
    if template is Some {
        lossy_text(expanded(template->0, macro_values(vars)))
    } else {
        Seq::<char>::empty()
    }
}

/// A matching rule is recorded, last: its id, its tags, what its `msg` and `logdata`
/// expand to, the name of the variable that matched, and whether it logs. Then its
/// `setvar`s run. A denying rule is recorded too.
pub proof fn every_match_is_recorded(
    t: TransactionView,
    rule: CompiledRuleView,
    phase: Phase,
    index: nat,
)
    requires
        is_tested(t, rule, phase),
        rule_matches(t, rule),
    ensures
        ({
            let vars = rule_taken(t.vars, rule, excluded_targets(t.removed_targets, rule)).0;
            let after = rule_run(t, rule, phase, index).0;
            let last = after.matches.last();
            &&& after.matches.len() == t.matches.len() + 1
            &&& after.matches.drop_last() == t.matches
            &&& last.id == rule.id
            &&& last.tags == rule.tags
            &&& last.message == text_of(rule.msg, vars)
            &&& last.data == text_of(rule.logdata, vars)
            &&& last.matched_name == lossy_text(vars.matched_var_name)
            &&& last.logged == !rule.nolog
            &&& after.vars == with_setvars(vars, rule.setvars)
        }),
{
    lemma_tested(t, rule, phase);
    lemma_fired(t, rule);
    let vars = rule_taken(t.vars, rule, excluded_targets(t.removed_targets, rule)).0;
    assert(t.matches.push(match_of(rule, vars)).drop_last() =~= t.matches);
}

// ---------------------------------------------------------------------------
// Phases

/// Whether nothing from one position up to another is tested in a phase.
pub open spec fn nothing_tested(t: TransactionView, phase: Phase, from: int, to: int) -> bool {
    forall|i: int|
        from <= i < to && (#[trigger] t.rules.rule_at(i)) is Some ==> !is_tested(
            t,
            t.rules.rule_at(i)->0,
            phase,
        )
}

proof fn lemma_passes_over(t: TransactionView, phase: Phase, from: nat, to: nat)
    requires
        from <= to <= t.rules.entries.len(),
        nothing_tested(t, phase, from as int, to as int),
    ensures
        run_from(t, phase, from) == run_from(t, phase, to),
    decreases to - from,
{
    if from < to {
        if t.rules.rule_at(from as int) is Some {
            let rule = t.rules.rule_at(from as int)->0;
            what_is_not_tested_changes_nothing(t, rule, phase, from);
        }
        lemma_passes_over(t, phase, from + 1, to);
    }
}

/// A phase ends in a denial at the first rule tested in it, where that rule matches
/// in blocking mode and its action is `deny`, `drop` or `redirect`.
pub proof fn the_first_disruptive_match_ends_the_phase(
    t: TransactionView,
    phase: Phase,
    index: nat,
    rule: CompiledRuleView,
)
    requires
        t.verdict == Verdict::Allow,
        t.rules.rule_at(index as int) == Some(rule),
        nothing_tested(t, phase, 0, index as int),
        is_tested(t, rule, phase),
        rule_matches(t, rule),
        mode_after(t.mode, rule.ctl) == EngineMode::Blocking,
        rule.disruptive == Some(Disruptive::Deny) || rule.disruptive == Some(Disruptive::Drop)
            || rule.disruptive == Some(Disruptive::Redirect),
    ensures
        phase_run(t, phase).verdict == (Verdict::Deny {
            status: if rule.status is Some {
                rule.status->0
            } else {
                403
            },
            rule_id: if rule.id is Some {
                rule.id->0
            } else {
                0
            },
        }),
        phase_run(t, phase).completed == t.completed,
{
    lemma_passes_over(t, phase, 0, index);
    deny_drop_and_redirect_deny(t, rule, phase, index);
    lemma_firing_keeps_rules();
}

/// A phase goes on after a rule from where the rule leaves it, with what it left.
pub proof fn phases_go_rule_by_rule(
    t: TransactionView,
    phase: Phase,
    index: nat,
    rule: CompiledRuleView,
)
    requires
        t.verdict == Verdict::Allow,
        t.rules.jumps_forward(),
        t.rules.rule_at(index as int) == Some(rule),
        nothing_tested(t, phase, 0, index as int),
    ensures
        ({
            let (after, next) = rule_run(t, rule, phase, index);
            match next {
                None => phase_run(t, phase) == after,
                Some(n) => n > index && phase_run(t, phase) == run_from(after, phase, n),
            }
        }),
{
    lemma_passes_over(t, phase, 0, index);
    assert(crate::engine::jumps_ahead(t.rules.entries[index as int], index as int, t.rules));
}

/// A phase in which nothing is tested only completes.
pub proof fn a_phase_without_rules_completes(t: TransactionView, phase: Phase)
    requires
        t.verdict == Verdict::Allow,
        nothing_tested(t, phase, 0, t.rules.entries.len() as int),
    ensures
        phase_run(t, phase) == (TransactionView { completed: Some(phase), ..t }),
{
    lemma_passes_over(t, phase, 0, t.rules.entries.len());
}

/// A new transaction has seen nothing, allows, and has its rules and mode.
pub proof fn transactions_start_allowed(rules: crate::engine::RuleSetView, mode: EngineMode)
    ensures
        ({
            let t = new_transaction(rules, mode);
            &&& t.verdict == Verdict::Allow
            &&& t.rules == rules
            &&& t.mode == mode
            &&& t.matches.len() == 0
            &&& t.completed is None
            &&& t.body_error is None
            &&& !t.engine_off
            &&& t.vars.tx.len() == 0
            &&& forall|rule: CompiledRuleView, phase: Phase|
                rule.phase == phase ==> #[trigger] is_tested(t, rule, phase)
        }),
{
}

// ---------------------------------------------------------------------------
// Switching rules off

/// `ctl:ruleRemoveById` switches off one id, or those from a first to a last one,
/// and no others.
pub proof fn ids_are_removed_by_number(
    t: TransactionView,
    first: Seq<char>,
    last: Seq<char>,
    lo: nat,
    hi: nat,
    id: u32,
)
    requires
        unsigned_number(first) == Some(lo),
        unsigned_number(last) == Some(hi),
        lo <= hi <= u32::MAX,
        hi - lo < 100_000,
    ensures
        with_ctl(t, CtlView::RuleRemoveById(first)).removed_ids.contains(id)
            <==> t.removed_ids.contains(id) || id == lo,
        with_ctl(t, CtlView::RuleRemoveById(first + seq!['-'] + last)).removed_ids.contains(id)
            <==> t.removed_ids.contains(id) || lo <= id <= hi,
{
    let range = first + seq!['-'] + last;
    lemma_number_is_plain(first);
    lemma_number_is_plain(last);
    lemma_untrimmed(first);
    lemma_untrimmed(last);
    assert(range[0] == first[0]);
    assert(range.last() == last.last());
    lemma_untrimmed(range);
    let p = first.len() as int;
    crate::text::lemma_position_is(range, '-', p);
    assert(range.take(p) =~= first);
    assert(range.skip(p + 1) =~= last);
    crate::text::lemma_position_is(first, '-', p);
}

proof fn lemma_number_is_plain(s: Seq<char>)
    requires
        unsigned_number(s) is Some,
    ensures
        s.len() > 0,
        !crate::text::is_white(s[0]),
        !crate::text::is_white(s.last()),
        forall|i: int| 0 <= i < s.len() ==> s[i] != '-',
{
    let digits = if s[0] == '+' {
        s.skip(1)
    } else {
        s
    };
    assert(digits.last() == s.last());
    assert(crate::text::is_digit(digits[digits.len() - 1]));
    assert(crate::text::is_digit(digits[0]));
    assert forall|i: int| 0 <= i < s.len() implies s[i] != '-' by {
        if s[0] == '+' {
            if i > 0 {
                assert(crate::text::is_digit(digits[i - 1]));
            }
        } else {
            assert(crate::text::is_digit(digits[i]));
        }
    }
}

pub proof fn lemma_untrimmed(s: Seq<char>)
    requires
        s.len() > 0,
        !crate::text::is_white(s[0]),
        !crate::text::is_white(s.last()),
    ensures
        trimmed(s) == s,
{
    assert(crate::text::trimmed_start(s) == s);
    assert(crate::text::trimmed_end(s) == s);
}

/// `ctl:ruleRemoveByTag` switches off the rules with that tag and no others, and
/// `ctl:ruleEngine` sets the mode or turns the engine off.
pub proof fn tags_and_modes_are_set(t: TransactionView, tag: Seq<char>, asked: Seq<char>)
    ensures
        with_ctl(t, CtlView::RuleRemoveByTag(tag)).removed_tags.contains(asked)
            <==> t.removed_tags.contains(asked) || asked == tag,
        with_ctl(t, CtlView::RuleEngine(RuleEngineMode::Off)) == (TransactionView {
            engine_off: true,
            ..t
        }),
        with_ctl(t, CtlView::RuleEngine(RuleEngineMode::On)) == (TransactionView {
            mode: EngineMode::Blocking,
            ..t
        }),
        with_ctl(t, CtlView::RuleEngine(RuleEngineMode::DetectionOnly)) == (TransactionView {
            mode: EngineMode::DetectionOnly,
            ..t
        }),
{
}

/// `ctl:ruleRemoveTargetById` and `ctl:ruleRemoveTargetByTag` take a target away
/// from the rules that they name, and leave every other rule what it had.
pub proof fn targets_are_removed_from_the_rules_named(
    t: TransactionView,
    operand: Seq<char>,
    target: Seq<char>,
    rule: CompiledRuleView,
)
    ensures
        ({
            let before = excluded_targets(t.removed_targets, rule);
            let by_id = excluded_targets(
                with_ctl(
                    t,
                    CtlView::RuleRemoveTargetById { rule: operand, target },
                ).removed_targets,
                rule,
            );
            let by_tag = excluded_targets(
                with_ctl(
                    t,
                    CtlView::RuleRemoveTargetByTag { tag: operand, target },
                ).removed_targets,
                rule,
            );
            &&& rule.id is Some && with_ctl(
                new_transaction(t.rules, t.mode),
                CtlView::RuleRemoveById(operand),
            ).removed_ids.contains(rule.id->0) ==> by_id == before.push(target)
            &&& !(rule.id is Some && with_ctl(
                new_transaction(t.rules, t.mode),
                CtlView::RuleRemoveById(operand),
            ).removed_ids.contains(rule.id->0)) ==> by_id == before
            &&& rule.tags.contains(operand) ==> by_tag == before.push(target)
            &&& !rule.tags.contains(operand) ==> by_tag == before
        }),
{
    let by_id = t.removed_targets.push((RuleSelectorView::Id(operand), target));
    let by_tag = t.removed_targets.push((RuleSelectorView::Tag(operand), target));
    assert(by_id.drop_last() =~= t.removed_targets);
    assert(by_tag.drop_last() =~= t.removed_targets);
}

/// A range of ids that runs backwards, or over a hundred thousand of them, removes
/// none; nor does a text that is no number.
pub proof fn ranges_that_make_no_sense_remove_nothing(
    t: TransactionView,
    first: Seq<char>,
    last: Seq<char>,
    lo: nat,
    hi: nat,
    text: Seq<char>,
)
    requires
        unsigned_number(first) == Some(lo),
        unsigned_number(last) == Some(hi),
        lo > hi || hi - lo >= 100_000 || hi > u32::MAX,
        text.len() > 0 && !crate::text::is_white(text[0]) && !crate::text::is_white(text.last()),
        unsigned_number(text) is None && !text.contains('-'),
    ensures
        with_ctl(t, CtlView::RuleRemoveById(first + seq!['-'] + last)).removed_ids == t.removed_ids,
        with_ctl(t, CtlView::RuleRemoveById(text)).removed_ids == t.removed_ids,
{
    let range = first + seq!['-'] + last;
    lemma_number_is_plain(first);
    lemma_number_is_plain(last);
    lemma_untrimmed(first);
    lemma_untrimmed(last);
    assert(range[0] == first[0]);
    assert(range.last() == last.last());
    lemma_untrimmed(range);
    let p = first.len() as int;
    crate::text::lemma_position_is(range, '-', p);
    assert(range.take(p) =~= first);
    assert(range.skip(p + 1) =~= last);
    assert(with_ctl(t, CtlView::RuleRemoveById(range)).removed_ids =~= t.removed_ids);
    lemma_untrimmed(text);
    crate::text::lemma_position(text, '-');
    assert(with_ctl(t, CtlView::RuleRemoveById(text)).removed_ids =~= t.removed_ids);
}

/// The ids of the matches are reported in order, but for rules without one.
pub proof fn matched_ids_are_reported_in_order(
    before: Seq<RuleMatchView>,
    last: RuleMatchView,
)
    ensures
        ids_of(Seq::<RuleMatchView>::empty()).len() == 0,
        ids_of(before + seq![last]) == (match last.id {
            Some(id) => ids_of(before) + seq![id],
            None => ids_of(before),
        }),
{
    let all = before + seq![last];
    assert(all.drop_last() =~= before);
    assert(all.last() == last);
    if let Some(id) = last.id {
        assert(ids_of(before).push(id) =~= ids_of(before) + seq![id]);
    }
}

} // verus!
