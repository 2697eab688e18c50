//! When a rule matches, and what a match leaves: the value that satisfied the
//! operator, the captures, and the variables that `setvar` writes.

use crate::action::SetVarOp;
use crate::collections::inspected;
use crate::collections::macro_values;
use crate::collections::number_or_zero;
use crate::collections::tx_reads_what_was_written;
use crate::collections::tx_remove_removes_one_name;
use crate::collections::tx_value;
use crate::collections::tx_write_leaves_other_names;
use crate::collections::Entries;
use crate::collections::ValueView;
use crate::collections::VariablesView;
use crate::engine::ChainLinkView;
use crate::engine::CompiledRuleView;
use crate::engine::SetVarSpecView;
use crate::evaluate::applied;
use crate::evaluate::candidate_hit;
use crate::evaluate::candidates;
use crate::evaluate::captures_are_read_by_number;
use crate::evaluate::first_hit;
use crate::evaluate::is_listed;
use crate::evaluate::lemma_candidate_hit;
use crate::evaluate::link_step;
use crate::evaluate::link_taken;
use crate::evaluate::links_taken;
use crate::evaluate::nothing_matched;
use crate::evaluate::numbered;
use crate::evaluate::rule_step;
use crate::evaluate::rule_taken;
use crate::evaluate::scores_accumulate;
use crate::evaluate::setvar_name;
use crate::evaluate::step_taken;
use crate::evaluate::with_captures;
use crate::evaluate::with_match;
use crate::evaluate::with_setvar;
use crate::evaluate::with_setvars;
use crate::evaluate::StepView;
use crate::laws::targets::names_are_compared_by_their_letters;
use crate::laws::targets::reads_the_same;
use crate::macros::expanded;
use crate::macros::Values;
use crate::matcher::evaluated;
use crate::matcher::CompiledOperatorView;
use crate::text::decimal;
use crate::text::trimmed;
use vstd::prelude::*;
use vstd::utf8::decode_utf8;
use vstd::utf8::encode_utf8;
use vstd::utf8::valid_utf8;

verus! {

// ---------------------------------------------------------------------------
// Matching

/// Whether an operator is satisfied by a value. Written with `!`, it is satisfied
/// by what it does not match.
pub open spec fn satisfies(
    operator: CompiledOperatorView,
    negated: bool,
    value: Seq<u8>,
    vars: VariablesView,
    capture: bool,
) -> bool {
    if negated {
        !evaluated(operator, value, macro_values(vars), capture).matched
    } else {
        evaluated(operator, value, macro_values(vars), capture).matched
    }
}

/// Whether a list names a text, in either case.
pub open spec fn lists(names: Seq<Seq<char>>, name: Seq<char>) -> bool {
    exists|i: int| 0 <= i < names.len() && reads_the_same(name, #[trigger] names[i])
}

proof fn lemma_lists(names: Seq<Seq<char>>, name: Seq<char>)
    ensures
        is_listed(names, name) == lists(names, name),
{
    assert forall|i: int| 0 <= i < names.len() implies crate::text::same_ignoring_case(
        name,
        #[trigger] names[i],
    ) == reads_the_same(name, names[i]) by {
        names_are_compared_by_their_letters(name, names[i]);
    }
    if is_listed(names, name) {
        let i = choose|i: int|
            0 <= i < names.len() && crate::text::same_ignoring_case(name, #[trigger] names[i]);
        assert(reads_the_same(name, names[i]));
    }
    if lists(names, name) {
        let i = choose|i: int| 0 <= i < names.len() && reads_the_same(name, #[trigger] names[i]);
        assert(crate::text::same_ignoring_case(name, names[i]));
    }
}

/// Whether a value satisfies a step, in the form that its transformations leave it
/// in, or with `multiMatch` in any form on the way.
pub open spec fn satisfies_step(step: StepView, found: ValueView, vars: VariablesView) -> bool {
    !lists(step.excluded, found.name) && exists|k: int|
        0 <= k <= step.transformations.len() && (step.multi_match || k
            == step.transformations.len()) && satisfies(
            step.operator,
            step.negated,
            #[trigger] applied(found.value, step.transformations.take(k)),
            vars,
            step.capture,
        )
}

proof fn lemma_satisfies_step(step: StepView, found: ValueView, vars: VariablesView)
    ensures
        satisfies_step(step, found, vars) <==> !is_listed(step.excluded, found.name)
            && candidate_hit(
            step,
            candidates(found.value, step.transformations, step.multi_match),
            macro_values(vars),
        ) is Some,
{
    let ts = step.transformations;
    let n = ts.len() as int;
    let forms = candidates(found.value, ts, step.multi_match);
    lemma_lists(step.excluded, found.name);
    lemma_candidate_hit(step, forms, macro_values(vars));
    assert(ts.take(n) =~= ts);
    if candidate_hit(step, forms, macro_values(vars)) is Some {
        let k = choose|k: int|
            0 <= k < forms.len() && evaluated(
                step.operator,
                #[trigger] forms[k],
                macro_values(vars),
                step.capture,
            ).matched != step.negated;
        let j = if step.multi_match {
            k
        } else {
            n
        };
        assert(forms[k] == applied(found.value, ts.take(j)));
    }
    if satisfies_step(step, found, vars) {
        let k = choose|k: int|
            0 <= k <= n && (step.multi_match || k == n) && satisfies(
                step.operator,
                step.negated,
                #[trigger] applied(found.value, ts.take(k)),
                vars,
                step.capture,
            );
        let j = if step.multi_match {
            k
        } else {
            0
        };
        assert(forms[j] == applied(found.value, ts.take(k)));
    }
}

proof fn lemma_first_hit(step: StepView, found: Seq<ValueView>, vars: VariablesView)
    ensures
        first_hit(step, found, macro_values(vars)) is Some <==> exists|i: int|
            0 <= i < found.len() && satisfies_step(step, #[trigger] found[i], vars),
        first_hit(step, found, macro_values(vars)) matches Some((name, hit)) ==> exists|i: int|
            is_first_match(step, found, vars, i) && (#[trigger] found[i]).name == name
                && candidate_hit(
                step,
                candidates(found[i].value, step.transformations, step.multi_match),
                macro_values(vars),
            ) == Some(hit),
    decreases found.len(),
{
    if found.len() > 0 {
        let rest = found.drop_first();
        let values = macro_values(vars);
        lemma_first_hit(step, rest, vars);
        lemma_satisfies_step(step, found[0], vars);
        if satisfies_step(step, found[0], vars) {
            assert(is_first_match(step, found, vars, 0));
        } else {
            if first_hit(step, found, values) is Some {
                let (name, hit) = first_hit(step, rest, values)->0;
                let i = choose|i: int|
                    is_first_match(step, rest, vars, i) && (#[trigger] rest[i]).name == name
                        && candidate_hit(
                        step,
                        candidates(rest[i].value, step.transformations, step.multi_match),
                        values,
                    ) == Some(hit);
                assert(found[i + 1] == rest[i]);
                assert forall|j: int| 0 <= j < i + 1 implies !satisfies_step(
                    step,
                    #[trigger] found[j],
                    vars,
                ) by {
                    if j > 0 {
                        assert(found[j] == rest[j - 1]);
                    }
                }
                assert(is_first_match(step, found, vars, i + 1));
            }
            if exists|i: int|
                0 <= i < found.len() && satisfies_step(step, #[trigger] found[i], vars) {
                let i = choose|i: int|
                    0 <= i < found.len() && satisfies_step(step, #[trigger] found[i], vars);
                assert(rest[i - 1] == found[i]);
            }
        }
    }
}

/// Whether the value at `i` is the first that satisfies a step.
pub open spec fn is_first_match(
    step: StepView,
    found: Seq<ValueView>,
    vars: VariablesView,
    i: int,
) -> bool {
    &&& 0 <= i < found.len()
    &&& satisfies_step(step, found[i], vars)
    &&& forall|j: int| 0 <= j < i ==> !satisfies_step(step, #[trigger] found[j], vars)
}

/// A link of a chain matches if and only if some value that its targets address, in
/// the form that its own transformations leave it in, satisfies its operator;
/// written with `!`, if and only if some such value does not.
pub proof fn links_match_by_their_values(
    vars: VariablesView,
    link: ChainLinkView,
    operator: CompiledOperatorView,
)
    requires
        link.operator == Some(operator),
    ensures
        !link.negated ==> (link_taken(vars, link).1 <==> exists|i: int|
            0 <= i < inspected(vars, link.targets).len() && evaluated(
                operator,
                applied(
                    (#[trigger] inspected(vars, link.targets)[i]).value,
                    link.transformations,
                ),
                macro_values(vars),
                link.capture,
            ).matched),
        link.negated ==> (link_taken(vars, link).1 <==> exists|i: int|
            0 <= i < inspected(vars, link.targets).len() && !evaluated(
                operator,
                applied(
                    (#[trigger] inspected(vars, link.targets)[i]).value,
                    link.transformations,
                ),
                macro_values(vars),
                link.capture,
            ).matched),
{
    let found = inspected(vars, link.targets);
    let step = link_step(link, operator);
    lemma_first_hit(step, found, vars);
    assert forall|i: int| 0 <= i < found.len() implies satisfies_step(
        step,
        #[trigger] found[i],
        vars,
    ) == (evaluated(
        operator,
        applied(found[i].value, link.transformations),
        macro_values(vars),
        link.capture,
    ).matched != link.negated) by {
        lemma_plain_step(step, found[i], vars);
    }
    if link_taken(vars, link).1 {
        let i = choose|i: int| 0 <= i < found.len() && satisfies_step(step, #[trigger] found[i], vars);
        assert(evaluated(
            operator,
            applied(found[i].value, link.transformations),
            macro_values(vars),
            link.capture,
        ).matched != link.negated);
    } else {
        assert forall|i: int| 0 <= i < found.len() implies evaluated(
            operator,
            applied((#[trigger] found[i]).value, link.transformations),
            macro_values(vars),
            link.capture,
        ).matched == link.negated by {
            assert(!satisfies_step(step, found[i], vars));
        }
    }
}

proof fn lemma_plain_step(step: StepView, found: ValueView, vars: VariablesView)
    requires
        !step.multi_match,
        step.excluded.len() == 0,
    ensures
        satisfies_step(step, found, vars) == (evaluated(
            step.operator,
            applied(found.value, step.transformations),
            macro_values(vars),
            step.capture,
        ).matched != step.negated),
{
    let n = step.transformations.len() as int;
    assert(step.transformations.take(n) =~= step.transformations);
    assert(!lists(step.excluded, found.name));
    if evaluated(
        step.operator,
        applied(found.value, step.transformations),
        macro_values(vars),
        step.capture,
    ).matched != step.negated {
        assert(satisfies(
            step.operator,
            step.negated,
            applied(found.value, step.transformations.take(n)),
            vars,
            step.capture,
        ));
    }
}

/// A link without an operator always matches.
pub proof fn a_link_without_operator_matches(vars: VariablesView, link: ChainLinkView)
    requires
        link.operator is None,
    ensures
        link_taken(vars, link).1,
        link_taken(vars, link).0 == with_setvars(vars, link.setvars),
{
}

/// Whether the starter of a rule matches: some value that its targets address, and
/// that no `ctl` took away from it, satisfies its operator in the form that its
/// transformations leave it in, or with `multiMatch` in any form on the way.
pub open spec fn starter_matches(
    vars: VariablesView,
    rule: CompiledRuleView,
    excluded: Seq<Seq<char>>,
) -> bool {
    rule.operator matches Some(operator) ==> exists|i: int|
        0 <= i < inspected(vars, rule.targets).len() && value_matches(
            vars,
            rule,
            operator,
            excluded,
            #[trigger] inspected(vars, rule.targets)[i],
        )
}

/// Whether a value satisfies the operator of a rule.
pub open spec fn value_matches(
    vars: VariablesView,
    rule: CompiledRuleView,
    operator: CompiledOperatorView,
    excluded: Seq<Seq<char>>,
    found: ValueView,
) -> bool {
    !lists(excluded, found.name) && if rule.multi_match {
        exists|k: int|
            0 <= k <= rule.transformations.len() && satisfies(
                operator,
                rule.negated,
                #[trigger] applied(found.value, rule.transformations.take(k)),
                vars,
                rule.capture,
            )
    } else {
        satisfies(
            operator,
            rule.negated,
            applied(found.value, rule.transformations),
            vars,
            rule.capture,
        )
    }
}

proof fn lemma_value_matches(
    vars: VariablesView,
    rule: CompiledRuleView,
    operator: CompiledOperatorView,
    excluded: Seq<Seq<char>>,
    found: ValueView,
)
    ensures
        satisfies_step(rule_step(rule, operator, excluded), found, vars) == value_matches(
            vars,
            rule,
            operator,
            excluded,
            found,
        ),
{
    let step = rule_step(rule, operator, excluded);
    let ts = rule.transformations;
    let n = ts.len() as int;
    assert(ts.take(n) =~= ts);
    assert(step.transformations == ts && step.operator == operator && step.negated == rule.negated
        && step.capture == rule.capture && step.multi_match == rule.multi_match && step.excluded
        == excluded);
    if value_matches(vars, rule, operator, excluded, found) {
        let k = if rule.multi_match {
            choose|k: int|
                0 <= k <= n && satisfies(
                    operator,
                    rule.negated,
                    #[trigger] applied(found.value, ts.take(k)),
                    vars,
                    rule.capture,
                )
        } else {
            n
        };
        assert(satisfies(
            step.operator,
            step.negated,
            applied(found.value, step.transformations.take(k)),
            vars,
            step.capture,
        ));
    }
    if satisfies_step(step, found, vars) {
        let k = choose|k: int|
            0 <= k <= n && (step.multi_match || k == n) && satisfies(
                step.operator,
                step.negated,
                #[trigger] applied(found.value, step.transformations.take(k)),
                vars,
                step.capture,
            );
        assert(satisfies(
            operator,
            rule.negated,
            applied(found.value, ts.take(k)),
            vars,
            rule.capture,
        ));
    }
}

/// A rule without a chain matches if and only if its starter does.
pub proof fn rules_match_by_their_values(
    vars: VariablesView,
    rule: CompiledRuleView,
    excluded: Seq<Seq<char>>,
)
    ensures
        rule.chain.len() == 0 ==> (rule_taken(vars, rule, excluded).1 <==> starter_matches(
            VariablesView { matched_vars: seq![], ..vars },
            rule,
            excluded,
        )),
        rule_taken(vars, rule, excluded).1 ==> starter_matches(
            VariablesView { matched_vars: seq![], ..vars },
            rule,
            excluded,
        ),
{
    let start = VariablesView { matched_vars: seq![], ..vars };
    assert(nothing_matched(vars) == start);
    if let Some(operator) = rule.operator {
        let found = inspected(start, rule.targets);
        let step = rule_step(rule, operator, excluded);
        lemma_first_hit(step, found, start);
        assert forall|i: int| 0 <= i < found.len() implies satisfies_step(
            step,
            #[trigger] found[i],
            start,
        ) == value_matches(start, rule, operator, excluded, found[i]) by {
            lemma_value_matches(start, rule, operator, excluded, found[i]);
        }
        if first_hit(step, found, macro_values(start)) is Some {
            let i = choose|i: int|
                0 <= i < found.len() && satisfies_step(step, #[trigger] found[i], start);
            assert(value_matches(start, rule, operator, excluded, found[i]));
        } else if starter_matches(start, rule, excluded) {
            let i = choose|i: int|
                0 <= i < found.len() && value_matches(
                    start,
                    rule,
                    operator,
                    excluded,
                    #[trigger] found[i],
                );
            assert(satisfies_step(step, found[i], start));
        }
    }
}

// ---------------------------------------------------------------------------
// What a match leaves

/// What the first value that satisfies a link leaves: `MATCHED_VAR` is the value in
/// the form that satisfied it, `MATCHED_VAR_NAME` its name, and `MATCHED_VARS` one
/// more; a link that does not match changes nothing.
pub proof fn links_report_the_first_match(
    vars: VariablesView,
    link: ChainLinkView,
    operator: CompiledOperatorView,
)
    requires
        link.operator == Some(operator),
        link.setvars.len() == 0,
    ensures
        ({
            let (after, matched) = link_taken(vars, link);
            let found = inspected(vars, link.targets);
            &&& !matched ==> after == vars
            &&& matched ==> exists|i: int|
                {
                    &&& is_first_match(link_step(link, operator), found, vars, i)
                    &&& after.matched_var == applied(
                        (#[trigger] found[i]).value,
                        link.transformations,
                    )
                    &&& after.matched_var_name == encode_utf8(found[i].name)
                    &&& after.matched_vars == vars.matched_vars.push(
                        (found[i].name, after.matched_var),
                    )
                }
        }),
{
    let found = inspected(vars, link.targets);
    let step = link_step(link, operator);
    lemma_first_hit(step, found, vars);
    if link_taken(vars, link).1 {
        let (name, hit) = first_hit(step, found, macro_values(vars))->0;
        let i = choose|i: int|
            is_first_match(step, found, vars, i) && (#[trigger] found[i]).name == name
                && candidate_hit(
                step,
                candidates(found[i].value, step.transformations, step.multi_match),
                macro_values(vars),
            ) == Some(hit);
        let forms = candidates(found[i].value, step.transformations, step.multi_match);
        assert(forms =~= seq![applied(found[i].value, link.transformations)]);
        reveal_with_fuel(candidate_hit, 2);
        assert(forms.drop_first() =~= seq![]);
        assert(hit.value == applied(found[i].value, link.transformations));
    }
}

/// A rule that captures leaves what its operator captured in `TX:0` to `TX:9`; one
/// that does not capture leaves `TX` as it was.
pub proof fn captures_are_left_in_tx(vars: VariablesView, step: StepView, n: nat)
    requires
        step_taken(vars, step).1 is Some,
    ensures
        !step.capture ==> step_taken(vars, step).0 == vars,
        step.capture && n < 10 ==> ({
            let value = step_taken(vars, step).1->0.value;
            let groups = evaluated(step.operator, value, macro_values(vars), true).captures;
            n < groups.len() ==> tx_value(step_taken(vars, step).0.tx, decimal(n)) == Some(
                groups[n as int],
            )
        }),
{
    let found = inspected(vars, step.targets);
    lemma_first_hit(step, found, vars);
    let (name, hit) = first_hit(step, found, macro_values(vars))->0;
    let i = choose|i: int|
        is_first_match(step, found, vars, i) && (#[trigger] found[i]).name == name
            && candidate_hit(
            step,
            candidates(found[i].value, step.transformations, step.multi_match),
            macro_values(vars),
        ) == Some(hit);
    lemma_hit_captures(
        step,
        candidates(found[i].value, step.transformations, step.multi_match),
        macro_values(vars),
    );
    if step.capture {
        if n < 10 && n < hit.captures.len() {
            captures_are_read_by_number(vars.tx, hit.captures, n);
        }
    } else {
        assert(hit.captures =~= seq![]);
    }
}

proof fn lemma_hit_captures(step: StepView, forms: Seq<Seq<u8>>, values: Values)
    ensures
        candidate_hit(step, forms, values) matches Some(hit) ==> hit.captures == if step.capture {
            evaluated(step.operator, hit.value, values, true).captures
        } else {
            seq![]
        },
    decreases forms.len(),
{
    if forms.len() > 0 {
        lemma_hit_captures(step, forms.drop_first(), values);
    }
}

/// A rule whose starter matches hands its chain what the match left; one whose
/// starter does not match leaves the variables as it started with them.
pub proof fn the_chain_follows_the_starter(
    vars: VariablesView,
    rule: CompiledRuleView,
    excluded: Seq<Seq<char>>,
    operator: CompiledOperatorView,
)
    requires
        rule.operator == Some(operator),
    ensures
        ({
            let start = VariablesView { matched_vars: seq![], ..vars };
            let (after, hit) = step_taken(start, rule_step(rule, operator, excluded));
            match hit {
                Some(value) => rule_taken(vars, rule, excluded) == links_taken(
                    VariablesView {
                        matched_var: value.value,
                        matched_var_name: encode_utf8(value.name),
                        matched_vars: seq![(value.name, value.value)],
                        ..after
                    },
                    rule.chain,
                ),
                None => rule_taken(vars, rule, excluded) == (start, false),
            }
        }),
{
    let start = VariablesView { matched_vars: seq![], ..vars };
    assert(nothing_matched(vars) == start);
    let (after, hit) = step_taken(start, rule_step(rule, operator, excluded));
    if let Some(value) = hit {
        assert(with_match(after, value).matched_vars =~= seq![(value.name, value.value)]);
        assert(with_match(after, value) =~= VariablesView {
            matched_var: value.value,
            matched_var_name: encode_utf8(value.name),
            matched_vars: seq![(value.name, value.value)],
            ..after
        });
    }
}

// ---------------------------------------------------------------------------
// Variables that rules write

/// The `setvar`s of a rule run one after the other.
pub proof fn setvars_run_in_order(
    vars: VariablesView,
    a: Seq<SetVarSpecView>,
    b: Seq<SetVarSpecView>,
    one: SetVarSpecView,
)
    ensures
        with_setvars(vars, Seq::<SetVarSpecView>::empty()) == vars,
        with_setvars(vars, seq![one]) == with_setvar(vars, one),
        with_setvars(vars, a + b) == with_setvars(with_setvars(vars, a), b),
    decreases b.len(),
{
    reveal_with_fuel(with_setvars, 2);
    assert(seq![one].drop_last() =~= seq![]);
    if b.len() == 0 {
        assert(a + b =~= a);
    } else {
        setvars_run_in_order(vars, a, b.drop_last(), one);
        assert((a + b).drop_last() =~= a + b.drop_last());
        assert((a + b).last() == b.last());
    }
}

/// The variable that a `setvar` names: what stands behind `tx.`, where that is
/// written.
pub open spec fn is_named(text: Seq<char>, name: Seq<char>) -> bool {
    ||| text == seq!['t', 'x', '.'] + name
    ||| text == seq!['T', 'X', '.'] + name
    ||| text == name && !(text.len() >= 3 && (text.take(3) == seq!['t', 'x', '.'] || text.take(3)
        == seq!['T', 'X', '.']))
}

/// `setvar:tx.name=value` leaves the variable with what the value expands to, or
/// with 1 where none is written; `setvar:!tx.name` leaves none. In either case every
/// other variable reads as before.
pub proof fn assignments_are_read_back(
    vars: VariablesView,
    s: SetVarSpecView,
    name: Seq<char>,
    asked: Seq<char>,
)
    requires
        valid_utf8(expanded(s.name, macro_values(vars))),
        is_named(decode_utf8(expanded(s.name, macro_values(vars))), name),
    ensures
        ({
            let after = with_setvar(vars, s).tx;
            &&& s.op == SetVarOp::Assign && reads_the_same(name, asked) ==> tx_value(after, asked)
                == Some(
                match s.value {
                    Some(value) => expanded(value, macro_values(vars)),
                    None => seq!['1' as u8],
                },
            )
            &&& s.op == SetVarOp::Delete && reads_the_same(name, asked) ==> tx_value(after, asked)
                is None
            &&& !reads_the_same(name, asked) ==> tx_value(after, asked) == tx_value(vars.tx, asked)
        }),
{
    let text = decode_utf8(expanded(s.name, macro_values(vars)));
    if text == seq!['t', 'x', '.'] + name {
        assert(text.take(3) =~= seq!['t', 'x', '.']);
        assert(text.skip(3) =~= name);
    } else if text == seq!['T', 'X', '.'] + name {
        assert(text.take(3) =~= seq!['T', 'X', '.']);
        assert(text.skip(3) =~= name);
    }
    assert(setvar_name(text) == name);
    names_are_compared_by_their_letters(name, asked);
    let after = with_setvar(vars, s).tx;
    if s.op == SetVarOp::Delete {
        tx_remove_removes_one_name(vars.tx, name, asked);
    } else {
        let value = crate::evaluate::setvar_operand(s.value, macro_values(vars));
        let delta = crate::collections::number_or_zero(Some(value));
        let current = crate::collections::number_or_zero(tx_value(vars.tx, name));
        let written = if s.op == SetVarOp::Assign {
            value
        } else if s.op == SetVarOp::Add {
            encode_utf8(
                crate::text::decimal_int(crate::evaluate::kept_in_range(current + delta)),
            )
        } else {
            encode_utf8(
                crate::text::decimal_int(crate::evaluate::kept_in_range(current - delta)),
            )
        };
        if reads_the_same(name, asked) {
            tx_reads_what_was_written(vars.tx, name, written, asked);
        } else {
            tx_write_leaves_other_names(vars.tx, name, written, asked);
        }
    }
}

/// What `setvar:tx.score=+n` adds, and `=-n` takes away, is exact as long as 64 bits
/// hold it, and stops at the largest or smallest number that they hold.
pub proof fn sums_are_exact(vars: VariablesView, s: SetVarSpecView)
    requires
        valid_utf8(expanded(s.name, macro_values(vars))),
    ensures
        ({
            let name = setvar_name(decode_utf8(expanded(s.name, macro_values(vars))));
            let before = number_or_zero(tx_value(vars.tx, name)) as int;
            let after = number_or_zero(tx_value(with_setvar(vars, s).tx, name)) as int;
            let n = match s.value {
                Some(value) => number_or_zero(Some(expanded(value, macro_values(vars)))) as int,
                None => 1,
            };
            let sum = if s.op == SetVarOp::Add {
                before + n
            } else {
                before - n
            };
            s.op == SetVarOp::Add || s.op == SetVarOp::Subtract ==> {
                &&& i64::MIN <= sum <= i64::MAX ==> after == sum
                &&& sum > i64::MAX ==> after == i64::MAX
                &&& sum < i64::MIN ==> after == i64::MIN
            }
        }),
{
    scores_accumulate(vars, s);
    if s.value is None {
        let one = seq!['1' as u8];
        let text = seq!['1'];
        assert(encode_utf8(text) =~= one) by {
            assert(vstd::utf8::is_ascii_chars(text));
            vstd::utf8::is_ascii_chars_encode_utf8(text);
        }
        vstd::utf8::encode_utf8_valid_utf8(text);
        vstd::utf8::encode_utf8_decode_utf8(text);
        crate::laws::phases::lemma_untrimmed(text);
        crate::text::decimal_reads_back(1);
        assert(crate::text::decimal_int(1) =~= text);
    }
}

/// A link that matches runs its `setvar`s on what the match left; one that does not
/// match runs none.
pub proof fn links_write_their_variables(vars: VariablesView, link: ChainLinkView)
    ensures
        ({
            let (after, matched) = link_taken(vars, ChainLinkView { setvars: seq![], ..link });
            link_taken(vars, link) == if matched {
                (with_setvars(after, link.setvars), true)
            } else {
                (after, false)
            }
        }),
{
    let silent = ChainLinkView { setvars: seq![], ..link };
    if let Some(operator) = link.operator {
        assert(link_step(silent, operator) == link_step(link, operator));
    }
}

/// A link that captures leaves what its operator captured; one that does not leaves
/// `TX` to its `setvar`s.
pub proof fn links_capture(
    vars: VariablesView,
    link: ChainLinkView,
    operator: CompiledOperatorView,
    n: nat,
)
    requires
        link.operator == Some(operator),
        link.setvars.len() == 0,
        link_taken(vars, link).1,
    ensures
        !link.capture ==> link_taken(vars, link).0.tx == vars.tx,
        link.capture && n < 10 ==> ({
            let after = link_taken(vars, link).0;
            let groups = evaluated(
                operator,
                after.matched_var,
                macro_values(vars),
                true,
            ).captures;
            n < groups.len() ==> tx_value(after.tx, decimal(n)) == Some(groups[n as int])
        }),
{
    captures_are_left_in_tx(vars, link_step(link, operator), n);
}

/// The links of a chain are tested one after the other, each on what the one before
/// left, up to the first that does not match.
pub proof fn links_are_tested_in_order(
    vars: VariablesView,
    link: ChainLinkView,
    rest: Seq<ChainLinkView>,
)
    ensures
        links_taken(vars, Seq::<ChainLinkView>::empty()) == (vars, true),
        link_taken(vars, link).1 ==> links_taken(vars, seq![link] + rest) == links_taken(
            link_taken(vars, link).0,
            rest,
        ),
        !link_taken(vars, link).1 ==> links_taken(vars, seq![link] + rest) == (
            link_taken(vars, link).0,
            false,
        ),
{
    let all = seq![link] + rest;
    assert(all[0] == link);
    assert(all.drop_first() =~= rest);
}

/// A rule without an operator goes straight to its chain.
pub proof fn a_rule_without_operator_matches(
    vars: VariablesView,
    rule: CompiledRuleView,
    excluded: Seq<Seq<char>>,
)
    requires
        rule.operator is None,
    ensures
        rule_taken(vars, rule, excluded) == links_taken(
            VariablesView { matched_vars: seq![], ..vars },
            rule.chain,
        ),
{
    assert(nothing_matched(vars) == VariablesView { matched_vars: seq![], ..vars });
}

/// Captures are written under the numbers below ten and nowhere else.
pub proof fn captures_leave_other_names(tx: Entries, groups: Seq<Seq<u8>>, name: Seq<char>)
    requires
        forall|i: int| 0 <= i < 10 ==> !reads_the_same(#[trigger] decimal(i as nat), name),
    ensures
        tx_value(with_captures(tx, groups), name) == tx_value(tx, name),
{
    lemma_numbered_leaves(
        tx,
        groups,
        if groups.len() < 10 {
            groups.len()
        } else {
            10
        },
        name,
    );
}

proof fn lemma_numbered_leaves(tx: Entries, groups: Seq<Seq<u8>>, n: nat, name: Seq<char>)
    requires
        n <= 10,
        forall|i: int| 0 <= i < 10 ==> !reads_the_same(#[trigger] decimal(i as nat), name),
    ensures
        tx_value(numbered(tx, groups, n), name) == tx_value(tx, name),
    decreases n,
{
    if n > 0 {
        let less = (n - 1) as nat;
        lemma_numbered_leaves(tx, groups, less, name);
        assert(!reads_the_same(decimal((n - 1) as nat), name));
        names_are_compared_by_their_letters(decimal(less), name);
        tx_write_leaves_other_names(numbered(tx, groups, less), decimal(less), groups[n - 1], name);
    }
}

/// A variable reads as the number that it writes in decimal, white space around it
/// taken off, and as 0 where there is none.
pub proof fn variables_read_as_numbers(n: i64)
    ensures
        number_or_zero(Some(encode_utf8(crate::text::decimal_int(n as int)))) == n,
        number_or_zero(None) == 0,
        number_or_zero(Some(Seq::<u8>::empty())) == 0,
{
    let text = crate::text::decimal_int(n as int);
    vstd::utf8::encode_utf8_valid_utf8(text);
    vstd::utf8::encode_utf8_decode_utf8(text);
    crate::text::lemma_decimal_is_plain(n as int);
    crate::laws::phases::lemma_untrimmed(text);
    crate::text::decimal_reads_back(n as int);
    let none = Seq::<char>::empty();
    assert(encode_utf8(none) =~= seq![]);
    vstd::utf8::encode_utf8_valid_utf8(none);
    vstd::utf8::encode_utf8_decode_utf8(none);
    assert(trimmed(none) =~= none);
}

} // verus!
