//! Testing a rule against the variables of a transaction.
//!
//! A rule collects the values that its targets address, prepares each with its
//! transformations and tests it with its operator. The first value that
//! satisfies the operator is the one that `MATCHED_VAR` reports.

use crate::action::SetVarOp;
use crate::action::Transformation;
use crate::bytes::bytes_of;
use crate::bytes::utf8_text;
use crate::collections::inspected;
use crate::collections::macro_values;
use crate::collections::number_or_zero;
use crate::collections::tx_number_reads_back;
use crate::collections::tx_reads_what_was_written;
use crate::collections::tx_remove_keeps_names_unique;
use crate::collections::tx_unique;
use crate::collections::tx_value;
use crate::collections::tx_without;
use crate::collections::tx_write_keeps_names_unique;
use crate::collections::tx_write_leaves_other_names;
use crate::collections::tx_written;
use crate::collections::values_view;
use crate::collections::CompiledTarget;
use crate::collections::Entries;
use crate::collections::Multimap;
use crate::collections::OwnedValue;
use crate::collections::ValueView;
use crate::collections::Variables;
use crate::collections::VariablesView;
use crate::engine::ChainLink;
use crate::engine::ChainLinkView;
use crate::engine::CompiledRule;
use crate::engine::CompiledRuleView;
use crate::engine::SetVarSpec;
use crate::engine::SetVarSpecView;
use crate::macros::expanded;
use crate::macros::PartView;
use crate::macros::Template;
use crate::macros::Values;
use crate::matcher::cow_bytes;
use crate::matcher::evaluated;
use crate::matcher::CompiledOperator;
use crate::matcher::CompiledOperatorView;
use crate::rule::TargetView;
use crate::text::chars_of;
use crate::text::decimal;
use crate::text::decimal_int;
use crate::text::decimal_reads_back;
use crate::text::eq_ignore_case_str;
use crate::text::from;
use crate::text::is_digit;
use crate::text::lemma_decimal_digits;
use crate::text::lower;
use crate::text::lower_char;
use crate::text::parse_signed;
use crate::text::same_ignoring_case;
use crate::text::string_of;
use crate::text::texts;
use crate::text::trim;
use crate::text::write_decimal;
use crate::text::write_decimal_int;
use crate::transform::into_vec;
use crate::transform::transformed;
use std::borrow::Cow;
use vstd::prelude::*;
use vstd::slice::slice_to_vec;
use vstd::utf8::decode_utf8;
use vstd::utf8::encode_utf8;
use vstd::utf8::valid_utf8;

verus! {

// ---------------------------------------------------------------------------
// One test

/// One operator evaluation: what to inspect, how to prepare it, and what to
/// test it with.
pub struct Step<'a> {
    /// What to inspect.
    pub targets: &'a Vec<CompiledTarget>,
    /// The test.
    pub operator: &'a CompiledOperator,
    /// Whether the test is inverted.
    pub negated: bool,
    /// What is done to a value before the test, in order.
    pub transformations: &'a Vec<Transformation>,
    /// Whether the captures of the test are kept.
    pub capture: bool,
    /// Whether a value is tested after each transformation.
    pub multi_match: bool,
    /// Targets removed by `ctl:ruleRemoveTarget*`.
    pub excluded: &'a Vec<String>,
}

/// The view of a [`Step`].
#[verifier::ext_equal]
pub struct StepView {
    pub targets: Seq<TargetView>,
    pub operator: CompiledOperatorView,
    pub negated: bool,
    pub transformations: Seq<Transformation>,
    pub capture: bool,
    pub multi_match: bool,
    pub excluded: Seq<Seq<char>>,
}

impl<'a> DeepView for Step<'a> {
    type V = StepView;

    open spec fn deep_view(&self) -> StepView {
        StepView {
            targets: self.targets.deep_view(),
            operator: self.operator.deep_view(),
            negated: self.negated,
            transformations: self.transformations@,
            capture: self.capture,
            multi_match: self.multi_match,
            excluded: self.excluded.deep_view(),
        }
    }
}

/// A value after some transformations, in order.
pub open spec fn applied(value: Seq<u8>, transformations: Seq<Transformation>) -> Seq<u8>
    decreases transformations.len(),
{
    if transformations.len() == 0 {
        value
    } else {
        transformed(transformations.last(), applied(value, transformations.drop_last()))
    }
}

/// The forms of a value that are tested, in order. `multiMatch` tests after
/// every transformation, not only the last, so a payload that is detectable at
/// an intermediate decoding stage is still caught.
pub open spec fn candidates(
    value: Seq<u8>,
    transformations: Seq<Transformation>,
    multi_match: bool,
) -> Seq<Seq<u8>> {
    if multi_match {
        Seq::new(
            transformations.len() + 1,
            |k: int| applied(value, transformations.take(k)),
        )
    } else {
        seq![applied(value, transformations)]
    }
}

/// A value that satisfied an operator, with what the operator captured.
#[verifier::ext_equal]
pub struct HitView {
    pub value: Seq<u8>,
    pub captures: Seq<Seq<u8>>,
}

/// The first of some forms that satisfies the operator of a step.
pub open spec fn candidate_hit(step: StepView, forms: Seq<Seq<u8>>, values: Values) -> Option<
    HitView,
>
    decreases forms.len(),
{
    if forms.len() == 0 {
        None
    } else {
        let result = evaluated(step.operator, forms[0], values, step.capture);
        if result.matched != step.negated {
            Some(
                HitView {
                    value: forms[0],
                    captures: if step.capture {
                        result.captures
                    } else {
                        seq![]
                    },
                },
            )
        } else {
            candidate_hit(step, forms.drop_first(), values)
        }
    }
}

/// Whether a name is in a list, in any ASCII case.
pub open spec fn is_listed(names: Seq<Seq<char>>, name: Seq<char>) -> bool {
    exists|i: int| 0 <= i < names.len() && same_ignoring_case(name, #[trigger] names[i])
}

/// The first of some inspected values that satisfies the operator of a step,
/// under its name.
pub open spec fn first_hit(step: StepView, found: Seq<ValueView>, values: Values) -> Option<
    (Seq<char>, HitView),
>
    decreases found.len(),
{
    if found.len() == 0 {
        None
    } else {
        let hit = if is_listed(step.excluded, found[0].name) {
            None
        } else {
            candidate_hit(
                step,
                candidates(found[0].value, step.transformations, step.multi_match),
                values,
            )
        };
        match hit {
            Some(h) => Some((found[0].name, h)),
            None => first_hit(step, found.drop_first(), values),
        }
    }
}

/// `TX` with the first `n` of some groups under their numbers.
pub open spec fn numbered(tx: Entries, groups: Seq<Seq<u8>>, n: nat) -> Entries
    decreases n,
{
    if n == 0 {
        tx
    } else {
        tx_written(
            numbered(tx, groups, (n - 1) as nat),
            decimal((n - 1) as nat),
            groups[n - 1],
        )
    }
}

/// `TX` after a capture. Captures land in `TX:0` through `TX:9`.
pub open spec fn with_captures(tx: Entries, groups: Seq<Seq<u8>>) -> Entries {
    numbered(
        tx,
        groups,
        if groups.len() < 10 {
            groups.len()
        } else {
            10
        },
    )
}

/// What a step leaves: the variables, with its captures in `TX`, and the value
/// that satisfied its operator.
pub open spec fn step_taken(vars: VariablesView, step: StepView) -> (
    VariablesView,
    Option<ValueView>,
) {
    match first_hit(step, inspected(vars, step.targets), macro_values(vars)) {
        None => (vars, None),
        Some((name, hit)) => (
            VariablesView { tx: with_captures(vars.tx, hit.captures), ..vars },
            Some(ValueView { name, value: hit.value }),
        ),
    }
}

fn prepare(value: &[u8], transformations: &Vec<Transformation>, multi_match: bool) -> (r: Vec<
    Vec<u8>,
>)
    ensures
        texts(r@) == candidates(value@, transformations@, multi_match),
{
    let mut out: Vec<Vec<u8>> = Vec::new();
    let mut current = slice_to_vec(value);
    let mut i: usize = 0;
    let ghost all = candidates(value@, transformations@, true);
    assert(transformations@.take(0) =~= seq![]);
    if multi_match {
        out.push(slice_to_vec(current.as_slice()));
    }
    assert(multi_match ==> texts(out@) =~= all.take(1));
    while i < transformations.len()
        invariant
            i <= transformations@.len(),
            all == candidates(value@, transformations@, true),
            current@ == applied(value@, transformations@.take(i as int)),
            multi_match ==> texts(out@) == all.take(i + 1),
            !multi_match ==> out@.len() == 0,
        decreases transformations@.len() - i,
    {
        let ghost done = texts(out@);
        assert(transformations@.take(i + 1).drop_last() =~= transformations@.take(i as int));
        assert(transformations@.take(i + 1).last() == transformations@[i as int]);
        current = into_vec(transformations[i].apply(current.as_slice()));
        if multi_match {
            out.push(slice_to_vec(current.as_slice()));
            assert(texts(out@) =~= done.push(current@));
            assert(all[i + 1] == current@);
            assert(texts(out@) =~= all.take(i + 2));
        }
        i += 1;
    }
    assert(transformations@.take(i as int) =~= transformations@);
    if multi_match {
        assert(all.take(i + 1) =~= all);
    } else {
        let ghost last = current@;
        out.push(current);
        assert(texts(out@) =~= seq![last]);
    }
    out
}

fn is_excluded(names: &Vec<String>, name: &str) -> (r: bool)
    ensures
        r == is_listed(names.deep_view(), name@),
{
    let mut i: usize = 0;
    while i < names.len()
        invariant
            i <= names@.len(),
            forall|k: int|
                0 <= k < i ==> !same_ignoring_case(name@, #[trigger] names.deep_view()[k]),
        decreases names@.len() - i,
    {
        assert(names.deep_view()[i as int] == names@[i as int]@);
        if eq_ignore_case_str(name, names[i].as_str()) {
            return true;
        }
        i += 1;
    }
    false
}

/// The first of some forms that satisfies the operator of a step, with what the
/// operator captured.
fn test_forms(step: &Step<'_>, forms: Vec<Vec<u8>>, vars: &Variables) -> (r: Option<
    (Vec<u8>, Vec<Vec<u8>>),
>)
    ensures
        (match r {
            Some((value, captures)) => candidate_hit(
                step.deep_view(),
                texts(forms@),
                macro_values(vars.deep_view()),
            ) == Some(HitView { value: value@, captures: texts(captures@) }),
            None => candidate_hit(
                step.deep_view(),
                texts(forms@),
                macro_values(vars.deep_view()),
            ) is None,
        }),
{
    let ghost all = texts(forms@);
    let ghost values: Values = macro_values(vars.deep_view());
    let mut i: usize = 0;
    assert(all.skip(0) =~= all);
    while i < forms.len()
        invariant
            i <= forms@.len(),
            all == texts(forms@),
            values == macro_values(vars.deep_view()),
            candidate_hit(step.deep_view(), all, values) == candidate_hit(
                step.deep_view(),
                all.skip(i as int),
                values,
            ),
        decreases forms@.len() - i,
    {
        assert(all.skip(i as int)[0] == forms@[i as int]@);
        assert(all.skip(i as int).drop_first() =~= all.skip(i + 1));
        let result = step.operator.evaluate(forms[i].as_slice(), vars, step.capture);
        if result.matched != step.negated {
            let value = slice_to_vec(forms[i].as_slice());
            let captures: Vec<Vec<u8>> = if step.capture {
                result.captures
            } else {
                Vec::new()
            };
            assert(!step.capture ==> texts(captures@) =~= seq![]);
            return Some((value, captures));
        }
        i += 1;
    }
    None
}

fn text_of(name: &Cow<'_, str>) -> (r: String)
    ensures
        r@ == name@,
{
    match name {
        Cow::Borrowed(s) => (*s).to_string(),
        Cow::Owned(s) => s.clone(),
    }
}

/// The first value that satisfies a step, with what its operator captured.
fn find_hit(step: &Step<'_>, vars: &Variables) -> (r: Option<(OwnedValue, Vec<Vec<u8>>)>)
    ensures
        (match r {
            Some((value, captures)) => first_hit(
                step.deep_view(),
                inspected(vars.deep_view(), step.deep_view().targets),
                macro_values(vars.deep_view()),
            ) == Some(
                (value.name@, HitView { value: value.value@, captures: texts(captures@) }),
            ),
            None => first_hit(
                step.deep_view(),
                inspected(vars.deep_view(), step.deep_view().targets),
                macro_values(vars.deep_view()),
            ) is None,
        }),
{
    let found = vars.resolve(step.targets.as_slice());
    let ghost all = values_view(found@);
    let ghost values: Values = macro_values(vars.deep_view());
    let mut i: usize = 0;
    assert(all.skip(0) =~= all);
    while i < found.len()
        invariant
            i <= found@.len(),
            all == values_view(found@),
            all == inspected(vars.deep_view(), step.deep_view().targets),
            values == macro_values(vars.deep_view()),
            first_hit(step.deep_view(), all, values) == first_hit(
                step.deep_view(),
                all.skip(i as int),
                values,
            ),
        decreases found@.len() - i,
    {
        assert(all.skip(i as int)[0] == found@[i as int].deep_view());
        assert(all.skip(i as int).drop_first() =~= all.skip(i + 1));
        let name = text_of(&found[i].name);
        if !is_excluded(step.excluded, name.as_str()) {
            let forms = prepare(
                cow_bytes(&found[i].value),
                step.transformations,
                step.multi_match,
            );
            if let Some((value, captures)) = test_forms(step, forms, vars) {
                return Some((OwnedValue { name, value }, captures));
            }
        }
        i += 1;
    }
    None
}

fn store_captures(vars: &mut Variables, groups: &Vec<Vec<u8>>)
    ensures
        final(vars).deep_view() == (VariablesView {
            tx: with_captures(old(vars).deep_view().tx, texts(groups@)),
            ..old(vars).deep_view()
        }),
{
    let ghost start = vars.deep_view();
    let limit: usize = if groups.len() < 10 {
        groups.len()
    } else {
        10
    };
    let mut i: usize = 0;
    while i < limit
        invariant
            i <= limit <= groups@.len(),
            vars.deep_view() == (VariablesView {
                tx: numbered(start.tx, texts(groups@), i as nat),
                ..start
            }),
        decreases limit - i,
    {
        let number = write_decimal(i as u64);
        vars.tx_set(number.as_str(), slice_to_vec(groups[i].as_slice()));
        assert(vars.deep_view() =~= (VariablesView {
            tx: numbered(start.tx, texts(groups@), (i + 1) as nat),
            ..start
        }));
        i += 1;
    }
}

/// Apply transformations to each target value and test the operator.
///
/// Returns the first value that satisfied the operator, which is what
/// `MATCHED_VAR` reports.
pub fn evaluate_step(vars: &mut Variables, step: &Step<'_>) -> (r: Option<OwnedValue>)
    ensures
        (final(vars).deep_view(), r.deep_view()) == step_taken(
            old(vars).deep_view(),
            step.deep_view(),
        ),
{
    match find_hit(step, vars) {
        Some((hit, captures)) => {
            store_captures(vars, &captures);
            Some(hit)
        },
        None => None,
    }
}

// ---------------------------------------------------------------------------
// Writing variables

/// The name that a `setvar` writes: without its `tx.`, which names the
/// collection and is not part of the variable name.
pub open spec fn setvar_name(name: Seq<char>) -> Seq<char> {
    if name.len() >= 3 && (name.take(3) == seq!['t', 'x', '.'] || name.take(3) == seq![
        'T',
        'X',
        '.',
    ]) {
        name.skip(3)
    } else {
        name
    }
}

/// The operand of a `setvar`, which is 1 where none is written.
pub open spec fn setvar_operand(value: Option<Seq<PartView>>, values: Values) -> Seq<u8> {
    match value {
        Some(template) => expanded(template, values),
        None => seq!['1' as u8],
    }
}

/// A sum or difference kept within the 64-bit range.
pub open spec fn kept_in_range(n: int) -> int {
    if n > i64::MAX {
        i64::MAX as int
    } else if n < i64::MIN {
        i64::MIN as int
    } else {
        n
    }
}

/// The variables after one `setvar`. A name that does not expand to text writes
/// nothing.
pub open spec fn with_setvar(vars: VariablesView, spec_: SetVarSpecView) -> VariablesView {
    let raw = expanded(spec_.name, macro_values(vars));
    if !valid_utf8(raw) {
        vars
    } else {
        let name = setvar_name(decode_utf8(raw));
        let operand = setvar_operand(spec_.value, macro_values(vars));
        let current = number_or_zero(tx_value(vars.tx, name));
        let delta = number_or_zero(Some(operand));
        VariablesView {
            tx: match spec_.op {
                SetVarOp::Delete => tx_without(vars.tx, name),
                SetVarOp::Assign => tx_written(vars.tx, name, operand),
                SetVarOp::Add => tx_written(
                    vars.tx,
                    name,
                    encode_utf8(decimal_int(kept_in_range(current + delta))),
                ),
                SetVarOp::Subtract => tx_written(
                    vars.tx,
                    name,
                    encode_utf8(decimal_int(kept_in_range(current - delta))),
                ),
            },
            ..vars
        }
    }
}

/// The variables after some `setvar`s, in order.
pub open spec fn with_setvars(vars: VariablesView, specs: Seq<SetVarSpecView>) -> VariablesView
    decreases specs.len(),
{
    if specs.len() == 0 {
        vars
    } else {
        with_setvar(with_setvars(vars, specs.drop_last()), specs.last())
    }
}

fn written_name(name: &str) -> (r: String)
    ensures
        r@ == setvar_name(name@),
{
    let chars = chars_of(name);
    let s = chars.as_slice();
    if s.len() >= 3 {
        let lower = s[0] == 't' && s[1] == 'x' && s[2] == '.';
        let upper = s[0] == 'T' && s[1] == 'X' && s[2] == '.';
        assert(lower <==> s@.take(3) =~= seq!['t', 'x', '.']);
        assert(upper <==> s@.take(3) =~= seq!['T', 'X', '.']);
        if lower || upper {
            return string_of(from(s, 3));
        }
    }
    name.to_string()
}

fn operand_bytes(value: &Option<Template>, vars: &Variables) -> (r: Vec<u8>)
    ensures
        r@ == setvar_operand(value.deep_view(), macro_values(vars.deep_view())),
{
    match value {
        Some(template) => into_vec(template.expand(vars)),
        None => {
            let mut one: Vec<u8> = Vec::new();
            one.push('1' as u8);
            assert(one@ =~= seq!['1' as u8]);
            one
        },
    }
}

fn number_in(bytes: &[u8]) -> (r: i64)
    ensures
        r == number_or_zero(Some(bytes@)),
{
    match utf8_text(bytes) {
        None => 0,
        Some(text) => {
            let chars = chars_of(text.as_str());
            match parse_signed(trim(chars.as_slice())) {
                Some(n) => n,
                None => 0,
            }
        },
    }
}

fn sum_in_range(a: i64, b: i64) -> (r: i64)
    ensures
        r == kept_in_range(a + b),
{
    let sum: i128 = a as i128 + b as i128;
    if sum > i64::MAX as i128 {
        i64::MAX
    } else if sum < i64::MIN as i128 {
        i64::MIN
    } else {
        sum as i64
    }
}

fn difference_in_range(a: i64, b: i64) -> (r: i64)
    ensures
        r == kept_in_range(a - b),
{
    let difference: i128 = a as i128 - b as i128;
    if difference > i64::MAX as i128 {
        i64::MAX
    } else if difference < i64::MIN as i128 {
        i64::MIN
    } else {
        difference as i64
    }
}

fn apply_setvar(vars: &mut Variables, spec_: &SetVarSpec)
    ensures
        final(vars).deep_view() == with_setvar(old(vars).deep_view(), spec_.deep_view()),
{
    let raw = into_vec(spec_.name.expand(vars));
    let text = match utf8_text(raw.as_slice()) {
        Some(text) => text,
        None => {
            return;
        },
    };
    let name = written_name(text.as_str());
    match spec_.op {
        SetVarOp::Delete => vars.tx_remove(name.as_str()),
        SetVarOp::Assign => {
            let value = operand_bytes(&spec_.value, vars);
            vars.tx_set(name.as_str(), value);
        },
        SetVarOp::Add => {
            let operand = operand_bytes(&spec_.value, vars);
            let delta = number_in(operand.as_slice());
            let updated = sum_in_range(vars.tx_number(name.as_str()), delta);
            vars.tx_set(name.as_str(), bytes_of(write_decimal_int(updated).as_str()));
        },
        SetVarOp::Subtract => {
            let operand = operand_bytes(&spec_.value, vars);
            let delta = number_in(operand.as_slice());
            let updated = difference_in_range(vars.tx_number(name.as_str()), delta);
            vars.tx_set(name.as_str(), bytes_of(write_decimal_int(updated).as_str()));
        },
    }
}

/// Run `setvar:` actions, in order.
pub fn apply_setvars(vars: &mut Variables, specs: &Vec<SetVarSpec>)
    ensures
        final(vars).deep_view() == with_setvars(old(vars).deep_view(), specs.deep_view()),
{
    let ghost start = vars.deep_view();
    let ghost all = specs.deep_view();
    let mut i: usize = 0;
    assert(all.take(0) =~= seq![]);
    while i < specs.len()
        invariant
            i <= specs@.len(),
            all == specs.deep_view(),
            vars.deep_view() == with_setvars(start, all.take(i as int)),
        decreases specs@.len() - i,
    {
        assert(all.take(i + 1).drop_last() =~= all.take(i as int));
        assert(all.take(i + 1).last() == specs@[i as int].deep_view());
        apply_setvar(vars, &specs[i]);
        i += 1;
    }
    assert(all.take(i as int) =~= all);
}

// ---------------------------------------------------------------------------
// Rules and chains

/// The variables after a value satisfied an operator.
pub open spec fn with_match(vars: VariablesView, hit: ValueView) -> VariablesView {
    VariablesView {
        matched_var: hit.value,
        matched_var_name: encode_utf8(hit.name),
        matched_vars: vars.matched_vars.push((hit.name, hit.value)),
        ..vars
    }
}

/// The variables as a rule starts with them: nothing has matched in it yet.
pub open spec fn nothing_matched(vars: VariablesView) -> VariablesView {
    VariablesView { matched_vars: seq![], ..vars }
}

/// The step that a link of a chain takes.
pub open spec fn link_step(link: ChainLinkView, operator: CompiledOperatorView) -> StepView {
    StepView {
        targets: link.targets,
        operator,
        negated: link.negated,
        transformations: link.transformations,
        capture: link.capture,
        multi_match: false,
        excluded: seq![],
    }
}

/// What a link of a chain leaves: the variables, and whether it matched. A link
/// without an operator always matches.
pub open spec fn link_taken(vars: VariablesView, link: ChainLinkView) -> (VariablesView, bool) {
    match link.operator {
        None => (with_setvars(vars, link.setvars), true),
        Some(operator) => {
            let (after, hit) = step_taken(vars, link_step(link, operator));
            match hit {
                None => (after, false),
                Some(value) => (with_setvars(with_match(after, value), link.setvars), true),
            }
        },
    }
}

/// What the links of a chain leave. The first that does not match ends it.
pub open spec fn links_taken(vars: VariablesView, links: Seq<ChainLinkView>) -> (
    VariablesView,
    bool,
)
    decreases links.len(),
{
    if links.len() == 0 {
        (vars, true)
    } else {
        let (after, matched) = link_taken(vars, links[0]);
        if matched {
            links_taken(after, links.drop_first())
        } else {
            (after, false)
        }
    }
}

/// The step that the starter of a rule takes.
pub open spec fn rule_step(
    rule: CompiledRuleView,
    operator: CompiledOperatorView,
    excluded: Seq<Seq<char>>,
) -> StepView {
    StepView {
        targets: rule.targets,
        operator,
        negated: rule.negated,
        transformations: rule.transformations,
        capture: rule.capture,
        multi_match: rule.multi_match,
        excluded,
    }
}

/// What evaluating a rule leaves: the variables, and whether the rule matched,
/// every link of its chain included. The starter of a rule with no operator, as
/// `SecAction` is, always matches.
pub open spec fn rule_taken(
    vars: VariablesView,
    rule: CompiledRuleView,
    excluded: Seq<Seq<char>>,
) -> (VariablesView, bool) {
    let start = nothing_matched(vars);
    match rule.operator {
        None => links_taken(start, rule.chain),
        Some(operator) => {
            let (after, hit) = step_taken(start, rule_step(rule, operator, excluded));
            match hit {
                None => (after, false),
                Some(value) => links_taken(with_match(after, value), rule.chain),
            }
        },
    }
}

fn set_matched(vars: &mut Variables, hit: &OwnedValue)
    ensures
        final(vars).deep_view() == with_match(old(vars).deep_view(), hit.deep_view()),
{
    let ghost start = vars.deep_view();
    vars.matched_var = slice_to_vec(hit.value.as_slice());
    vars.matched_var_name = bytes_of(hit.name.as_str());
    vars.matched_vars.push(hit.name.as_str(), hit.value.as_slice());
    assert(vars.deep_view() =~= with_match(start, hit.deep_view()));
}

fn evaluate_link(vars: &mut Variables, link: &ChainLink) -> (r: bool)
    ensures
        (final(vars).deep_view(), r) == link_taken(old(vars).deep_view(), link.deep_view()),
{
    match &link.operator {
        None => {
            apply_setvars(vars, &link.setvars);
            true
        },
        Some(operator) => {
            let excluded: Vec<String> = Vec::new();
            let step = Step {
                targets: &link.targets,
                operator,
                negated: link.negated,
                transformations: &link.transformations,
                capture: link.capture,
                multi_match: false,
                excluded: &excluded,
            };
            assert(step.deep_view() =~= link_step(link.deep_view(), operator.deep_view()));
            match evaluate_step(vars, &step) {
                None => false,
                Some(hit) => {
                    set_matched(vars, &hit);
                    apply_setvars(vars, &link.setvars);
                    true
                },
            }
        },
    }
}

/// Evaluate a rule, including every link of its chain. Each value that satisfies
/// an operator of the rule is noted in `MATCHED_VARS`.
pub fn evaluate_rule(vars: &mut Variables, rule: &CompiledRule, excluded: &Vec<String>) -> (r: bool)
    ensures
        (final(vars).deep_view(), r) == rule_taken(
            old(vars).deep_view(),
            rule.deep_view(),
            excluded.deep_view(),
        ),
{
    let ghost given = vars.deep_view();
    vars.matched_vars = Multimap::default();
    assert(vars.deep_view() =~= nothing_matched(given));
    if let Some(operator) = &rule.operator {
        let step = Step {
            targets: &rule.targets,
            operator,
            negated: rule.negated,
            transformations: &rule.transformations,
            capture: rule.capture,
            multi_match: rule.multi_match,
            excluded,
        };
        assert(step.deep_view() =~= rule_step(
            rule.deep_view(),
            operator.deep_view(),
            excluded.deep_view(),
        ));
        match evaluate_step(vars, &step) {
            Some(hit) => set_matched(vars, &hit),
            None => {
                return false;
            },
        }
    }
    let ghost entered = vars.deep_view();
    let ghost all = rule.chain.deep_view();
    let mut i: usize = 0;
    assert(all.skip(0) =~= all);
    while i < rule.chain.len()
        invariant
            i <= rule.chain@.len(),
            all == rule.chain.deep_view(),
            links_taken(entered, all) == links_taken(vars.deep_view(), all.skip(i as int)),
            rule_taken(old(vars).deep_view(), rule.deep_view(), excluded.deep_view())
                == links_taken(entered, all),
        decreases rule.chain@.len() - i,
    {
        assert(all.skip(i as int)[0] == rule.chain@[i as int].deep_view());
        assert(all.skip(i as int).drop_first() =~= all.skip(i + 1));
        if !evaluate_link(vars, &rule.chain[i]) {
            return false;
        }
        i += 1;
    }
    true
}

// ---------------------------------------------------------------------------
// Laws

/// Whether variables differ in nothing but `TX` and what matched last.
pub open spec fn request_is_kept(before: VariablesView, after: VariablesView) -> bool {
    after == VariablesView {
        tx: after.tx,
        matched_var: after.matched_var,
        matched_var_name: after.matched_var_name,
        matched_vars: after.matched_vars,
        ..before
    }
}

/// `setvar` writes `TX` and nothing else.
pub proof fn setvars_write_only_tx(vars: VariablesView, specs: Seq<SetVarSpecView>)
    ensures
        with_setvars(vars, specs) == (VariablesView { tx: with_setvars(vars, specs).tx, ..vars }),
    decreases specs.len(),
{
    if specs.len() > 0 {
        setvars_write_only_tx(vars, specs.drop_last());
    }
}

proof fn lemma_links_keep_the_request(vars: VariablesView, links: Seq<ChainLinkView>)
    ensures
        request_is_kept(vars, links_taken(vars, links).0),
    decreases links.len(),
{
    if links.len() > 0 {
        let link = links[0];
        let (after, matched) = link_taken(vars, link);
        match link.operator {
            None => {
                setvars_write_only_tx(vars, link.setvars);
            },
            Some(operator) => {
                let (stepped, hit) = step_taken(vars, link_step(link, operator));
                if let Some(value) = hit {
                    setvars_write_only_tx(with_match(stepped, value), link.setvars);
                }
            },
        }
        assert(request_is_kept(vars, after));
        if matched {
            lemma_links_keep_the_request(after, links.drop_first());
        }
    }
}

/// Evaluating a rule leaves the request and the response as they are: it writes
/// `TX` and what matched, nothing else.
pub proof fn rules_keep_the_request(
    vars: VariablesView,
    rule: CompiledRuleView,
    excluded: Seq<Seq<char>>,
)
    ensures
        request_is_kept(vars, rule_taken(vars, rule, excluded).0),
{
    let start = nothing_matched(vars);
    match rule.operator {
        None => {
            lemma_links_keep_the_request(start, rule.chain);
        },
        Some(operator) => {
            let (after, hit) = step_taken(start, rule_step(rule, operator, excluded));
            if let Some(value) = hit {
                lemma_links_keep_the_request(with_match(after, value), rule.chain);
            }
        },
    }
}

proof fn lemma_numbered_unique(tx: Entries, groups: Seq<Seq<u8>>, n: nat)
    requires
        tx_unique(tx),
    ensures
        tx_unique(numbered(tx, groups, n)),
    decreases n,
{
    if n > 0 {
        lemma_numbered_unique(tx, groups, (n - 1) as nat);
        tx_write_keeps_names_unique(
            numbered(tx, groups, (n - 1) as nat),
            decimal((n - 1) as nat),
            groups[n - 1],
        );
    }
}

/// `setvar` keeps the names in `TX` unique.
pub proof fn setvars_keep_names_unique(vars: VariablesView, specs: Seq<SetVarSpecView>)
    requires
        tx_unique(vars.tx),
    ensures
        tx_unique(with_setvars(vars, specs).tx),
    decreases specs.len(),
{
    if specs.len() > 0 {
        setvars_keep_names_unique(vars, specs.drop_last());
        let before = with_setvars(vars, specs.drop_last());
        let s = specs.last();
        let raw = expanded(s.name, macro_values(before));
        let name = setvar_name(decode_utf8(raw));
        let operand = setvar_operand(s.value, macro_values(before));
        let current = number_or_zero(tx_value(before.tx, name));
        let delta = number_or_zero(Some(operand));
        tx_remove_keeps_names_unique(before.tx, name);
        tx_write_keeps_names_unique(before.tx, name, operand);
        tx_write_keeps_names_unique(
            before.tx,
            name,
            encode_utf8(decimal_int(kept_in_range(current + delta))),
        );
        tx_write_keeps_names_unique(
            before.tx,
            name,
            encode_utf8(decimal_int(kept_in_range(current - delta))),
        );
    }
}

proof fn lemma_step_unique(vars: VariablesView, step: StepView)
    requires
        tx_unique(vars.tx),
    ensures
        tx_unique(step_taken(vars, step).0.tx),
{
    if let Some((_, hit)) = first_hit(step, inspected(vars, step.targets), macro_values(vars)) {
        lemma_numbered_unique(
            vars.tx,
            hit.captures,
            if hit.captures.len() < 10 {
                hit.captures.len()
            } else {
                10
            },
        );
    }
}

proof fn lemma_links_unique(vars: VariablesView, links: Seq<ChainLinkView>)
    requires
        tx_unique(vars.tx),
    ensures
        tx_unique(links_taken(vars, links).0.tx),
    decreases links.len(),
{
    if links.len() > 0 {
        let link = links[0];
        let (after, matched) = link_taken(vars, link);
        match link.operator {
            None => {
                setvars_keep_names_unique(vars, link.setvars);
            },
            Some(operator) => {
                lemma_step_unique(vars, link_step(link, operator));
                let (stepped, hit) = step_taken(vars, link_step(link, operator));
                if let Some(value) = hit {
                    setvars_keep_names_unique(with_match(stepped, value), link.setvars);
                }
            },
        }
        if matched {
            lemma_links_unique(after, links.drop_first());
        }
    }
}

/// Evaluating a rule keeps the names in `TX` unique.
pub proof fn rules_keep_names_unique(
    vars: VariablesView,
    rule: CompiledRuleView,
    excluded: Seq<Seq<char>>,
)
    requires
        tx_unique(vars.tx),
    ensures
        tx_unique(rule_taken(vars, rule, excluded).0.tx),
{
    let start = nothing_matched(vars);
    match rule.operator {
        None => {
            lemma_links_unique(start, rule.chain);
        },
        Some(operator) => {
            lemma_step_unique(start, rule_step(rule, operator, excluded));
            let (after, hit) = step_taken(start, rule_step(rule, operator, excluded));
            if let Some(value) = hit {
                lemma_links_unique(with_match(after, value), rule.chain);
            }
        },
    }
}

/// Every link of a chain must match: a chain matches if and only if each link
/// does, tested on what the links before it left.
pub proof fn chains_match_as_a_whole(vars: VariablesView, links: Seq<ChainLinkView>)
    ensures
        links_taken(vars, links).1 <==> forall|i: int|
            0 <= i < links.len() ==> (#[trigger] link_taken(
                links_taken(vars, links.take(i)).0,
                links[i],
            )).1,
    decreases links.len(),
{
    if links.len() > 0 {
        let rest = links.drop_first();
        let (after, matched) = link_taken(vars, links[0]);
        assert(links.take(0) =~= seq![]);
        if matched {
            chains_match_as_a_whole(after, rest);
            assert forall|i: int| 0 <= i < rest.len() implies links_taken(after, rest.take(i))
                == links_taken(vars, #[trigger] links.take(i + 1)) && rest[i] == links[i + 1] by {
                assert(links.take(i + 1).drop_first() =~= rest.take(i));
                assert(links.take(i + 1)[0] == links[0]);
            }
            if links_taken(vars, links).1 {
                assert forall|i: int| 0 <= i < links.len() implies (#[trigger] link_taken(
                    links_taken(vars, links.take(i)).0,
                    links[i],
                )).1 by {
                    if i > 0 {
                        assert(links.take(i - 1 + 1) =~= links.take(i));
                        assert(link_taken(links_taken(after, rest.take(i - 1)).0, rest[i - 1]).1);
                    }
                }
            } else {
                let i = choose|i: int|
                    0 <= i < rest.len() && !(#[trigger] link_taken(
                        links_taken(after, rest.take(i)).0,
                        rest[i],
                    )).1;
                assert(!link_taken(links_taken(vars, links.take(i + 1)).0, links[i + 1]).1);
            }
        } else {
            assert(!link_taken(links_taken(vars, links.take(0)).0, links[0]).1);
        }
    }
}

/// `MATCHED_VARS` is of the current rule: what matched in rules before it makes
/// no difference to a rule.
pub proof fn earlier_matches_are_not_seen(
    vars: VariablesView,
    earlier: Entries,
    rule: CompiledRuleView,
    excluded: Seq<Seq<char>>,
)
    ensures
        rule_taken(VariablesView { matched_vars: earlier, ..vars }, rule, excluded) == rule_taken(
            vars,
            rule,
            excluded,
        ),
{
    assert(nothing_matched(VariablesView { matched_vars: earlier, ..vars }) =~= nothing_matched(
        vars,
    ));
}

/// Scores accumulate: after `setvar:tx.score=+n` the score reads as the sum of
/// what it was and `n`, kept within the 64-bit range. A subtraction does the
/// same with the difference.
pub proof fn scores_accumulate(vars: VariablesView, s: SetVarSpecView)
    requires
        valid_utf8(expanded(s.name, macro_values(vars))),
    ensures
        ({
            let name = setvar_name(decode_utf8(expanded(s.name, macro_values(vars))));
            let before = number_or_zero(tx_value(vars.tx, name));
            let after = number_or_zero(tx_value(with_setvar(vars, s).tx, name));
            let n = number_or_zero(Some(setvar_operand(s.value, macro_values(vars))));
            &&& s.op == SetVarOp::Add ==> after == kept_in_range(before + n)
            &&& s.op == SetVarOp::Subtract ==> after == kept_in_range(before - n)
        }),
{
    let name = setvar_name(decode_utf8(expanded(s.name, macro_values(vars))));
    let before = number_or_zero(tx_value(vars.tx, name));
    let n = number_or_zero(Some(setvar_operand(s.value, macro_values(vars))));
    tx_number_reads_back(vars.tx, name, kept_in_range(before + n) as i64);
    tx_number_reads_back(vars.tx, name, kept_in_range(before - n) as i64);
}

pub proof fn lemma_candidate_hit(step: StepView, forms: Seq<Seq<u8>>, values: Values)
    ensures
        candidate_hit(step, forms, values) is Some <==> exists|k: int|
            0 <= k < forms.len() && evaluated(
                step.operator,
                #[trigger] forms[k],
                values,
                step.capture,
            ).matched != step.negated,
    decreases forms.len(),
{
    if forms.len() > 0 {
        let rest = forms.drop_first();
        lemma_candidate_hit(step, rest, values);
        if evaluated(step.operator, forms[0], values, step.capture).matched == step.negated {
            if candidate_hit(step, rest, values) is Some {
                let k = choose|k: int|
                    0 <= k < rest.len() && evaluated(
                        step.operator,
                        #[trigger] rest[k],
                        values,
                        step.capture,
                    ).matched != step.negated;
                assert(forms[k + 1] == rest[k]);
            }
            if exists|k: int|
                0 <= k < forms.len() && evaluated(
                    step.operator,
                    #[trigger] forms[k],
                    values,
                    step.capture,
                ).matched != step.negated {
                let k = choose|k: int|
                    0 <= k < forms.len() && evaluated(
                        step.operator,
                        #[trigger] forms[k],
                        values,
                        step.capture,
                    ).matched != step.negated;
                assert(rest[k - 1] == forms[k]);
            }
        }
    }
}

/// `multiMatch` misses nothing: what a rule matches without it, it matches with
/// it.
pub proof fn multi_match_misses_nothing(step: StepView, found: Seq<ValueView>, values: Values)
    requires
        first_hit(StepView { multi_match: false, ..step }, found, values) is Some,
    ensures
        first_hit(StepView { multi_match: true, ..step }, found, values) is Some,
    decreases found.len(),
{
    let plain = StepView { multi_match: false, ..step };
    let multi = StepView { multi_match: true, ..step };
    let value = found[0].value;
    let last = candidates(value, step.transformations, false);
    let all = candidates(value, step.transformations, true);
    lemma_candidate_hit(plain, last, values);
    lemma_candidate_hit(multi, all, values);
    if !is_listed(step.excluded, found[0].name) && candidate_hit(plain, last, values) is Some {
        let n = step.transformations.len() as int;
        assert(step.transformations.take(n) =~= step.transformations);
        assert(all[n] == last[0]);
        assert(candidate_hit(multi, all, values) is Some);
    } else {
        multi_match_misses_nothing(step, found.drop_first(), values);
    }
}

/// A value whose target was removed from a rule never is what the rule matches.
pub proof fn removed_targets_are_not_matched(
    step: StepView,
    found: Seq<ValueView>,
    values: Values,
)
    ensures
        first_hit(step, found, values) matches Some((name, _)) ==> !is_listed(step.excluded, name)
            && exists|i: int| 0 <= i < found.len() && (#[trigger] found[i]).name == name,
    decreases found.len(),
{
    if found.len() > 0 {
        removed_targets_are_not_matched(step, found.drop_first(), values);
        if let Some((name, _)) = first_hit(step, found, values) {
            if found[0].name != name {
                let rest = found.drop_first();
                let i = choose|i: int| 0 <= i < rest.len() && (#[trigger] rest[i]).name == name;
                assert(found[i + 1] == rest[i]);
            }
        }
    }
}

proof fn lemma_numbers_differ(i: nat, j: nat)
    requires
        i != j,
    ensures
        !same_ignoring_case(decimal(i), decimal(j)),
{
    decimal_reads_back(i as int);
    decimal_reads_back(j as int);
    lemma_decimal_digits(i);
    lemma_decimal_digits(j);
    assert(lower(decimal(i)) =~= decimal(i)) by {
        assert forall|k: int| 0 <= k < decimal(i).len() implies lower_char(decimal(i)[k])
            == decimal(i)[k] by {
            assert(is_digit(decimal(i)[k]));
        }
    }
    assert(lower(decimal(j)) =~= decimal(j)) by {
        assert forall|k: int| 0 <= k < decimal(j).len() implies lower_char(decimal(j)[k])
            == decimal(j)[k] by {
            assert(is_digit(decimal(j)[k]));
        }
    }
}

proof fn lemma_numbered_reads(tx: Entries, groups: Seq<Seq<u8>>, n: nat, i: nat)
    requires
        i < n,
    ensures
        tx_value(numbered(tx, groups, n), decimal(i)) == Some(groups[i as int]),
    decreases n,
{
    let before = numbered(tx, groups, (n - 1) as nat);
    if i == n - 1 {
        tx_reads_what_was_written(before, decimal(i), groups[i as int], decimal(i));
    } else {
        lemma_numbered_reads(tx, groups, (n - 1) as nat, i);
        lemma_numbers_differ((n - 1) as nat, i);
        tx_write_leaves_other_names(before, decimal((n - 1) as nat), groups[n - 1], decimal(i));
    }
}

/// The captures of a match are read by their numbers, the whole match as `TX:0`.
pub proof fn captures_are_read_by_number(tx: Entries, groups: Seq<Seq<u8>>, i: nat)
    requires
        i < groups.len(),
        i < 10,
    ensures
        tx_value(with_captures(tx, groups), decimal(i)) == Some(groups[i as int]),
{
    lemma_numbered_reads(
        tx,
        groups,
        if groups.len() < 10 {
            groups.len()
        } else {
            10
        },
        i,
    );
}

} // verus!
