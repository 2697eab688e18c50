//! What each operator matches, stated over the subject and the operand as they are
//! written.

use crate::bytes::lower_byte;
use crate::bytes::lower_bytes;
use crate::bytes::occurs_at;
use crate::bytes::occurs_in;
use crate::injection::sqli_verdict;
use crate::injection::xss_verdict;
use crate::laws::transformations::is_digit_in;
use crate::laws::transformations::lemma_digit;
use crate::laws::transformations::lemma_no_digit;
use crate::macros::expanded;
use crate::macros::expanded_part;
use crate::macros::literal_part;
use crate::macros::parts_from;
use crate::macros::starts_macro;
use crate::macros::template_of;
use crate::macros::PartView;
use crate::macros::Values;
use crate::pattern::any_phrase_in;
use crate::matcher::byte_table;
use crate::matcher::compiled_of;
use crate::matcher::evaluated;
use crate::matcher::in_byte_ranges;
use crate::matcher::integer_of;
use crate::matcher::number_prefix;
use crate::matcher::pm_matches_what_holds_a_phrase;
use crate::matcher::pm_phrases;
use crate::matcher::shortest;
use crate::matcher::CompiledOperatorView;
use crate::matcher::OperatorCompileErrorView;
use crate::operator::NumericView;
use crate::operator::OperatorView;
use crate::pattern::regex_groups;
use crate::pattern::regex_matches;
use crate::text::all_digits;
use crate::text::decimal_int;
use crate::text::decimal_reads_back;
use crate::text::is_digit;
use crate::text::is_white;
use crate::text::leading_digits;
use crate::text::lemma_decimal_digits;
use crate::text::lemma_decimal_is_plain;
use crate::text::trimmed;
use vstd::prelude::*;
use vstd::utf8::decode_utf8;
use vstd::utf8::decode_utf8_encode_utf8;
use vstd::utf8::encode_utf8;
use vstd::utf8::encode_utf8_decode_utf8;
use vstd::utf8::encode_utf8_valid_utf8;
use vstd::utf8::valid_utf8;

verus! {

/// What an operator that needs no data file compiles to.
pub open spec fn compiled(operator: OperatorView) -> Result<
    CompiledOperatorView,
    OperatorCompileErrorView,
> {
    compiled_of(operator, Ok(seq![]))
}

/// Whether a compiled operator matches a subject.
pub open spec fn matches_subject(
    operator: OperatorView,
    subject: Seq<u8>,
    values: Values,
    capture: bool,
) -> bool {
    evaluated(compiled(operator)->Ok_0, subject, values, capture).matched
}

// ---------------------------------------------------------------------------
// Templates

/// Whether a text holds no `%{`.
pub open spec fn holds_no_reference(s: Seq<char>) -> bool {
    forall|i: int| 0 <= i < s.len() - 1 ==> !(#[trigger] s[i] == '%' && s[i + 1] == '{')
}

proof fn lemma_literal(s: Seq<char>, literal: Seq<char>)
    requires
        holds_no_reference(s),
    ensures
        parts_from(s, literal) == literal_part(literal + s),
    decreases s.len(),
{
    if s.len() == 0 {
        assert(literal + s =~= literal);
    } else {
        let rest = s.skip(1);
        assert(!starts_macro(s));
        assert forall|i: int| 0 <= i < rest.len() - 1 implies !(#[trigger] rest[i] == '%'
            && rest[i + 1] == '{') by {
            assert(rest[i] == s[i + 1]);
            assert(!(s[i + 1] == '%' && s[i + 1 + 1] == '{'));
        }
        lemma_literal(rest, literal.push(s[0]));
        assert(literal.push(s[0]) + rest =~= literal + s);
    }
}

/// A text without references expands to itself.
pub proof fn plain_text_expands_to_itself(s: Seq<char>, values: Values)
    requires
        holds_no_reference(s),
    ensures
        expanded(template_of(s), values) == encode_utf8(s),
{
    lemma_literal(s, seq![]);
    assert(Seq::<char>::empty() + s =~= s);
    lemma_literal_expands(s, values);
}

proof fn lemma_literal_expands(s: Seq<char>, values: Values)
    ensures
        expanded(literal_part(s), values) == encode_utf8(s),
{
    reveal_with_fuel(expanded, 2);
    if s.len() > 0 {
        let parts = literal_part(s);
        assert(parts.drop_first() =~= seq![]);
        assert(encode_utf8(s) + Seq::<u8>::empty() =~= encode_utf8(s));
    } else {
        assert(encode_utf8(s) =~= seq![]);
    }
}

proof fn lemma_expanded_joined(a: Seq<PartView>, b: Seq<PartView>, values: Values)
    ensures
        expanded(a + b, values) == expanded(a, values) + expanded(b, values),
    decreases a.len(),
{
    if a.len() == 0 {
        assert(a + b =~= b);
        assert(expanded(a, values) + expanded(b, values) =~= expanded(b, values));
    } else {
        assert((a + b).drop_first() =~= a.drop_first() + b);
        lemma_expanded_joined(a.drop_first(), b, values);
        assert(expanded(a + b, values) =~= expanded(a, values) + expanded(b, values));
    }
}

proof fn lemma_reference(before: Seq<char>, name: Seq<char>, rest: Seq<char>, literal: Seq<char>)
    requires
        holds_no_reference(before),
        !name.contains('}'),
    ensures
        parts_from(before + (seq!['%', '{'] + name + seq!['}'] + rest), literal) == literal_part(
            literal + before,
        ) + seq![PartView::Macro(name)] + parts_from(rest, seq![]),
    decreases before.len(),
{
    let reference = seq!['%', '{'] + name + seq!['}'] + rest;
    let s = before + reference;
    if before.len() == 0 {
        assert(s =~= reference);
        assert(s.skip(2) =~= name + seq!['}'] + rest);
        assert forall|j: int| 0 <= j < name.len() implies s.skip(2)[j] != '}' by {
            assert(name.contains(name[j]));
        }
        crate::text::lemma_position_is(s.skip(2), '}', name.len() as int);
        assert(s.skip(2).take(name.len() as int) =~= name);
        assert(s.skip((name.len() + 3) as int) =~= rest);
        assert(literal + before =~= literal);
    } else {
        assert(s.skip(1) =~= before.skip(1) + reference);
        assert(!starts_macro(s)) by {
            assert(s[0] == before[0]);
            if before.len() > 1 {
                assert(s[1] == before[1]);
            } else {
                assert(s[1] == '%');
            }
        }
        let less = before.skip(1);
        assert forall|i: int| 0 <= i < less.len() - 1 implies !(#[trigger] less[i] == '%'
            && less[i + 1] == '{') by {
            assert(less[i] == before[i + 1]);
            assert(!(before[i + 1] == '%' && before[i + 1 + 1] == '{'));
        }
        lemma_reference(less, name, rest, literal.push(s[0]));
        assert(literal.push(s[0]) + less =~= literal + before);
    }
}

/// A reference expands to the value of the variable that it names, or to nothing
/// where there is none, between what stands before and behind it.
pub proof fn references_expand_to_their_value(
    before: Seq<char>,
    name: Seq<char>,
    rest: Seq<char>,
    values: Values,
)
    requires
        holds_no_reference(before),
        !name.contains('}'),
    ensures
        expanded(template_of(before + (seq!['%', '{'] + name + seq!['}'] + rest)), values)
            == encode_utf8(before) + (match values(name) {
            Some(value) => value,
            None => Seq::<u8>::empty(),
        }) + expanded(template_of(rest), values),
{
    lemma_reference(before, name, rest, seq![]);
    assert(Seq::<char>::empty() + before =~= before);
    let one = seq![PartView::Macro(name)];
    lemma_expanded_joined(literal_part(before) + one, parts_from(rest, seq![]), values);
    lemma_expanded_joined(literal_part(before), one, values);
    lemma_literal_expands(before, values);
    reveal_with_fuel(expanded, 2);
    assert(one.drop_first() =~= seq![]);
    assert(expanded(one, values) =~= expanded_part(one[0], values));
}

// ---------------------------------------------------------------------------
// Text

proof fn lemma_occurs(s: Seq<u8>, part: Seq<u8>)
    ensures
        occurs_in(s, part) <==> exists|a: Seq<u8>, b: Seq<u8>| s == #[trigger] (a + part + b),
{
    if occurs_in(s, part) {
        let at = choose|at: int| #[trigger] occurs_at(s, part, at);
        let a = s.take(at);
        let b = s.skip(at + part.len());
        assert(s =~= a + s.subrange(at, at + part.len()) + b);
        assert(s == a + part + b);
    }
    if exists|a: Seq<u8>, b: Seq<u8>| s == #[trigger] (a + part + b) {
        let (a, b) = choose|a: Seq<u8>, b: Seq<u8>| s == #[trigger] (a + part + b);
        assert(s.subrange(a.len() as int, (a.len() + part.len()) as int) =~= part);
        assert(occurs_at(s, part, a.len() as int));
    }
}

/// `@contains` matches a subject that its operand stands in, whatever is before and
/// behind it, and no other.
pub proof fn contains_matches_anywhere(
    w: Seq<char>,
    subject: Seq<u8>,
    a: Seq<u8>,
    b: Seq<u8>,
    values: Values,
    capture: bool,
)
    requires
        holds_no_reference(w),
    ensures
        matches_subject(OperatorView::Contains(w), a + encode_utf8(w) + b, values, capture),
        matches_subject(OperatorView::Contains(w), subject, values, capture) ==> exists|
            x: Seq<u8>,
            y: Seq<u8>,
        | subject == #[trigger] (x + encode_utf8(w) + y),
{
    plain_text_expands_to_itself(w, values);
    lemma_occurs(a + encode_utf8(w) + b, encode_utf8(w));
    lemma_occurs(subject, encode_utf8(w));
}

/// `@endsWith` matches a subject that ends in its operand, and no other.
pub proof fn ends_with_matches_at_the_end(
    w: Seq<char>,
    subject: Seq<u8>,
    a: Seq<u8>,
    values: Values,
    capture: bool,
)
    requires
        holds_no_reference(w),
    ensures
        matches_subject(OperatorView::EndsWith(w), a + encode_utf8(w), values, capture),
        matches_subject(OperatorView::EndsWith(w), subject, values, capture) ==> exists|x: Seq<u8>|
            subject == #[trigger] (x + encode_utf8(w)),
{
    plain_text_expands_to_itself(w, values);
    let e = encode_utf8(w);
    let s = a + e;
    assert(s.subrange(a.len() as int, s.len() as int) =~= e);
    if matches_subject(OperatorView::EndsWith(w), subject, values, capture) {
        let at = subject.len() - e.len();
        let x = subject.take(at);
        assert(subject =~= x + subject.subrange(at, at + e.len()));
        assert(subject == x + e);
    }
}

/// `@streq` matches its operand and no other subject.
pub proof fn streq_matches_its_operand(
    w: Seq<char>,
    subject: Seq<u8>,
    values: Values,
    capture: bool,
)
    requires
        holds_no_reference(w),
    ensures
        matches_subject(OperatorView::Streq(w), subject, values, capture) <==> subject
            == encode_utf8(w),
{
    plain_text_expands_to_itself(w, values);
}

/// `@within` matches a subject that stands in its operand, and no other.
pub proof fn within_matches_what_the_operand_holds(
    w: Seq<char>,
    subject: Seq<u8>,
    values: Values,
    capture: bool,
)
    requires
        holds_no_reference(w),
    ensures
        matches_subject(OperatorView::Within(w), subject, values, capture) <==> exists|
            x: Seq<u8>,
            y: Seq<u8>,
        | encode_utf8(w) == #[trigger] (x + subject + y),
{
    plain_text_expands_to_itself(w, values);
    lemma_occurs(encode_utf8(w), subject);
}

/// The operands of the text operators are templates: an operand that is one
/// reference is the value of the variable that it names.
pub proof fn operands_are_templates(
    name: Seq<char>,
    subject: Seq<u8>,
    values: Values,
    capture: bool,
)
    requires
        !name.contains('}'),
        values(name) is Some,
    ensures
        ({
            let w = seq!['%', '{'] + name + seq!['}'];
            let value = values(name)->0;
            &&& matches_subject(OperatorView::Streq(w), subject, values, capture) <==> subject
                == value
            &&& matches_subject(OperatorView::Contains(w), subject, values, capture) <==> exists|
                x: Seq<u8>,
                y: Seq<u8>,
            | subject == #[trigger] (x + value + y)
            &&& matches_subject(OperatorView::EndsWith(w), subject, values, capture) <==> exists|
                x: Seq<u8>,
            | subject == #[trigger] (x + value)
            &&& matches_subject(OperatorView::Within(w), subject, values, capture) <==> exists|
                x: Seq<u8>,
                y: Seq<u8>,
            | value == #[trigger] (x + subject + y)
        }),
{
    let w = seq!['%', '{'] + name + seq!['}'];
    let value = values(name)->0;
    let none = Seq::<char>::empty();
    references_expand_to_their_value(none, name, none, values);
    plain_text_expands_to_itself(none, values);
    assert(encode_utf8(none) =~= seq![]);
    assert(none + (w + none) =~= w);
    assert(Seq::<u8>::empty() + value + Seq::<u8>::empty() =~= value);
    assert(expanded(template_of(w), values) == value);
    lemma_occurs(subject, value);
    lemma_occurs(value, subject);
    if matches_subject(OperatorView::EndsWith(w), subject, values, capture) {
        let at = subject.len() - value.len();
        let x = subject.take(at);
        assert(subject =~= x + subject.subrange(at, at + value.len()));
        assert(subject == x + value);
    }
    if exists|x: Seq<u8>| subject == #[trigger] (x + value) {
        let x = choose|x: Seq<u8>| subject == #[trigger] (x + value);
        assert(subject.subrange(x.len() as int, subject.len() as int) =~= value);
    }
}

// ---------------------------------------------------------------------------
// Phrases

/// Whether two bytes are the same letter, or the same byte.
pub open spec fn is_same_byte(a: u8, b: u8) -> bool {
    ||| a == b
    ||| 0x61 <= a <= 0x7a && b == a - 32
    ||| 0x61 <= b <= 0x7a && a == b - 32
}

/// Whether some bytes differ at most in the case of ASCII letters.
pub open spec fn are_same_bytes(a: Seq<u8>, b: Seq<u8>) -> bool {
    a.len() == b.len() && forall|i: int| 0 <= i < a.len() ==> is_same_byte(#[trigger] a[i], b[i])
}

proof fn lemma_same_bytes(a: Seq<u8>, b: Seq<u8>)
    ensures
        are_same_bytes(a, b) <==> lower_bytes(a) == lower_bytes(b),
{
    if are_same_bytes(a, b) {
        assert forall|i: int| 0 <= i < a.len() implies lower_byte(a[i]) == lower_byte(b[i]) by {
            assert(is_same_byte(a[i], b[i]));
        }
        assert(lower_bytes(a) =~= lower_bytes(b));
    }
    if lower_bytes(a) == lower_bytes(b) {
        assert(lower_bytes(a).len() == a.len() && lower_bytes(b).len() == b.len());
        assert forall|i: int| 0 <= i < a.len() implies is_same_byte(#[trigger] a[i], b[i]) by {
            assert(lower_bytes(a)[i] == lower_bytes(b)[i]);
        }
    }
}

/// Whether a phrase is one of a list that may be searched for: not empty.
pub open spec fn is_phrase(phrases: Seq<Seq<char>>, phrase: Seq<char>) -> bool {
    phrase.len() > 0 && phrases.contains(phrase)
}

proof fn lemma_phrases(phrases: Seq<Seq<char>>, kept: Seq<char>)
    ensures
        pm_phrases(phrases).contains(kept) <==> exists|p: Seq<char>|
            #[trigger] is_phrase(phrases, p) && kept == crate::text::lower(p),
    decreases phrases.len(),
{
    if phrases.len() == 0 {
    } else {
        let rest = phrases.drop_first();
        lemma_phrases(rest, kept);
        assert forall|p: Seq<char>| phrases.contains(p) <==> p == phrases[0] || #[trigger] rest.contains(p) by {
            if phrases.contains(p) {
                let i = choose|i: int| 0 <= i < phrases.len() && phrases[i] == p;
                if i > 0 {
                    assert(rest[i - 1] == p);
                }
            }
            if rest.contains(p) {
                let i = choose|i: int| 0 <= i < rest.len() && rest[i] == p;
                assert(phrases[i + 1] == p);
            }
            if p == phrases[0] {
                assert(phrases[0] == p);
            }
        }
        let more = pm_phrases(rest);
        if phrases[0].len() > 0 {
            let first = crate::text::lower(phrases[0]);
            let all = seq![first] + more;
            assert(all.contains(kept) <==> kept == first || more.contains(kept)) by {
                assert(all[0] == first);
                if more.contains(kept) {
                    let i = choose|i: int| 0 <= i < more.len() && more[i] == kept;
                    assert(all[i + 1] == kept);
                }
                if all.contains(kept) {
                    let i = choose|i: int| 0 <= i < all.len() && all[i] == kept;
                    if i > 0 {
                        assert(more[i - 1] == kept);
                    }
                }
            }
            if kept == first {
                assert(is_phrase(phrases, phrases[0])) by {
                    assert(phrases[0] == phrases[0]);
                }
            }
        }
        if more.contains(kept) {
            let p = choose|p: Seq<char>|
                #[trigger] is_phrase(rest, p) && kept == crate::text::lower(p);
            assert(rest.contains(p));
            assert(is_phrase(phrases, p));
        }
        if exists|p: Seq<char>|
            #[trigger] is_phrase(phrases, p) && kept == crate::text::lower(p) {
            let p = choose|p: Seq<char>|
                #[trigger] is_phrase(phrases, p) && kept == crate::text::lower(p);
            if p != phrases[0] {
                assert(rest.contains(p));
                assert(is_phrase(rest, p));
            }
        }
    }
}

proof fn lemma_lower_encoded(s: Seq<char>)
    ensures
        lower_bytes(encode_utf8(crate::text::lower(s))) == lower_bytes(encode_utf8(s)),
    decreases s.len(),
{
    if s.len() > 0 {
        let c = s[0];
        let one = seq![c];
        let small = crate::text::lower(s);
        lemma_lower_encoded(s.drop_first());
        assert(small.drop_first() =~= crate::text::lower(s.drop_first()));
        let a = vstd::utf8::encode_scalar(c as u32);
        let b = vstd::utf8::encode_scalar(small[0] as u32);
        assert(lower_bytes(a) =~= lower_bytes(b)) by {
            if 'A' <= c <= 'Z' {
                let d = small[0];
                assert(vstd::utf8::is_ascii_chars(seq![c]));
                assert(vstd::utf8::is_ascii_chars(seq![d]));
                vstd::utf8::is_ascii_chars_encode_utf8(seq![c]);
                vstd::utf8::is_ascii_chars_encode_utf8(seq![d]);
                reveal_with_fuel(encode_utf8, 2);
                assert(encode_utf8(seq![c]) =~= a);
                assert(encode_utf8(seq![d]) =~= b);
                assert(a =~= seq![c as u8]);
                assert(b =~= seq![d as u8]);
            }
        }
        assert(lower_bytes(a + encode_utf8(s.drop_first())) =~= lower_bytes(a) + lower_bytes(
            encode_utf8(s.drop_first()),
        ));
        assert(lower_bytes(b + encode_utf8(small.drop_first())) =~= lower_bytes(b) + lower_bytes(
            encode_utf8(small.drop_first()),
        ));
    } else {
        assert(crate::text::lower(s) =~= s);
    }
}

/// `@pm` matches a subject that one of its phrases stands in, in either case,
/// whatever is before and behind it; and no other.
pub proof fn pm_matches_any_phrase_anywhere(
    phrases: Seq<Seq<char>>,
    subject: Seq<u8>,
    phrase: Seq<char>,
    a: Seq<u8>,
    spelled: Seq<u8>,
    b: Seq<u8>,
    values: Values,
    capture: bool,
)
    requires
        compiled(OperatorView::Pm(phrases)) is Ok,
        shortest(pm_phrases(phrases)) <= usize::MAX,
    ensures
        is_phrase(phrases, phrase) && are_same_bytes(spelled, encode_utf8(phrase))
            ==> matches_subject(OperatorView::Pm(phrases), a + spelled + b, values, capture),
        matches_subject(OperatorView::Pm(phrases), subject, values, capture) ==> exists|
            p: Seq<char>,
            x: Seq<u8>,
            q: Seq<u8>,
            y: Seq<u8>,
        |
            is_phrase(phrases, p) && #[trigger] are_same_bytes(q, encode_utf8(p)) && subject
                == #[trigger] (x + q + y),
{
    let kept = pm_phrases(phrases);
    if is_phrase(phrases, phrase) && are_same_bytes(spelled, encode_utf8(phrase)) {
        let s = a + spelled + b;
        pm_matches_what_holds_a_phrase(phrases, s, values, capture);
        let small = crate::text::lower(phrase);
        lemma_phrases(phrases, small);
        let i = choose|i: int| 0 <= i < kept.len() && kept[i] == small;
        lemma_same_bytes(spelled, encode_utf8(phrase));
        lemma_lower_encoded(phrase);
        assert(lower_bytes(s) =~= lower_bytes(a) + lower_bytes(spelled) + lower_bytes(b));
        lemma_occurs(lower_bytes(s), lower_bytes(encode_utf8(kept[i])));
        assert(lower_bytes(encode_utf8(kept[i])) == lower_bytes(spelled));
        assert(any_phrase_in(kept, s));
    }
    if matches_subject(OperatorView::Pm(phrases), subject, values, capture) {
        pm_matches_what_holds_a_phrase(phrases, subject, values, capture);
        let i = choose|i: int|
            0 <= i < kept.len() && occurs_in(
                lower_bytes(subject),
                lower_bytes(encode_utf8(#[trigger] kept[i])),
            );
        assert(kept.contains(kept[i]));
        lemma_phrases(phrases, kept[i]);
        let p = choose|p: Seq<char>|
            #[trigger] is_phrase(phrases, p) && kept[i] == crate::text::lower(p);
        lemma_lower_encoded(p);
        let e = encode_utf8(p);
        let at = choose|at: int| #[trigger] occurs_at(lower_bytes(subject), lower_bytes(e), at);
        let q = subject.subrange(at, at + e.len());
        assert(lower_bytes(q) =~= lower_bytes(subject).subrange(at, at + e.len()));
        lemma_same_bytes(q, e);
        let x = subject.take(at);
        let y = subject.skip(at + e.len());
        assert(subject =~= x + q + y);
        assert(are_same_bytes(q, encode_utf8(p)) && subject == x + q + y);
    }
}

// ---------------------------------------------------------------------------
// Numbers

proof fn lemma_run_of_digits(digits: Seq<char>, rest: Seq<char>)
    requires
        all_digits(digits),
        rest.len() == 0 || !is_digit(rest[0]),
    ensures
        leading_digits(digits + rest) == digits.len(),
    decreases digits.len(),
{
    let s = digits + rest;
    if digits.len() == 0 {
        if rest.len() > 0 {
            assert(s[0] == rest[0]);
        }
    } else {
        assert(is_digit(digits[0]));
        assert(s[0] == digits[0]);
        assert(s.drop_first() =~= digits.drop_first() + rest);
        assert forall|i: int| 0 <= i < digits.drop_first().len() implies is_digit(
            #[trigger] digits.drop_first()[i],
        ) by {
            assert(is_digit(digits[i + 1]));
        }
        lemma_run_of_digits(digits.drop_first(), rest);
    }
}

proof fn lemma_number_prefix(n: int, rest: Seq<char>)
    requires
        rest.len() == 0 || !is_digit(rest[0]),
    ensures
        number_prefix(decimal_int(n) + rest) == decimal_int(n).len(),
{
    let s = decimal_int(n) + rest;
    if n < 0 {
        let d = crate::text::decimal((-n) as nat);
        lemma_decimal_digits((-n) as nat);
        assert(s[0] == '-');
        assert(s.skip(1) =~= d + rest);
        lemma_run_of_digits(d, rest);
    } else {
        let d = crate::text::decimal(n as nat);
        lemma_decimal_digits(n as nat);
        assert(s =~= d + rest);
        assert(is_digit(d[0]) && s[0] == d[0]);
        lemma_run_of_digits(d, rest);
    }
}

/// A subject that starts with a number reads as that number, whatever follows it.
pub proof fn subjects_read_as_the_number_they_start_with(n: i64, rest: Seq<char>)
    requires
        rest.len() == 0 || !('0' <= rest[0] <= '9'),
    ensures
        integer_of(encode_utf8(decimal_int(n as int) + rest)) == Some(n),
{
    let d = decimal_int(n as int);
    let s = d + rest;
    encode_utf8_valid_utf8(s);
    encode_utf8_decode_utf8(s);
    lemma_decimal_is_plain(n as int);
    assert(s[0] == d[0]);
    assert(crate::text::trimmed_start(s) == s);
    let t = trimmed(s);
    // Only white space behind the number can be trimmed.
    lemma_trimmed_end_keeps(d, rest);
    let left = choose|left: Seq<char>|
        t == #[trigger] (d + left) && (left.len() == 0 || rest.len() > 0 && left[0] == rest[0]);
    lemma_number_prefix(n as int, left);
    assert(t.take(d.len() as int) =~= d);
    decimal_reads_back(n as int);
}

proof fn lemma_trimmed_end_keeps(d: Seq<char>, rest: Seq<char>)
    requires
        d.len() > 0,
        !is_white(d.last()),
    ensures
        exists|left: Seq<char>|
            crate::text::trimmed_end(d + rest) == #[trigger] (d + left) && (left.len() == 0 || rest.len() > 0
                && left[0] == rest[0]),
    decreases rest.len(),
{
    let s = d + rest;
    if rest.len() == 0 {
        assert(s =~= d);
        assert(crate::text::trimmed_end(s) == d + rest);
    } else if is_white(rest.last()) {
        assert(s.last() == rest.last());
        assert(s.drop_last() =~= d + rest.drop_last());
        lemma_trimmed_end_keeps(d, rest.drop_last());
        let left = choose|left: Seq<char>|
            crate::text::trimmed_end(d + rest.drop_last()) == #[trigger] (d + left) && (left.len() == 0
                || rest.drop_last().len() > 0 && left[0] == rest.drop_last()[0]);
        assert(crate::text::trimmed_end(s) == d + left);
    } else {
        assert(s.last() == rest.last());
        assert(crate::text::trimmed_end(s) == d + rest);
    }
}

/// The numeric operators compare the number that a subject starts with to their
/// operand.
pub proof fn numbers_are_compared(
    l: i64,
    rest: Seq<char>,
    r: i64,
    values: Values,
    capture: bool,
)
    requires
        rest.len() == 0 || !('0' <= rest[0] <= '9'),
    ensures
        ({
            let subject = encode_utf8(decimal_int(l as int) + rest);
            let operand = NumericView::Literal(r);
            &&& matches_subject(OperatorView::Lt(operand), subject, values, capture) <==> l < r
            &&& matches_subject(OperatorView::Gt(operand), subject, values, capture) <==> l > r
            &&& matches_subject(OperatorView::Eq(operand), subject, values, capture) <==> l == r
            &&& matches_subject(OperatorView::Ge(operand), subject, values, capture) <==> l >= r
        }),
{
    subjects_read_as_the_number_they_start_with(l, rest);
}

/// A numeric operand that is a reference is the number that the variable starts
/// with, and 0 where there is no such variable.
pub proof fn numeric_references_are_compared(
    l: i64,
    name: Seq<char>,
    r: i64,
    rest: Seq<char>,
    values: Values,
    capture: bool,
)
    requires
        rest.len() == 0 || !('0' <= rest[0] <= '9'),
        values(name) == Some(encode_utf8(decimal_int(r as int) + rest)) || values(name) is None
            && r == 0,
    ensures
        ({
            let subject = encode_utf8(decimal_int(l as int));
            let operand = NumericView::Macro(name);
            &&& matches_subject(OperatorView::Lt(operand), subject, values, capture) <==> l < r
            &&& matches_subject(OperatorView::Gt(operand), subject, values, capture) <==> l > r
            &&& matches_subject(OperatorView::Eq(operand), subject, values, capture) <==> l == r
            &&& matches_subject(OperatorView::Ge(operand), subject, values, capture) <==> l >= r
        }),
{
    subjects_read_as_the_number_they_start_with(r, rest);
    subjects_read_as_the_number_they_start_with(l, seq![]);
    assert(decimal_int(l as int) + Seq::<char>::empty() =~= decimal_int(l as int));
}

/// A subject that starts with no digit and no sign, once its white space is off,
/// compares as 0; bytes that are not text satisfy no comparison.
pub proof fn subjects_without_number_compare_as_zero(
    text: Seq<char>,
    bytes: Seq<u8>,
    r: i64,
    how: OperatorView,
    values: Values,
    capture: bool,
)
    requires
        !is_white(text[0]) && text.len() > 0 && !('0' <= text[0] <= '9') && text[0] != '-'
            && text[0] != '+' || text.len() == 0,
        !valid_utf8(bytes),
    ensures
        integer_of(encode_utf8(text)) == Some(0i64),
        how is Lt || how is Gt || how is Eq || how is Ge ==> !matches_subject(
            how,
            bytes,
            values,
            capture,
        ),
{
    encode_utf8_valid_utf8(text);
    encode_utf8_decode_utf8(text);
    let t = trimmed(text);
    if text.len() > 0 {
        assert(crate::text::trimmed_start(text) == text);
        lemma_trimmed_end_keeps(seq![text[0]], text.skip(1));
        assert(seq![text[0]] + text.skip(1) =~= text);
    }
}

// ---------------------------------------------------------------------------
// Bytes and encodings

/// `@validateByteRange` matches a subject that holds a byte outside all of its
/// ranges, and no other.
pub proof fn byte_ranges_are_validated(
    ranges: Seq<(u8, u8)>,
    subject: Seq<u8>,
    values: Values,
    capture: bool,
)
    ensures
        matches_subject(OperatorView::ValidateByteRange(ranges), subject, values, capture)
            <==> exists|i: int|
            0 <= i < subject.len() && forall|k: int|
                0 <= k < ranges.len() ==> #[trigger] subject[i] < (#[trigger] ranges[k]).0
                    || subject[i] > ranges[k].1,
{
    let table = byte_table(ranges);
    if matches_subject(OperatorView::ValidateByteRange(ranges), subject, values, capture) {
        let i = choose|i: int| 0 <= i < subject.len() && !table[(#[trigger] subject[i]) as int];
        assert(!in_byte_ranges(ranges, subject[i] as int));
        assert forall|k: int| 0 <= k < ranges.len() implies #[trigger] subject[i] < (
        #[trigger] ranges[k]).0 || subject[i] > ranges[k].1 by {}
    }
    if exists|i: int|
        0 <= i < subject.len() && forall|k: int|
            0 <= k < ranges.len() ==> #[trigger] subject[i] < (#[trigger] ranges[k]).0 || subject[i]
                > ranges[k].1 {
        let i = choose|i: int|
            0 <= i < subject.len() && forall|k: int|
                0 <= k < ranges.len() ==> #[trigger] subject[i] < (#[trigger] ranges[k]).0
                    || subject[i] > ranges[k].1;
        assert(!in_byte_ranges(ranges, subject[i] as int));
        assert(!table[subject[i] as int]);
    }
}

/// `@validateUtf8Encoding` matches a subject that encodes no text, and no other.
pub proof fn utf8_is_validated(subject: Seq<u8>, values: Values, capture: bool)
    ensures
        matches_subject(OperatorView::ValidateUtf8Encoding, subject, values, capture) <==> !exists|
            text: Seq<char>,
        | subject == #[trigger] encode_utf8(text),
{
    if valid_utf8(subject) {
        decode_utf8_encode_utf8(subject);
        assert(subject == encode_utf8(decode_utf8(subject)));
    }
    if exists|text: Seq<char>| subject == #[trigger] encode_utf8(text) {
        let text = choose|text: Seq<char>| subject == #[trigger] encode_utf8(text);
        encode_utf8_valid_utf8(text);
    }
}

/// `@validateUrlEncoding` matches a subject in which some `%` is not followed by two
/// hexadecimal digits, and no other.
pub proof fn url_encoding_is_validated(subject: Seq<u8>, values: Values, capture: bool)
    ensures
        matches_subject(OperatorView::ValidateUrlEncoding, subject, values, capture) <==> exists|
            i: int,
        |
            0 <= i < subject.len() && #[trigger] subject[i] == '%' as u8 && !(i + 2 < subject.len()
                && is_digit_in(subject[i + 1], 16) && is_digit_in(subject[i + 2], 16)),
{
    assert forall|i: int| 0 <= i < subject.len() implies crate::decode::has_hex_pair(
        #[trigger] subject.skip(i + 1),
    ) == (i + 2 < subject.len() && is_digit_in(subject[i + 1], 16) && is_digit_in(
        subject[i + 2],
        16,
    )) by {
        let tail = subject.skip(i + 1);
        if i + 2 < subject.len() {
            assert(tail[0] == subject[i + 1] && tail[1] == subject[i + 2]);
            lemma_hex(subject[i + 1]);
            lemma_hex(subject[i + 2]);
        }
    }
    if matches_subject(OperatorView::ValidateUrlEncoding, subject, values, capture) {
        let i = choose|i: int|
            0 <= i < subject.len() && #[trigger] subject[i] == '%' as u8
                && !crate::decode::has_hex_pair(subject.skip(i + 1));
        assert(!crate::decode::has_hex_pair(subject.skip(i + 1)));
    }
    if exists|i: int|
        0 <= i < subject.len() && #[trigger] subject[i] == '%' as u8 && !(i + 2 < subject.len()
            && is_digit_in(subject[i + 1], 16) && is_digit_in(subject[i + 2], 16)) {
        let i = choose|i: int|
            0 <= i < subject.len() && #[trigger] subject[i] == '%' as u8 && !(i + 2 < subject.len()
                && is_digit_in(subject[i + 1], 16) && is_digit_in(subject[i + 2], 16));
        assert(!crate::decode::has_hex_pair(subject.skip(i + 1)));
    }
}

proof fn lemma_hex(b: u8)
    ensures
        crate::digits::hex_value(b) is Some <==> is_digit_in(b, 16),
{
    if is_digit_in(b, 16) {
        let n = choose|n: int|
            0 <= n < 16 && #[trigger] crate::laws::transformations::is_digit_for(b, n);
        lemma_digit(b, n, 16);
    } else {
        lemma_no_digit(b, 16);
    }
}

// ---------------------------------------------------------------------------
// The rest

/// `@unconditionalMatch` matches everything; `@detectSQLi` and `@detectXSS` match
/// what their classifiers do.
pub proof fn classifiers_decide(subject: Seq<u8>, values: Values, capture: bool)
    ensures
        matches_subject(OperatorView::UnconditionalMatch, subject, values, capture),
        matches_subject(OperatorView::DetectSqli, subject, values, capture) == sqli_verdict(
            subject,
        ).0,
        matches_subject(OperatorView::DetectXss, subject, values, capture) == xss_verdict(subject),
        evaluated(CompiledOperatorView::DetectSqli, subject, values, true).captures.len() > 0
            ==> evaluated(CompiledOperatorView::DetectSqli, subject, values, true).captures[0] == (
        match sqli_verdict(subject).1 {
            Some(fingerprint) => encode_utf8(fingerprint),
            None => Seq::<u8>::empty(),
        }),
{
}

/// `@rx` matches what its pattern does. Where the rule captures, each group is a
/// capture, the whole match first, and a group that took no part is empty; where it
/// does not, nothing is captured. No other operator but `@detectSQLi` captures.
pub proof fn patterns_capture_their_groups(
    pattern: Seq<char>,
    operator: CompiledOperatorView,
    subject: Seq<u8>,
    values: Values,
    i: int,
)
    ensures
        ({
            let plain = evaluated(CompiledOperatorView::Rx(pattern), subject, values, false);
            let full = evaluated(CompiledOperatorView::Rx(pattern), subject, values, true);
            let groups = regex_groups(pattern, subject);
            &&& plain.matched == regex_matches(pattern, subject)
            &&& plain.captures.len() == 0
            &&& full.matched == (groups is Some)
            &&& groups is Some ==> full.captures.len() == groups->0.len()
            &&& groups is None ==> full.captures.len() == 0
            &&& groups is Some && 0 <= i < groups->0.len() ==> full.captures[i]
                == match groups->0[i] {
                Some(group) => group,
                None => Seq::<u8>::empty(),
            }
            &&& evaluated(operator, subject, values, false).captures.len() == 0
            &&& operator !is Rx && operator !is DetectSqli ==> evaluated(
                operator,
                subject,
                values,
                true,
            ).captures.len() == 0
        }),
{
}

} // verus!
