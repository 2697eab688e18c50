//! What the operands of the operators mean: patterns and how they are repaired,
//! phrases and the files they come from, byte ranges.

use crate::bytes::lossy_text;
use crate::matcher::compiled_of;
use crate::matcher::line_phrases;
use crate::matcher::path_in;
use crate::matcher::CompiledOperatorView;
use crate::matcher::OperatorCompileErrorView;
use crate::laws::addresses::lemma_split_first;
use crate::laws::phases::lemma_untrimmed;
use crate::laws::requests::lemma_split_none;
use crate::operator::byte_range;
use crate::operator::byte_ranges;
use crate::operator::byte_ranges_of;
use crate::operator::OperatorView;
use crate::pattern::bytes_regex_error;
use crate::pattern::regex_error;
use crate::regex_compat::braces_escaped;
use crate::regex_compat::class_unescaped;
use crate::regex_compat::is_repetition;
use crate::regex_compat::rx_source;
use crate::text::decimal;
use crate::text::is_digit;
use crate::text::is_white;
use crate::text::leading_digits;
use crate::text::lemma_decimal_digits;
use crate::text::lemma_position_is;
use crate::text::lines;
use crate::text::split;
use crate::text::trimmed;
use crate::text::words;
use vstd::prelude::*;

verus! {

// ---------------------------------------------------------------------------
// Patterns

/// A pattern that compiles is tested as it is written, and no data file has a say
/// in it.
pub proof fn patterns_compile_as_written(
    pattern: Seq<char>,
    loaded: Result<Seq<u8>, Seq<char>>,
)
    requires
        regex_error(pattern) is None,
        bytes_regex_error(pattern) is None,
    ensures
        compiled_of(OperatorView::Rx(pattern), loaded) == Ok::<
            CompiledOperatorView,
            OperatorCompileErrorView,
        >(CompiledOperatorView::Rx(pattern)),
{
}

/// A brace that delimits no counted repetition is escaped, outside character
/// classes; an escaped character, a class and a repetition are kept.
pub proof fn loose_braces_are_escaped(rest: Seq<char>, c: char, open: bool)
    ensures
        braces_escaped(Seq::<char>::empty(), false, open).len() == 0,
        !is_repetition(rest) ==> braces_escaped(seq!['{'] + rest, false, open) == seq!['\\', '{']
            + braces_escaped(rest, false, open),
        is_repetition(rest) ==> braces_escaped(seq!['{'] + rest, false, open) == seq!['{']
            + braces_escaped(rest, false, true),
        braces_escaped(seq!['}'] + rest, false, true) == seq!['}'] + braces_escaped(
            rest,
            false,
            false,
        ),
        braces_escaped(seq!['}'] + rest, false, false) == seq!['\\', '}'] + braces_escaped(
            rest,
            false,
            false,
        ),
        braces_escaped(seq!['\\', c] + rest, false, open) == seq!['\\', c] + braces_escaped(
            rest,
            false,
            open,
        ),
        braces_escaped(seq!['['] + rest, false, open) == seq!['['] + braces_escaped(
            rest,
            true,
            open,
        ),
        braces_escaped(seq![']'] + rest, true, open) == seq![']'] + braces_escaped(
            rest,
            false,
            open,
        ),
        c != '\\' && c != ']' ==> braces_escaped(seq![c] + rest, true, open) == seq![c]
            + braces_escaped(rest, true, open),
        c != '\\' && c != '[' && c != '{' && c != '}' ==> braces_escaped(
            seq![c] + rest,
            false,
            open,
        ) == seq![c] + braces_escaped(rest, false, open),
{
    assert((seq!['{'] + rest).skip(1) =~= rest);
    assert((seq!['}'] + rest).skip(1) =~= rest);
    assert((seq!['['] + rest).skip(1) =~= rest);
    assert((seq![']'] + rest).skip(1) =~= rest);
    assert((seq![c] + rest).skip(1) =~= rest);
    assert((seq!['\\', c] + rest).skip(2) =~= rest);
    assert((seq!['\\', c] + rest)[1] == c);
}

/// Inside a character class the escape of one character is dropped, and nothing
/// else; outside, nothing is.
pub proof fn class_escapes_are_dropped(rest: Seq<char>, offender: char, c: char, in_class: bool)
    ensures
        class_unescaped(Seq::<char>::empty(), offender, in_class).len() == 0,
        class_unescaped(seq!['\\', offender] + rest, offender, true) == seq![offender]
            + class_unescaped(rest, offender, true),
        class_unescaped(seq!['\\', offender] + rest, offender, false) == seq!['\\', offender]
            + class_unescaped(rest, offender, false),
        c != offender ==> class_unescaped(seq!['\\', c] + rest, offender, in_class) == seq![
            '\\',
            c,
        ] + class_unescaped(rest, offender, in_class),
        class_unescaped(seq!['['] + rest, offender, false) == seq!['['] + class_unescaped(
            rest,
            offender,
            true,
        ),
        class_unescaped(seq![']'] + rest, offender, true) == seq![']'] + class_unescaped(
            rest,
            offender,
            false,
        ),
        c != '\\' && c != '[' && c != ']' ==> class_unescaped(seq![c] + rest, offender, in_class)
            == seq![c] + class_unescaped(rest, offender, in_class),
{
    assert((seq!['\\', offender] + rest).skip(2) =~= rest);
    assert((seq!['\\', offender] + rest)[1] == offender);
    assert((seq!['\\', c] + rest).skip(2) =~= rest);
    assert((seq!['\\', c] + rest)[1] == c);
    assert((seq!['['] + rest).skip(1) =~= rest);
    assert((seq![']'] + rest).skip(1) =~= rest);
    assert((seq![c] + rest).skip(1) =~= rest);
}

/// A pattern that only its loose braces keep from compiling is tested with them
/// escaped.
pub proof fn brace_repairs_come_first(pattern: Seq<char>)
    requires
        regex_error(pattern) is Some,
        regex_error(braces_escaped(pattern, false, false)) is None,
    ensures
        rx_source(pattern) == Ok::<(Seq<char>, bool), Seq<char>>(
            (braces_escaped(pattern, false, false), true),
        ),
{
}

proof fn lemma_digits_run(digits: Seq<char>, rest: Seq<char>)
    requires
        forall|i: int| 0 <= i < digits.len() ==> '0' <= #[trigger] digits[i] <= '9',
        rest.len() == 0 || !('0' <= rest[0] <= '9'),
    ensures
        leading_digits(digits + rest) == digits.len(),
    decreases digits.len(),
{
    let s = digits + rest;
    if digits.len() == 0 {
        if rest.len() > 0 {
            assert(s[0] == rest[0]);
        }
    } else {
        assert(s[0] == digits[0]);
        assert(s.drop_first() =~= digits.drop_first() + rest);
        assert forall|i: int| 0 <= i < digits.drop_first().len() implies '0'
            <= #[trigger] digits.drop_first()[i] <= '9' by {
            assert('0' <= digits[i + 1] <= '9');
        }
        lemma_digits_run(digits.drop_first(), rest);
    }
}

/// A repetition is `n}`, `n,}` or `n,m}` behind its brace.
pub proof fn repetitions_are_counted(n: Seq<char>, m: Seq<char>, rest: Seq<char>)
    requires
        forall|i: int| 0 <= i < n.len() ==> '0' <= #[trigger] n[i] <= '9',
        forall|i: int| 0 <= i < m.len() ==> '0' <= #[trigger] m[i] <= '9',
    ensures
        n.len() > 0 ==> is_repetition(n + (seq!['}'] + rest)),
        n.len() > 0 ==> is_repetition(n + (seq![','] + (m + (seq!['}'] + rest)))),
        rest.len() == 0 || !('0' <= rest[0] <= '9') && rest[0] != ',' && rest[0] != '}'
            ==> !is_repetition(n + rest),
{
    let close = seq!['}'] + rest;
    lemma_digits_run(n, close);
    assert((n + close).skip(n.len() as int) =~= close);
    let tail = m + close;
    let comma = seq![','] + tail;
    lemma_digits_run(n, comma);
    assert((n + comma).skip(n.len() as int) =~= comma);
    assert(comma.skip(1) =~= tail);
    lemma_digits_run(m, close);
    assert(tail.skip(m.len() as int) =~= close);
    if rest.len() == 0 || !('0' <= rest[0] <= '9') && rest[0] != ',' && rest[0] != '}' {
        lemma_digits_run(n, rest);
        assert((n + rest).skip(n.len() as int) =~= rest);
    }
}

// ---------------------------------------------------------------------------
// Phrases

/// The phrases of `@pm` are the words of its operand.
pub proof fn phrases_are_words(word: Seq<char>, blank: char, rest: Seq<char>)
    requires
        word.len() > 0,
        forall|i: int| 0 <= i < word.len() ==> !is_white(#[trigger] word[i]),
        is_white(blank),
    ensures
        words(Seq::<char>::empty()).len() == 0,
        words(word) == seq![word],
        words(seq![blank] + rest) == words(rest),
        words(word + (seq![blank] + rest)) == seq![word] + words(rest),
{
    let none = Seq::<char>::empty();
    assert(crate::text::trimmed_start(none) == none);
    assert((seq![blank] + rest).drop_first() =~= rest);
    assert(crate::text::trimmed_start(seq![blank] + rest) == crate::text::trimmed_start(rest));
    assert(crate::text::trimmed_start(word) == word);
    lemma_white(word, none);
    assert(word + none =~= word);
    assert(word.take(word.len() as int) =~= word);
    assert(word.skip(word.len() as int) =~= none);
    let s = word + (seq![blank] + rest);
    assert(s[0] == word[0]);
    assert(crate::text::trimmed_start(s) == s);
    lemma_white(word, seq![blank] + rest);
    assert(s.take(word.len() as int) =~= word);
    assert(s.skip(word.len() as int) =~= seq![blank] + rest);
    assert(seq![word] + Seq::<Seq<char>>::empty() =~= seq![word]);
}

proof fn lemma_white(word: Seq<char>, rest: Seq<char>)
    requires
        forall|i: int| 0 <= i < word.len() ==> !is_white(#[trigger] word[i]),
        rest.len() == 0 || is_white(rest[0]),
    ensures
        crate::text::white_position(word + rest) == word.len(),
{
    let s = word + rest;
    crate::text::lemma_white_position(s);
    let q = crate::text::white_position(s);
    if q < word.len() {
        assert(s[q] == word[q]);
    } else if q > word.len() {
        assert(s[word.len() as int] == rest[0]);
        assert(!is_white(s[word.len() as int]));
    }
}

/// The phrases of a data file are its lines, the white space around them taken off;
/// a blank line and one that starts with `#` are none.
pub proof fn data_files_hold_a_phrase_a_line(
    line: Seq<char>,
    rest: Seq<Seq<char>>,
    raw: Seq<u8>,
    name: Seq<char>,
)
    ensures
        line_phrases(Seq::<Seq<char>>::empty()).len() == 0,
        line_phrases(seq![line] + rest) == (if trimmed(line).len() == 0 || trimmed(line)[0] == '#' {
            line_phrases(rest)
        } else {
            seq![trimmed(line)] + line_phrases(rest)
        }),
        compiled_of(OperatorView::PmFromFile(name), Ok(raw)) == compiled_of(
            OperatorView::Pm(line_phrases(lines(lossy_text(raw)))),
            Ok(raw),
        ),
{
    let all = seq![line] + rest;
    assert(all[0] == line);
    assert(all.drop_first() =~= rest);
}

/// A data file that cannot be loaded keeps its rule from compiling.
pub proof fn missing_data_files_are_reported(name: Seq<char>, reason: Seq<char>)
    ensures
        compiled_of(OperatorView::PmFromFile(name), Err(reason)) == Err::<
            CompiledOperatorView,
            OperatorCompileErrorView,
        >(OperatorCompileErrorView::DataFile(reason)),
{
}

/// A data file is looked up in its directory.
pub proof fn data_files_are_looked_up_in_their_directory(root: Seq<char>, name: Seq<char>)
    requires
        root.len() > 0,
    ensures
        root.last() != '/' ==> path_in(root, name) == root + seq!['/'] + name,
        root.last() == '/' ==> path_in(root, name) == root + name,
{
    reveal_strlit("/");
    assert("/"@ =~= seq!['/']);
}

// ---------------------------------------------------------------------------
// Byte ranges

proof fn lemma_byte(n: u8)
    ensures
        crate::operator::byte_value(decimal(n as nat)) == Ok::<u8, Seq<char>>(n),
        decimal(n as nat).len() > 0,
        !is_white(decimal(n as nat)[0]) && !is_white(decimal(n as nat).last()),
        !decimal(n as nat).contains('-') && !decimal(n as nat).contains(','),
{
    let d = decimal(n as nat);
    lemma_decimal_digits(n as nat);
    assert(is_digit(d[0]) && is_digit(d[d.len() - 1]));
    assert forall|i: int| 0 <= i < d.len() implies d[i] != '-' && d[i] != ',' by {
        assert(is_digit(d[i]));
    }
}

/// A byte range is one number, or two with a hyphen between; one that runs backwards
/// is refused.
pub proof fn byte_ranges_are_read(lo: u8, hi: u8)
    ensures
        byte_range(decimal(lo as nat)) == Ok::<(u8, u8), Seq<char>>((lo, lo)),
        lo <= hi ==> byte_range(decimal(lo as nat) + seq!['-'] + decimal(hi as nat)) == Ok::<
            (u8, u8),
            Seq<char>,
        >((lo, hi)),
        lo > hi ==> byte_range(decimal(lo as nat) + seq!['-'] + decimal(hi as nat)) is Err,
{
    let a = decimal(lo as nat);
    let b = decimal(hi as nat);
    lemma_byte(lo);
    lemma_byte(hi);
    lemma_untrimmed(a);
    lemma_untrimmed(b);
    crate::text::lemma_position(a, '-');
    let s = a + seq!['-'] + b;
    assert forall|j: int| 0 <= j < a.len() implies s[j] != '-' by {
        assert(a.contains(a[j]));
    }
    lemma_position_is(s, '-', a.len() as int);
    assert(s.take(a.len() as int) =~= a);
    assert(s.skip(a.len() as int + 1) =~= b);
}

/// Byte ranges stand between commas.
pub proof fn commas_part_byte_ranges(
    one: Seq<char>,
    range: (u8, u8),
    rest: Seq<char>,
    ranges: Seq<(u8, u8)>,
)
    requires
        one.len() > 0 && !is_white(one[0]) && !is_white(one.last()),
        !one.contains(','),
        byte_range(one) == Ok::<(u8, u8), Seq<char>>(range),
        byte_ranges(split(rest, ',')) == Ok::<Seq<(u8, u8)>, Seq<char>>(ranges),
        rest.len() > 0 && !is_white(rest.last()),
    ensures
        byte_ranges_of(one) == Ok::<Seq<(u8, u8)>, Seq<char>>(seq![range]),
        byte_ranges_of(one + seq![','] + rest) == Ok::<Seq<(u8, u8)>, Seq<char>>(
            seq![range] + ranges,
        ),
{
    lemma_untrimmed(one);
    lemma_split_none(one, ',');
    lemma_split_first(one, ',', rest);
    let s = one + seq![','] + rest;
    assert(s[0] == one[0] && s.last() == rest.last());
    lemma_untrimmed(s);
    let parts = split(s, ',');
    assert(parts.drop_first() =~= split(rest, ','));
    assert(parts[0] == one);
    reveal_with_fuel(byte_ranges, 2);
    assert(seq![one].drop_first() =~= seq![]);
    assert(seq![range] + Seq::<(u8, u8)>::empty() =~= seq![range]);
}

} // verus!
