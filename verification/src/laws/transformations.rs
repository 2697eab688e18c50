//! What each transformation makes of its input, read from the front: what is at
//! the front decides what comes out first, and the rest is transformed in turn.

use crate::action::Transformation;
use crate::bytes::lemma_encode_utf8_concat;
use crate::bytes::lower_byte;
use crate::bytes::lower_bytes;
use crate::decode::base64_digit;
use crate::decode::base64_encoded;
use crate::decode::base64_ignores_line_breaks;
use crate::decode::base64_reads_back;
use crate::decode::base64_stops_at_a_foreign_byte;
use crate::decode::css_char;
use crate::decode::css_token;
use crate::decode::escape_token;
use crate::decode::hex_digits;
use crate::decode::html_token;
use crate::decode::js_token;
use crate::decode::sextet;
use crate::decode::starts_with_name;
use crate::decode::unicode_token;
use crate::decode::url_token;
use crate::digits::capped;
use crate::digits::digit_run;
use crate::digits::digit_value;
use crate::digits::digits_number;
use crate::digits::hex_digit;
use crate::digits::lemma_digit_run;
use crate::evaluate::applied;
use crate::text::decimal;
use crate::text::digit;
use crate::transform::closed_up;
use crate::transform::comment_mark;
use crate::transform::comment_rest;
use crate::transform::is_shell_noise;
use crate::transform::lemma_closed_up_front;
use crate::transform::lemma_collapsed_front;
use crate::transform::lemma_filter_one;
use crate::transform::lemma_mapped_front;
use crate::transform::lemma_respelled_plain;
use crate::transform::sha1_digest;
use crate::transform::shell_respelled;
use crate::transform::spaced;
use crate::transform::transformed;
use vstd::prelude::*;
use vstd::utf8::decode_first_scalar;
use vstd::utf8::encode_utf8;
use vstd::utf8::encode_utf8_first_scalar;
use vstd::utf8::is_ascii_chars;
use vstd::utf8::is_ascii_chars_encode_utf8;
use vstd::utf8::length_of_first_scalar;
use vstd::utf8::valid_first_scalar;

verus! {

// ---------------------------------------------------------------------------
// Digits

/// The digits, small letters first.
pub open spec fn small_digits() -> Seq<char> {
    seq!['0', '1', '2', '3', '4', '5', '6', '7', '8', '9', 'a', 'b', 'c', 'd', 'e', 'f']
}

/// The digits, with capital letters.
pub open spec fn capital_digits() -> Seq<char> {
    seq!['0', '1', '2', '3', '4', '5', '6', '7', '8', '9', 'A', 'B', 'C', 'D', 'E', 'F']
}

/// Whether a byte is the digit for `n`, in either case.
pub open spec fn is_digit_for(b: u8, n: int) -> bool {
    0 <= n < 16 && (b == small_digits()[n] as u8 || b == capital_digits()[n] as u8)
}

/// Whether a byte is a digit in a base.
pub open spec fn is_digit_in(b: u8, base: int) -> bool {
    exists|n: int| 0 <= n < base && #[trigger] is_digit_for(b, n)
}

/// Whether some bytes write a number in a base: the last digit is its lowest
/// figure, and the digits before it write the rest.
pub open spec fn writes(digits: Seq<u8>, base: int, n: int) -> bool
    decreases digits.len(),
{
    if digits.len() == 0 {
        n == 0
    } else {
        n >= 0 && is_digit_for(digits.last(), n % base) && writes(digits.drop_last(), base, n / base)
    }
}

pub proof fn lemma_digit(b: u8, n: int, base: u8)
    requires
        is_digit_for(b, n),
        n < base <= 16,
    ensures
        digit_value(b, base) == Some(n as u8),
{
}

pub proof fn lemma_no_digit(b: u8, base: u8)
    requires
        base <= 16,
        !is_digit_in(b, base as int),
    ensures
        digit_value(b, base) is None,
{
    if digit_value(b, base) is Some {
        let n = digit_value(b, base)->0 as int;
        assert(is_digit_for(b, n));
    }
}

pub proof fn lemma_writes(digits: Seq<u8>, base: u8, n: int)
    requires
        writes(digits, base as int, n),
        2 <= base <= 16,
    ensures
        n >= 0,
        digits_number(digits, base) == n,
        forall|i: int| 0 <= i < digits.len() ==> digit_value(#[trigger] digits[i], base) is Some,
    decreases digits.len(),
{
    if digits.len() > 0 {
        let rest = digits.drop_last();
        lemma_writes(rest, base, n / (base as int));
        assert(0 <= n % (base as int) < base) by (nonlinear_arith)
            requires
                base >= 2,
        ;
        lemma_digit(digits.last(), n % (base as int), base);
        assert((n / (base as int)) * (base as int) + n % (base as int) == n) by (nonlinear_arith)
            requires
                base >= 2,
        ;
        assert forall|i: int| 0 <= i < digits.len() implies digit_value(
            #[trigger] digits[i],
            base,
        ) is Some by {
            if i < rest.len() {
                assert(rest[i] == digits[i]);
            }
        }
    }
}

/// A run of digits in front of something else is read whole.
proof fn lemma_run(digits: Seq<u8>, rest: Seq<u8>, base: u8, most: nat)
    requires
        forall|i: int| 0 <= i < digits.len() ==> digit_value(#[trigger] digits[i], base) is Some,
        rest.len() == 0 || digit_value(rest[0], base) is None || digits.len() == most,
        digits.len() <= most,
    ensures
        digit_run(digits + rest, base, most) == digits.len(),
    decreases digits.len(),
{
    let s = digits + rest;
    if digits.len() == 0 {
        if rest.len() > 0 && most > 0 {
            assert(s[0] == rest[0]);
        }
    } else {
        assert(s[0] == digits[0]);
        assert(s.drop_first() =~= digits.drop_first() + rest);
        assert forall|i: int| 0 <= i < digits.drop_first().len() implies digit_value(
            #[trigger] digits.drop_first()[i],
            base,
        ) is Some by {
            assert(digits.drop_first()[i] == digits[i + 1]);
        }
        lemma_run(digits.drop_first(), rest, base, (most - 1) as nat);
    }
}

// ---------------------------------------------------------------------------
// Percent encoding

/// `%` and two hexadecimal digits are the byte that the digits write.
pub proof fn percent_escapes_are_the_byte_they_write(
    high: u8,
    low: u8,
    h: int,
    l: int,
    rest: Seq<u8>,
)
    requires
        is_digit_for(high, h),
        is_digit_for(low, l),
    ensures
        transformed(Transformation::UrlDecodeUni, seq!['%' as u8, high, low] + rest) == seq![
            (16 * h + l) as u8,
        ] + transformed(Transformation::UrlDecodeUni, rest),
{
    let s = seq!['%' as u8, high, low] + rest;
    lemma_digit(high, h, 16);
    lemma_digit(low, l, 16);
    assert(s.skip(1)[0] == high && s.skip(1)[1] == low);
    assert(s.skip(3) =~= rest);
    assert(url_token(s) == ((16 * h + l) as u8, 3int));
}

/// `%u` and four hexadecimal digits are the character that the digits number: a
/// full-width one is the plain one, any other its low byte.
pub proof fn percent_u_escapes_are_the_character_they_number(
    u: u8,
    digits: Seq<u8>,
    code: int,
    rest: Seq<u8>,
)
    requires
        u == 'u' as u8 || u == 'U' as u8,
        digits.len() == 4,
        writes(digits, 16, code),
    ensures
        transformed(Transformation::UrlDecodeUni, seq!['%' as u8, u] + digits + rest) == seq![
            plain_byte(code),
        ] + transformed(Transformation::UrlDecodeUni, rest),
{
    let s = seq!['%' as u8, u] + digits + rest;
    lemma_writes(digits, 16, code);
    lemma_small(digits, code, 4);
    assert(s.skip(2) =~= digits + rest);
    lemma_run(digits, rest, 16, 4);
    assert(s.subrange(2, 6) =~= digits);
    assert(s.skip(6) =~= rest);
    assert(s[0] == '%' as u8 && s[1] == u);
    assert(url_token(s) == (plain_byte(code), 6int));
}

/// The byte that stands for a character: a full-width one (U+FF01 through U+FF5E)
/// is 0xFEE0 above its plain form, any other is cut to its low byte.
pub open spec fn plain_byte(code: int) -> u8 {
    if 0xff01 <= code <= 0xff5e {
        (code - 0xfee0) as u8
    } else {
        (code % 256) as u8
    }
}

proof fn lemma_small(digits: Seq<u8>, n: int, width: nat)
    requires
        writes(digits, 16, n),
        digits.len() <= width <= 6,
    ensures
        0 <= n < 0x1000000,
        width <= 4 ==> n < 0x10000,
{
    reveal_with_fuel(writes, 7);
    if digits.len() > 0 {
        let a = digits.drop_last();
        if a.len() > 0 {
            let b = a.drop_last();
            if b.len() > 0 {
                let c = b.drop_last();
                if c.len() > 0 {
                    let d = c.drop_last();
                    if d.len() > 0 {
                        let e = d.drop_last();
                        assert(e.len() <= 1);
                        if e.len() > 0 {
                            assert(e.drop_last().len() == 0);
                        }
                    }
                }
            }
        }
    }
}

/// A plus is a space.
pub proof fn a_plus_is_a_space(rest: Seq<u8>)
    ensures
        transformed(Transformation::UrlDecodeUni, seq!['+' as u8] + rest) == seq![' ' as u8]
            + transformed(Transformation::UrlDecodeUni, rest),
{
    let s = seq!['+' as u8] + rest;
    assert(s.skip(1) =~= rest);
    assert(s[0] == '+' as u8);
}

/// A `%` that introduces neither kind of escape stays, and so does every other
/// byte but the plus.
pub proof fn what_is_no_percent_escape_stays(b: u8, rest: Seq<u8>)
    requires
        b != '+' as u8,
        b == '%' as u8 ==> !(rest.len() >= 2 && is_digit_in(rest[0], 16) && is_digit_in(
            rest[1],
            16,
        )),
        b == '%' as u8 ==> !(rest.len() >= 5 && (rest[0] == 'u' as u8 || rest[0] == 'U' as u8)
            && is_digit_in(rest[1], 16) && is_digit_in(rest[2], 16) && is_digit_in(rest[3], 16)
            && is_digit_in(rest[4], 16)),
    ensures
        transformed(Transformation::UrlDecodeUni, seq![b] + rest) == seq![b] + transformed(
            Transformation::UrlDecodeUni,
            rest,
        ),
{
    let s = seq![b] + rest;
    assert(s.skip(1) =~= rest);
    assert(s[0] == b);
    if b == '%' as u8 {
        lemma_digit_run(s.skip(2), 16, 4);
        if rest.len() >= 2 {
            if !is_digit_in(rest[0], 16) {
                lemma_no_digit(rest[0], 16);
            }
            if !is_digit_in(rest[1], 16) {
                lemma_no_digit(rest[1], 16);
            }
        }
        if s.len() >= 6 && (s[1] == 'u' as u8 || s[1] == 'U' as u8) {
            assert(s[1] == rest[0]);
            if digit_run(s.skip(2), 16, 4) == 4 {
                assert forall|j: int| 1 <= j < 5 implies is_digit_in(#[trigger] rest[j], 16) by {
                    assert(s.skip(2)[j - 1] == rest[j]);
                    if !is_digit_in(rest[j], 16) {
                        lemma_no_digit(rest[j], 16);
                    }
                }
            }
        }
        assert(url_token(s) == (b, 1int));
    }
}

// ---------------------------------------------------------------------------
// HTML entities

/// Nothing, or a semicolon.
pub open spec fn is_entity_end(end: Seq<u8>) -> bool {
    end == Seq::<u8>::empty() || end == seq![';' as u8]
}

/// What a numeric entity is in front of `rest`: the low byte of its number, where
/// a number beyond 32 bits counts as the largest.
spec fn entity_byte(n: int) -> u8 {
    (capped(n as nat) % 256) as u8
}

proof fn lemma_numeric_entity(
    front: Seq<u8>,
    digits: Seq<u8>,
    base: u8,
    n: int,
    end: Seq<u8>,
    rest: Seq<u8>,
)
    requires
        front == seq!['&' as u8, '#' as u8] && base == 10 || (front == seq![
            '&' as u8,
            '#' as u8,
            'x' as u8,
        ] || front == seq!['&' as u8, '#' as u8, 'X' as u8]) && base == 16,
        digits.len() > 0,
        writes(digits, base as int, n),
        is_entity_end(end),
        end.len() == 0 ==> rest.len() == 0 || (rest[0] != ';' as u8 && !is_digit_in(
            rest[0],
            base as int,
        )),
    ensures
        transformed(Transformation::HtmlEntityDecode, front + digits + end + rest) == seq![
            entity_byte(n),
        ] + transformed(Transformation::HtmlEntityDecode, rest),
{
    let s = front + digits + end + rest;
    let at = front.len() as int;
    let tail = end + rest;
    lemma_writes(digits, base, n);
    assert(s.skip(at) =~= digits + tail);
    if end.len() == 0 {
        if rest.len() > 0 {
            assert(tail[0] == rest[0]);
            lemma_no_digit(rest[0], base);
        }
    } else {
        assert(tail[0] == ';' as u8);
    }
    assert forall|i: int| 0 <= i < front.len() implies s[i] == front[i] by {}
    if base == 10 {
        assert(s[2] == digits[0]);
        assert(digit_value(digits[0], 10) is Some);
    }
    lemma_run(digits, tail, base, s.skip(at).len());
    assert(s.skip(at).take(digits.len() as int) =~= digits);
    let after = at + digits.len();
    if after < s.len() {
        assert(s[after] == tail[0]);
    }
    assert(s.skip((after + end.len()) as int) =~= rest);
    assert(html_token(s) == (entity_byte(n), (after + end.len()) as int));
}

/// A decimal entity is the low byte of the number that its digits write, every
/// digit read: `&#106;` is `j`. The semicolon may be missing.
pub proof fn decimal_entities_are_the_byte_they_number(
    digits: Seq<u8>,
    n: int,
    end: Seq<u8>,
    rest: Seq<u8>,
)
    requires
        digits.len() > 0,
        writes(digits, 10, n),
        is_entity_end(end),
        end.len() == 0 ==> rest.len() == 0 || (rest[0] != ';' as u8 && !is_digit_in(rest[0], 10)),
    ensures
        n < 0x1_0000_0000 ==> transformed(
            Transformation::HtmlEntityDecode,
            seq!['&' as u8, '#' as u8] + digits + end + rest,
        ) == seq![(n % 256) as u8] + transformed(Transformation::HtmlEntityDecode, rest),
        n >= 0x1_0000_0000 ==> transformed(
            Transformation::HtmlEntityDecode,
            seq!['&' as u8, '#' as u8] + digits + end + rest,
        ) == seq![0xffu8] + transformed(Transformation::HtmlEntityDecode, rest),
{
    lemma_writes(digits, 10, n);
    lemma_numeric_entity(seq!['&' as u8, '#' as u8], digits, 10, n, end, rest);
}

/// A hexadecimal entity is the low byte of the number that its digits write, every
/// digit read: `&#x6a;` is `j`. The semicolon may be missing.
pub proof fn hexadecimal_entities_are_the_byte_they_number(
    x: u8,
    digits: Seq<u8>,
    n: int,
    end: Seq<u8>,
    rest: Seq<u8>,
)
    requires
        x == 'x' as u8 || x == 'X' as u8,
        digits.len() > 0,
        writes(digits, 16, n),
        is_entity_end(end),
        end.len() == 0 ==> rest.len() == 0 || (rest[0] != ';' as u8 && !is_digit_in(rest[0], 16)),
    ensures
        n < 0x1_0000_0000 ==> transformed(
            Transformation::HtmlEntityDecode,
            seq!['&' as u8, '#' as u8, x] + digits + end + rest,
        ) == seq![(n % 256) as u8] + transformed(Transformation::HtmlEntityDecode, rest),
        n >= 0x1_0000_0000 ==> transformed(
            Transformation::HtmlEntityDecode,
            seq!['&' as u8, '#' as u8, x] + digits + end + rest,
        ) == seq![0xffu8] + transformed(Transformation::HtmlEntityDecode, rest),
{
    lemma_writes(digits, 16, n);
    lemma_numeric_entity(seq!['&' as u8, '#' as u8, x], digits, 16, n, end, rest);
}

/// Whether some bytes spell a name of small letters, in either case.
pub open spec fn spells(s: Seq<u8>, name: Seq<char>) -> bool {
    s.len() == name.len() && forall|i: int|
        0 <= i < s.len() ==> #[trigger] s[i] == name[i] as u8 || s[i] == name[i] as u8 - 32
}

/// The named entities, with the byte that each stands for.
pub open spec fn entities() -> Seq<(Seq<char>, u8)> {
    seq![
        (seq!['l', 't'], '<' as u8),
        (seq!['g', 't'], '>' as u8),
        (seq!['a', 'm', 'p'], '&' as u8),
        (seq!['q', 'u', 'o', 't'], '"' as u8),
        (seq!['n', 'b', 's', 'p'], 0xa0u8),
    ]
}

spec fn name_bytes(name: Seq<char>) -> Seq<u8> {
    Seq::new(name.len(), |i: int| name[i] as u8)
}

proof fn lemma_spelled(s: Seq<u8>, name: Seq<char>)
    requires
        forall|i: int| 0 <= i < name.len() ==> 'a' <= #[trigger] name[i] <= 'z',
    ensures
        spells(s, name) <==> lower_bytes(s) == name_bytes(name),
{
    if spells(s, name) {
        assert forall|i: int| 0 <= i < s.len() implies lower_byte(#[trigger] s[i])
            == name[i] as u8 by {
            assert('a' <= name[i] <= 'z');
        }
        assert(lower_bytes(s) =~= name_bytes(name));
    }
    if lower_bytes(s) == name_bytes(name) {
        assert(s.len() == lower_bytes(s).len());
        assert forall|i: int| 0 <= i < s.len() implies #[trigger] s[i] == name[i] as u8 || s[i]
            == name[i] as u8 - 32 by {
            assert(lower_bytes(s)[i] == name_bytes(name)[i]);
            assert('a' <= name[i] <= 'z');
        }
    }
}

proof fn lemma_starts(s: Seq<u8>, name: Seq<char>)
    requires
        forall|i: int| 0 <= i < name.len() ==> 'a' <= #[trigger] name[i] <= 'z',
    ensures
        starts_with_name(s, name_bytes(name)) <==> s.len() >= name.len() && spells(
            s.take(name.len() as int),
            name,
        ),
{
    if s.len() >= name.len() {
        lemma_spelled(s.take(name.len() as int), name);
    }
}

proof fn lemma_entity_names(s: Seq<u8>)
    ensures
        name_bytes(entities()[0].0) =~= seq!['l' as u8, 't' as u8],
        name_bytes(entities()[1].0) =~= seq!['g' as u8, 't' as u8],
        name_bytes(entities()[2].0) =~= seq!['a' as u8, 'm' as u8, 'p' as u8],
        name_bytes(entities()[3].0) =~= seq!['q' as u8, 'u' as u8, 'o' as u8, 't' as u8],
        name_bytes(entities()[4].0) =~= seq!['n' as u8, 'b' as u8, 's' as u8, 'p' as u8],
        forall|k: int|
            0 <= k < 5 ==> (starts_with_name(s, name_bytes((#[trigger] entities()[k]).0))
                <==> s.len() >= entities()[k].0.len() && spells(
                s.take(entities()[k].0.len() as int),
                entities()[k].0,
            )),
{
    assert forall|k: int| 0 <= k < 5 implies (starts_with_name(
        s,
        name_bytes((#[trigger] entities()[k]).0),
    ) <==> s.len() >= entities()[k].0.len() && spells(
        s.take(entities()[k].0.len() as int),
        entities()[k].0,
    )) by {
        lemma_starts(s, entities()[k].0);
    }
}

/// A named entity is the byte that it stands for, in whatever case its name is
/// written. The semicolon may be missing.
pub proof fn named_entities_are_the_byte_they_name(
    k: int,
    name: Seq<u8>,
    end: Seq<u8>,
    rest: Seq<u8>,
)
    requires
        0 <= k < entities().len(),
        spells(name, entities()[k].0),
        is_entity_end(end),
        end.len() == 0 ==> rest.len() == 0 || rest[0] != ';' as u8,
    ensures
        transformed(Transformation::HtmlEntityDecode, seq!['&' as u8] + name + end + rest) == seq![
            entities()[k].1,
        ] + transformed(Transformation::HtmlEntityDecode, rest),
{
    let s = seq!['&' as u8] + name + end + rest;
    let behind = s.skip(1);
    assert(behind =~= name + end + rest);
    lemma_entity_names(behind);
    assert(behind.take(name.len() as int) =~= name);
    assert(s[1] == name[0]);
    assert(name[0] == entities()[k].0[0] as u8 || name[0] == entities()[k].0[0] as u8 - 32);
    assert forall|j: int| 0 <= j < 5 && j != k implies !starts_with_name(
        behind,
        name_bytes((#[trigger] entities()[j]).0),
    ) by {
        let other = entities()[j].0;
        if starts_with_name(behind, name_bytes(other)) {
            assert(behind.take(other.len() as int)[0] == name[0]);
            assert(spells(behind.take(other.len() as int), other));
        }
    }
    assert(starts_with_name(behind, name_bytes(entities()[k].0)));
    assert(starts_with_name(behind, name_bytes(entities()[0].0)) <==> k == 0);
    assert(starts_with_name(behind, name_bytes(entities()[1].0)) <==> k == 1);
    assert(starts_with_name(behind, name_bytes(entities()[2].0)) <==> k == 2);
    assert(starts_with_name(behind, name_bytes(entities()[3].0)) <==> k == 3);
    assert(starts_with_name(behind, name_bytes(entities()[4].0)) <==> k == 4);
    let n = 1 + name.len();
    if n < s.len() {
        if end.len() == 0 {
            assert(s[n as int] == rest[0]);
        } else {
            assert(s[n as int] == ';' as u8);
        }
    }
    assert(s.skip((n + end.len()) as int) =~= rest);
    assert(html_token(s) == (entities()[k].1, (n + end.len()) as int));
}

/// An `&` that introduces no entity stays, and so does every other byte.
pub proof fn what_is_no_entity_stays(b: u8, rest: Seq<u8>)
    requires
        b == '&' as u8 ==> !(rest.len() >= 2 && rest[0] == '#' as u8 && is_digit_in(rest[1], 10)),
        b == '&' as u8 ==> !(rest.len() >= 3 && rest[0] == '#' as u8 && (rest[1] == 'x' as u8
            || rest[1] == 'X' as u8) && is_digit_in(rest[2], 16)),
        b == '&' as u8 ==> forall|k: int|
            0 <= k < entities().len() && rest.len() >= (#[trigger] entities()[k]).0.len()
                ==> !spells(rest.take(entities()[k].0.len() as int), entities()[k].0),
    ensures
        transformed(Transformation::HtmlEntityDecode, seq![b] + rest) == seq![b] + transformed(
            Transformation::HtmlEntityDecode,
            rest,
        ),
{
    let s = seq![b] + rest;
    assert(s.skip(1) =~= rest);
    assert(s[0] == b);
    if b == '&' as u8 {
        lemma_entity_names(rest);
        assert forall|k: int| 0 <= k < 5 implies !starts_with_name(
            rest,
            name_bytes((#[trigger] entities()[k]).0),
        ) by {}
        assert(!starts_with_name(rest, name_bytes(entities()[0].0)));
        assert(!starts_with_name(rest, name_bytes(entities()[1].0)));
        assert(!starts_with_name(rest, name_bytes(entities()[2].0)));
        assert(!starts_with_name(rest, name_bytes(entities()[3].0)));
        assert(!starts_with_name(rest, name_bytes(entities()[4].0)));
        if rest.len() > 0 && rest[0] == '#' as u8 {
            if rest.len() >= 2 {
                assert(s[2] == rest[1]);
                assert(s.skip(2)[0] == rest[1]);
                if !is_digit_in(rest[1], 10) {
                    lemma_no_digit(rest[1], 10);
                }
            }
            if rest.len() >= 3 {
                assert(s.skip(3)[0] == rest[2]);
                if !is_digit_in(rest[2], 16) {
                    lemma_no_digit(rest[2], 16);
                }
            }
        }
        assert(html_token(s) == (b, 1int));
    }
}

// ---------------------------------------------------------------------------
// C escapes

/// The transformations that decode C escapes: `jsDecode` knows those too.
pub open spec fn decodes_c_escapes(t: Transformation) -> bool {
    t == Transformation::EscapeSeqDecode || t == Transformation::JsDecode
}

/// The escapes of one letter, with the byte that each stands for.
pub open spec fn letter_escapes() -> Seq<(char, u8)> {
    seq![
        ('a', 0x07u8),
        ('b', 0x08u8),
        ('t', 0x09u8),
        ('n', 0x0au8),
        ('v', 0x0bu8),
        ('f', 0x0cu8),
        ('r', 0x0du8),
    ]
}

proof fn lemma_escape(t: Transformation, s: Seq<u8>)
    requires
        decodes_c_escapes(t),
        s.len() > 0,
        s[0] != '\\' as u8 || s.len() < 2 || s[1] != 'u' as u8,
    ensures
        transformed(t, s) == seq![escape_token(s).0] + transformed(t, s.skip(escape_token(s).1)),
{
    if t == Transformation::JsDecode {
        assert(js_token(s) == escape_token(s));
    }
}

/// A backslash and one of the letters is the control byte that it names.
pub proof fn letter_escapes_are_control_bytes(t: Transformation, k: int, rest: Seq<u8>)
    requires
        decodes_c_escapes(t),
        0 <= k < letter_escapes().len(),
    ensures
        transformed(t, seq!['\\' as u8, letter_escapes()[k].0 as u8] + rest) == seq![
            letter_escapes()[k].1,
        ] + transformed(t, rest),
{
    let s = seq!['\\' as u8, letter_escapes()[k].0 as u8] + rest;
    lemma_escape(t, s);
    assert(s.skip(2) =~= rest);
    assert(s.skip(1)[0] == letter_escapes()[k].0 as u8);
    assert(escape_token(s) == (letter_escapes()[k].1, 2int));
}

/// `\x` and two hexadecimal digits are the byte that the digits write.
pub proof fn x_escapes_are_the_byte_they_write(
    t: Transformation,
    high: u8,
    low: u8,
    h: int,
    l: int,
    rest: Seq<u8>,
)
    requires
        decodes_c_escapes(t),
        is_digit_for(high, h),
        is_digit_for(low, l),
    ensures
        transformed(t, seq!['\\' as u8, 'x' as u8, high, low] + rest) == seq![(16 * h + l) as u8]
            + transformed(t, rest),
{
    let s = seq!['\\' as u8, 'x' as u8, high, low] + rest;
    lemma_escape(t, s);
    lemma_digit(high, h, 16);
    lemma_digit(low, l, 16);
    assert(s.skip(2)[0] == high && s.skip(2)[1] == low);
    assert(s.skip(4) =~= rest);
    assert(escape_token(s) == ((16 * h + l) as u8, 4int));
}

/// A backslash and one to three octal digits are the low byte of the number that
/// the digits write. A fourth digit is no part of the escape.
pub proof fn octal_escapes_are_the_byte_they_write(
    t: Transformation,
    digits: Seq<u8>,
    n: int,
    rest: Seq<u8>,
)
    requires
        decodes_c_escapes(t),
        1 <= digits.len() <= 3,
        writes(digits, 8, n),
        digits.len() == 3 || rest.len() == 0 || !is_digit_in(rest[0], 8),
    ensures
        transformed(t, seq!['\\' as u8] + digits + rest) == seq![(n % 256) as u8] + transformed(
            t,
            rest,
        ),
{
    let s = seq!['\\' as u8] + digits + rest;
    lemma_writes(digits, 8, n);
    assert(s.skip(1) =~= digits + rest);
    assert(s[1] == digits[0]);
    assert(digit_value(digits[0], 8) is Some);
    if rest.len() > 0 && !is_digit_in(rest[0], 8) {
        lemma_no_digit(rest[0], 8);
    }
    lemma_run(digits, rest, 8, 3);
    lemma_escape(t, s);
    assert(s.skip(1).take(digits.len() as int) =~= digits);
    assert(s.skip((1 + digits.len()) as int) =~= rest);
    assert(n < 512) by {
        reveal_with_fuel(writes, 5);
        let a = digits.drop_last();
        if a.len() > 0 {
            let b = a.drop_last();
            if b.len() > 0 {
                assert(b.drop_last().len() == 0);
            }
        }
    }
    assert(escape_token(s) == ((n % 256) as u8, (1 + digits.len()) as int));
}

/// A backslash before anything else is dropped: `\S` is `S`.
pub proof fn other_escapes_are_the_byte_itself(t: Transformation, b: u8, rest: Seq<u8>)
    requires
        decodes_c_escapes(t),
        forall|k: int|
            0 <= k < letter_escapes().len() ==> b != (#[trigger] letter_escapes()[k]).0 as u8,
        !is_digit_in(b, 8),
        b == 'x' as u8 ==> !(rest.len() >= 2 && is_digit_in(rest[0], 16) && is_digit_in(
            rest[1],
            16,
        )),
        t == Transformation::JsDecode ==> b != 'u' as u8,
    ensures
        transformed(t, seq!['\\' as u8, b] + rest) == seq![b] + transformed(t, rest),
{
    let s = seq!['\\' as u8, b] + rest;
    if t == Transformation::JsDecode {
        lemma_escape(t, s);
    }
    lemma_no_digit(b, 8);
    assert(s.skip(1)[0] == b);
    assert(s.skip(2) =~= rest);
    if rest.len() >= 2 {
        if !is_digit_in(rest[0], 16) {
            lemma_no_digit(rest[0], 16);
        }
        if !is_digit_in(rest[1], 16) {
            lemma_no_digit(rest[1], 16);
        }
    }
    assert(letter_escapes()[0].0 == 'a' && letter_escapes()[1].0 == 'b' && letter_escapes()[2].0
        == 't' && letter_escapes()[3].0 == 'n' && letter_escapes()[4].0 == 'v'
        && letter_escapes()[5].0 == 'f' && letter_escapes()[6].0 == 'r');
    assert(escape_token(s) == (b, 2int));
}

/// A byte that is no backslash stays, and so does a backslash at the end.
pub proof fn what_is_no_escape_stays(t: Transformation, b: u8, rest: Seq<u8>)
    requires
        decodes_c_escapes(t),
        b != '\\' as u8 || rest.len() == 0,
    ensures
        transformed(t, seq![b] + rest) == seq![b] + transformed(t, rest),
{
    let s = seq![b] + rest;
    assert(s.skip(1) =~= rest);
    assert(s[0] == b);
    lemma_escape(t, s);
}

// ---------------------------------------------------------------------------
// Script escapes

/// `\u` and four hexadecimal digits are the character that the digits number.
pub proof fn script_escapes_are_the_character_they_number(
    digits: Seq<u8>,
    code: int,
    rest: Seq<u8>,
)
    requires
        digits.len() == 4,
        writes(digits, 16, code),
    ensures
        transformed(Transformation::JsDecode, seq!['\\' as u8, 'u' as u8] + digits + rest) == seq![
            plain_byte(code),
        ] + transformed(Transformation::JsDecode, rest),
{
    let s = seq!['\\' as u8, 'u' as u8] + digits + rest;
    lemma_writes(digits, 16, code);
    lemma_small(digits, code, 4);
    assert(s.skip(2) =~= digits + rest);
    lemma_run(digits, rest, 16, 4);
    assert(s.subrange(2, 6) =~= digits);
    assert(s.skip(6) =~= rest);
    assert(s[2] == digits[0]);
    assert(digit_value(digits[0], 16) is Some);
    assert(js_token(s) == (plain_byte(code), 6int));
}

/// `\u{` with one to six hexadecimal digits and `}` is the character that the
/// digits number.
pub proof fn braced_script_escapes_are_the_character_they_number(
    digits: Seq<u8>,
    code: int,
    rest: Seq<u8>,
)
    requires
        1 <= digits.len() <= 6,
        writes(digits, 16, code),
    ensures
        transformed(
            Transformation::JsDecode,
            seq!['\\' as u8, 'u' as u8, '{' as u8] + digits + seq!['}' as u8] + rest,
        ) == seq![plain_byte(code)] + transformed(Transformation::JsDecode, rest),
{
    let s = seq!['\\' as u8, 'u' as u8, '{' as u8] + digits + seq!['}' as u8] + rest;
    let tail = seq!['}' as u8] + rest;
    lemma_writes(digits, 16, code);
    lemma_small(digits, code, 6);
    assert(s.skip(3) =~= digits + tail);
    assert(tail[0] == '}' as u8);
    lemma_run(digits, tail, 16, s.skip(3).len());
    assert(s.skip(3).take(digits.len() as int) =~= digits);
    assert(s[3 + digits.len() as int] == tail[0]);
    assert(s.skip((4 + digits.len()) as int) =~= rest);
    assert(js_token(s) == (plain_byte(code), (4 + digits.len()) as int));
}

/// A `\u` that introduces neither kind of escape is `u`.
pub proof fn a_script_escape_without_digits_is_its_letter(rest: Seq<u8>)
    requires
        !(rest.len() >= 4 && is_digit_in(rest[0], 16) && is_digit_in(rest[1], 16) && is_digit_in(
            rest[2],
            16,
        ) && is_digit_in(rest[3], 16)),
        rest.len() == 0 || rest[0] != '{' as u8,
    ensures
        transformed(Transformation::JsDecode, seq!['\\' as u8, 'u' as u8] + rest) == seq!['u' as u8]
            + transformed(Transformation::JsDecode, rest),
{
    let s = seq!['\\' as u8, 'u' as u8] + rest;
    assert(s.skip(2) =~= rest);
    assert(s.skip(1)[0] == 'u' as u8);
    lemma_digit_run(rest, 16, 4);
    if rest.len() >= 4 && digit_run(rest, 16, 4) == 4 {
        assert forall|j: int| 0 <= j < 4 implies is_digit_in(#[trigger] rest[j], 16) by {
            if !is_digit_in(rest[j], 16) {
                lemma_no_digit(rest[j], 16);
            }
        }
    }
    assert(js_token(s) == ('u' as u8, 2int));
}

/// A `\u{` without one to six hexadecimal digits and `}` behind it is `u`.
pub proof fn an_open_script_escape_is_its_letter(digits: Seq<u8>, rest: Seq<u8>)
    requires
        forall|i: int| 0 <= i < digits.len() ==> is_digit_in(#[trigger] digits[i], 16),
        rest.len() == 0 || !is_digit_in(rest[0], 16),
        digits.len() == 0 || digits.len() > 6 || rest.len() == 0 || rest[0] != '}' as u8,
    ensures
        transformed(
            Transformation::JsDecode,
            seq!['\\' as u8, 'u' as u8, '{' as u8] + digits + rest,
        ) == seq!['u' as u8] + transformed(
            Transformation::JsDecode,
            seq!['{' as u8] + digits + rest,
        ),
{
    let s = seq!['\\' as u8, 'u' as u8, '{' as u8] + digits + rest;
    assert(s.skip(2) =~= seq!['{' as u8] + digits + rest);
    assert(s.skip(3) =~= digits + rest);
    assert forall|i: int| 0 <= i < digits.len() implies digit_value(
        #[trigger] digits[i],
        16,
    ) is Some by {
        let n = choose|n: int| 0 <= n < 16 && #[trigger] is_digit_for(digits[i], n);
        lemma_digit(digits[i], n, 16);
    }
    if rest.len() > 0 {
        lemma_no_digit(rest[0], 16);
    }
    lemma_run(digits, rest, 16, s.skip(3).len());
    if 3 + digits.len() < s.len() {
        assert(s[3 + digits.len() as int] == rest[0]);
    }
    assert(js_token(s) == ('u' as u8, 2int));
}

// ---------------------------------------------------------------------------
// Style escapes

/// The character that a style escape numbers: a full-width one is the plain one;
/// zero, a surrogate and a number beyond Unicode are the replacement character.
pub open spec fn style_char(code: int) -> char {
    if 0xff01 <= code <= 0xff5e {
        (code - 0xfee0) as char
    } else if code == 0 || code > 0x10ffff || 0xd800 <= code <= 0xdfff {
        0xfffd as char
    } else {
        code as char
    }
}

/// Whether a byte is white space: a tab, a line feed, a vertical tab, a form feed,
/// a carriage return or a space.
pub open spec fn is_blank(b: u8) -> bool {
    b == 0x09 || b == 0x0a || b == 0x0b || b == 0x0c || b == 0x0d || b == 0x20
}

/// A backslash and one to six hexadecimal digits are the character that the digits
/// number, in UTF-8. One white space byte behind the digits belongs to the escape,
/// and a seventh digit does not.
pub proof fn style_escapes_are_the_character_they_number(
    digits: Seq<u8>,
    code: int,
    end: Seq<u8>,
    rest: Seq<u8>,
)
    requires
        1 <= digits.len() <= 6,
        writes(digits, 16, code),
        end.len() == 0 || end.len() == 1 && is_blank(end[0]),
        end.len() == 0 ==> rest.len() == 0 || !is_blank(rest[0]) && (digits.len() == 6
            || !is_digit_in(rest[0], 16)),
    ensures
        transformed(Transformation::CssDecode, seq!['\\' as u8] + digits + end + rest)
            == encode_utf8(seq![style_char(code)]) + transformed(Transformation::CssDecode, rest),
{
    let s = seq!['\\' as u8] + digits + end + rest;
    let tail = end + rest;
    lemma_writes(digits, 16, code);
    lemma_small(digits, code, 6);
    assert(s.skip(1) =~= digits + tail);
    if end.len() == 0 {
        assert(tail =~= rest);
        if rest.len() > 0 && !is_digit_in(rest[0], 16) {
            lemma_no_digit(rest[0], 16);
        }
    } else {
        assert(tail[0] == end[0]);
    }
    lemma_run(digits, tail, 16, 6);
    assert(s.skip(1).take(digits.len() as int) =~= digits);
    let n = 1 + digits.len();
    if n < s.len() {
        assert(s[n as int] == tail[0]);
    }
    assert(s.skip((n + end.len()) as int) =~= rest);
    assert(css_char(code as u32) == style_char(code));
    assert(css_token(s) == (encode_utf8(seq![style_char(code)]), (n + end.len()) as int));
}

/// A backslash before a line feed goes with it; before any other byte that is no
/// hexadecimal digit it goes alone.
pub proof fn other_style_escapes_are_the_byte_itself(b: u8, rest: Seq<u8>)
    requires
        !is_digit_in(b, 16),
    ensures
        transformed(Transformation::CssDecode, seq!['\\' as u8, b] + rest) == (if b == 0x0a {
            Seq::<u8>::empty()
        } else {
            seq![b]
        }) + transformed(Transformation::CssDecode, rest),
{
    let s = seq!['\\' as u8, b] + rest;
    lemma_no_digit(b, 16);
    assert(s.skip(1)[0] == b);
    assert(s.skip(2) =~= rest);
}

/// A byte that is no backslash stays, and a backslash at the end goes.
pub proof fn what_is_no_style_escape_stays(b: u8, rest: Seq<u8>)
    ensures
        b != '\\' as u8 ==> transformed(Transformation::CssDecode, seq![b] + rest) == seq![b]
            + transformed(Transformation::CssDecode, rest),
        transformed(Transformation::CssDecode, seq!['\\' as u8]) == Seq::<u8>::empty(),
{
    let s = seq![b] + rest;
    assert(s[0] == b);
    assert(s.skip(1) =~= rest);
    let alone = seq!['\\' as u8];
    assert(alone.skip(1) =~= seq![]);
    reveal_with_fuel(crate::decode::css_decoded, 2);
    assert(transformed(Transformation::CssDecode, alone) =~= seq![]);
}

// ---------------------------------------------------------------------------
// UTF-8 and base64

/// A character beyond ASCII is written as `%u` and its number in hexadecimal, of
/// four digits or as many as it takes.
pub proof fn characters_are_numbered(c: char, rest: Seq<u8>)
    requires
        c as u32 >= 0x80,
    ensures
        ({
            let r = transformed(Transformation::Utf8ToUnicode, encode_utf8(seq![c]) + rest);
            exists|digits: Seq<u8>|
                {
                    &&& writes(digits, 16, c as int)
                    &&& digits.len() >= 4
                    &&& digits.len() > 4 ==> digits[0] != '0' as u8
                    &&& all_small(digits)
                    &&& r == seq!['%' as u8, 'u' as u8] + digits + transformed(
                        Transformation::Utf8ToUnicode,
                        rest,
                    )
                }
        }),
{
    let front = encode_utf8(seq![c]);
    let s = front + rest;
    encode_utf8_first_scalar(seq![c]);
    assert(seq![c].drop_first() =~= seq![]);
    assert(front =~= vstd::utf8::encode_scalar(c as u32)) by {
        reveal_with_fuel(encode_utf8, 2);
    }
    let n = front.len() as int;
    assert forall|i: int| 0 <= i < n implies s[i] == front[i] by {}
    vstd::utf8::char_is_scalar(c);
    assert(front[0] >= 0x80) by {
        if front[0] < 0x80 {
            assert(vstd::utf8::is_leading_byte_width_1(front[0]));
            let b = front[0];
            assert(b & 0x7f <= 0x7f) by (bit_vector);
        }
    }
    assert(valid_first_scalar(s) && decode_first_scalar(s) == c as u32 && length_of_first_scalar(s)
        == n);
    assert(s.skip(n) =~= rest);
    let digits = hex_digits(c as nat, 4);
    lemma_hex_digits(c as nat, 4);
    assert(unicode_token(s) == (seq!['%' as u8, 'u' as u8] + digits, n));
}

/// Whether digits are written with small letters.
pub open spec fn all_small(digits: Seq<u8>) -> bool {
    forall|i: int| 0 <= i < digits.len() ==> !('A' as u8 <= #[trigger] digits[i] <= 'F' as u8)
}

proof fn lemma_hex_digits(n: nat, width: nat)
    ensures
        writes(hex_digits(n, width), 16, n as int),
        hex_digits(n, width).len() >= width,
        hex_digits(n, width).len() >= 1,
        hex_digits(n, width).len() > width && hex_digits(n, width).len() > 1 ==> hex_digits(
            n,
            width,
        )[0] != '0' as u8,
        all_small(hex_digits(n, width)),
    decreases n + width,
{
    let d = hex_digits(n, width);
    assert(is_digit_for(hex_digit(n % 16), (n % 16) as int));
    if n < 16 && width <= 1 {
        assert(n % 16 == n);
        assert(d.drop_last() =~= seq![]);
        assert(d.last() == hex_digit(n));
        assert(writes(d.drop_last(), 16, n as int / 16));
    } else {
        let less: nat = if width > 0 {
            (width - 1) as nat
        } else {
            0
        };
        lemma_hex_digits(n / 16, less);
        let front = hex_digits(n / 16, less);
        assert(d.drop_last() =~= front);
        assert(d.last() == hex_digit(n % 16));
        assert(d[0] == front[0]);
        assert forall|i: int| 0 <= i < d.len() implies !('A' as u8 <= #[trigger] d[i]
            <= 'F' as u8) by {
            if i < front.len() {
                assert(d[i] == front[i]);
            }
        }
        if d.len() > width && d.len() > 1 && front.len() == 1 {
            assert(width <= 1);
            assert(n >= 16);
            assert(front[0] != '0' as u8) by {
                assert(less == 0);
                if n / 16 >= 16 {
                    lemma_hex_digits((n / 16) / 16, 0);
                }
                assert(front =~= seq![hex_digit(n / 16)]);
            }
        }
    }
}

/// An ASCII byte stays, and so does a byte that starts no character.
pub proof fn what_is_no_character_stays(b: u8, rest: Seq<u8>)
    requires
        b < 0x80 || !valid_first_scalar(seq![b] + rest),
    ensures
        transformed(Transformation::Utf8ToUnicode, seq![b] + rest) == seq![b] + transformed(
            Transformation::Utf8ToUnicode,
            rest,
        ),
{
    let s = seq![b] + rest;
    assert(s[0] == b);
    assert(s.skip(1) =~= rest);
}

/// `base64Decode` undoes base64, passes over line breaks and stops at a byte that
/// is no digit, padding among them.
pub proof fn base64_is_undone(s: Seq<u8>, before: Seq<u8>, b: u8, after: Seq<u8>)
    ensures
        transformed(Transformation::Base64Decode, base64_encoded(s)) == s,
        b == 0x0d || b == 0x0a ==> transformed(
            Transformation::Base64Decode,
            before + seq![b] + after,
        ) == transformed(Transformation::Base64Decode, before + after),
        b != 0x0d && b != 0x0a && (forall|v: int| 0 <= v < 64 ==> b != #[trigger] base64_digit(v))
            ==> transformed(Transformation::Base64Decode, before + seq![b] + after) == transformed(
            Transformation::Base64Decode,
            before,
        ),
{
    base64_reads_back(s);
    if b == 0x0d || b == 0x0a {
        base64_ignores_line_breaks(before, b, after);
    } else if forall|v: int| 0 <= v < 64 ==> b != #[trigger] base64_digit(v) {
        if sextet(b) is Some {
            assert(base64_digit(sextet(b)->0 as int) == b);
        }
        base64_stops_at_a_foreign_byte(before, b, after);
    }
}

// ---------------------------------------------------------------------------
// Hexadecimal, length, case and digest

/// `hexEncode` writes each byte as two digits, the high one first, in small
/// letters.
pub proof fn bytes_are_written_in_hexadecimal(b: u8, rest: Seq<u8>)
    ensures
        transformed(Transformation::HexEncode, Seq::<u8>::empty()) == Seq::<u8>::empty(),
        transformed(Transformation::HexEncode, seq![b] + rest) == seq![
            small_digits()[b as int / 16] as u8,
            small_digits()[b as int % 16] as u8,
        ] + transformed(Transformation::HexEncode, rest),
{
    let s = seq![b] + rest;
    let r = transformed(Transformation::HexEncode, s);
    let t = transformed(Transformation::HexEncode, rest);
    assert(transformed(Transformation::HexEncode, Seq::<u8>::empty()) =~= Seq::<u8>::empty());
    assert forall|i: int| 2 <= i < r.len() implies r[i] == t[i - 2] by {
        assert(s[i / 2] == rest[(i - 2) / 2]);
    }
    assert(r =~= seq![small_digits()[b as int / 16] as u8, small_digits()[b as int % 16] as u8]
        + t);
}

pub proof fn lemma_decimal_bytes(n: nat)
    ensures
        writes(encode_utf8(decimal(n)), 10, n as int),
        encode_utf8(decimal(n)).len() >= 1,
        n > 0 ==> encode_utf8(decimal(n))[0] != '0' as u8,
        n < 10 ==> encode_utf8(decimal(n)).len() == 1,
    decreases n,
{
    let e = encode_utf8(decimal(n));
    let d = seq![digit(n % 10)];
    let last = encode_utf8(d);
    assert(is_ascii_chars(d)) by {
        assert(d[0] as u32 <= 0x7f);
    }
    is_ascii_chars_encode_utf8(d);
    assert(last =~= seq![(0x30 + n % 10) as u8]);
    assert(is_digit_for(last[0], (n % 10) as int));
    if n < 10 {
        assert(decimal(n) =~= d);
        assert(e.drop_last() =~= seq![]);
        assert(writes(e.drop_last(), 10, n as int / 10));
    } else {
        lemma_decimal_bytes(n / 10);
        assert(decimal(n) =~= decimal(n / 10) + d);
        lemma_encode_utf8_concat(decimal(n / 10), d);
        assert(e.drop_last() =~= encode_utf8(decimal(n / 10)));
        assert(e[0] == encode_utf8(decimal(n / 10))[0]);
    }
}

/// `length` is the number of bytes, in decimal and without leading zeros.
pub proof fn lengths_are_written_in_decimal(s: Seq<u8>)
    ensures
        ({
            let r = transformed(Transformation::Length, s);
            &&& writes(r, 10, s.len() as int)
            &&& r.len() >= 1
            &&& r.len() > 1 ==> r[0] != '0' as u8
        }),
{
    lemma_decimal_bytes(s.len());
}

/// `lowercase` turns each ASCII capital into its small letter and keeps the rest.
pub proof fn capitals_are_turned_small(s: Seq<u8>, i: int)
    requires
        0 <= i < s.len(),
    ensures
        transformed(Transformation::Lowercase, s).len() == s.len(),
        transformed(Transformation::Lowercase, s)[i] == (if 0x41 <= s[i] <= 0x5a {
            (s[i] + 32) as u8
        } else {
            s[i]
        }),
{
}

/// `none` keeps its input, and `sha1` is the digest of it.
pub proof fn identity_and_digest(s: Seq<u8>)
    ensures
        transformed(Transformation::Identity, s) == s,
        transformed(Transformation::Sha1, s) == sha1_digest(s),
{
}

// ---------------------------------------------------------------------------
// Bytes taken out

proof fn lemma_filter_front(b: u8, rest: Seq<u8>, keep: spec_fn(u8) -> bool)
    ensures
        (seq![b] + rest).filter(keep) == (if keep(b) {
            seq![b]
        } else {
            Seq::<u8>::empty()
        }) + rest.filter(keep),
{
    Seq::filter_distributes_over_add(seq![b], rest, keep);
    lemma_filter_one(b, keep);
}

/// `removeNulls` takes out the zero bytes and keeps the others.
pub proof fn nulls_are_taken_out(b: u8, rest: Seq<u8>)
    ensures
        transformed(Transformation::RemoveNulls, Seq::<u8>::empty()) == Seq::<u8>::empty(),
        transformed(Transformation::RemoveNulls, seq![b] + rest) == (if b == 0 {
            Seq::<u8>::empty()
        } else {
            seq![b]
        }) + transformed(Transformation::RemoveNulls, rest),
{
    reveal(Seq::filter);
    lemma_filter_front(b, rest, |b: u8| b != 0);
}

/// `removeWhitespace` takes out the white space and keeps the other bytes.
pub proof fn white_space_is_taken_out(b: u8, rest: Seq<u8>)
    ensures
        transformed(Transformation::RemoveWhitespace, Seq::<u8>::empty()) == Seq::<u8>::empty(),
        transformed(Transformation::RemoveWhitespace, seq![b] + rest) == (if is_blank(b) {
            Seq::<u8>::empty()
        } else {
            seq![b]
        }) + transformed(Transformation::RemoveWhitespace, rest),
{
    reveal(Seq::filter);
    lemma_filter_front(b, rest, |b: u8| !crate::bytes::is_space(b));
}

/// `compressWhitespace` keeps a byte that is no white space, and makes one space of
/// a run of white space.
pub proof fn white_space_is_compressed(b: u8, rest: Seq<u8>)
    ensures
        transformed(Transformation::CompressWhitespace, Seq::<u8>::empty()) == Seq::<u8>::empty(),
        !is_blank(b) ==> transformed(Transformation::CompressWhitespace, seq![b] + rest) == seq![b]
            + transformed(Transformation::CompressWhitespace, rest),
        is_blank(b) && rest.len() > 0 && is_blank(rest[0]) ==> transformed(
            Transformation::CompressWhitespace,
            seq![b] + rest,
        ) == transformed(Transformation::CompressWhitespace, rest),
        is_blank(b) && (rest.len() == 0 || !is_blank(rest[0])) ==> transformed(
            Transformation::CompressWhitespace,
            seq![b] + rest,
        ) == seq![' ' as u8] + transformed(Transformation::CompressWhitespace, rest),
{
    let s = seq![b] + rest;
    assert(s[0] == b);
    assert(s.drop_first() =~= rest);
    reveal_with_fuel(crate::transform::compressed, 2);
}

// ---------------------------------------------------------------------------
// Comments

/// The marks that open or close a comment, the longer before those they start
/// with.
pub open spec fn comment_marks() -> Seq<Seq<char>> {
    seq![
        seq!['<', '!', '-', '-'],
        seq!['-', '-', '>'],
        seq!['-', '-'],
        seq!['/', '*'],
        seq!['*', '/'],
        seq!['#'],
    ]
}

/// Whether a mark stands at the front of `s`.
pub open spec fn starts_with_mark(s: Seq<u8>, mark: Seq<char>) -> bool {
    s.len() >= mark.len() && forall|i: int| 0 <= i < mark.len() ==> s[i] == #[trigger] mark[i] as u8
}

/// `removeCommentsChar` takes out the marks that open or close a comment, the
/// longest where two stand at one place, and keeps every other byte.
pub proof fn comment_marks_are_taken_out(s: Seq<u8>, k: int)
    requires
        0 <= k < comment_marks().len(),
        starts_with_mark(s, comment_marks()[k]),
        k == 2 ==> !starts_with_mark(s, comment_marks()[1]),
    ensures
        transformed(Transformation::RemoveCommentsChar, s) == transformed(
            Transformation::RemoveCommentsChar,
            s.skip(comment_marks()[k].len() as int),
        ),
{
    let mark = comment_marks()[k];
    assert(mark.len() >= 1);
    assert(s[0] == mark[0] as u8);
    if mark.len() >= 2 {
        assert(s[1] == mark[1] as u8);
    }
    if mark.len() >= 3 {
        assert(s[2] == mark[2] as u8);
    }
    if mark.len() >= 4 {
        assert(s[3] == mark[3] as u8);
    }
    if k == 2 && s.len() >= 3 && s[2] == '>' as u8 {
        assert(starts_with_mark(s, comment_marks()[1]));
    }
    assert(comment_mark(s) == mark.len());
}

/// A byte at which no comment mark stands stays.
pub proof fn what_is_no_comment_mark_stays(b: u8, rest: Seq<u8>)
    requires
        forall|k: int|
            0 <= k < comment_marks().len() ==> !starts_with_mark(
                seq![b] + rest,
                #[trigger] comment_marks()[k],
            ),
    ensures
        transformed(Transformation::RemoveCommentsChar, seq![b] + rest) == seq![b] + transformed(
            Transformation::RemoveCommentsChar,
            rest,
        ),
{
    let s = seq![b] + rest;
    assert(s[0] == b);
    assert(s.skip(1) =~= rest);
    assert(!starts_with_mark(s, comment_marks()[0]));
    assert(!starts_with_mark(s, comment_marks()[1]));
    assert(!starts_with_mark(s, comment_marks()[2]));
    assert(!starts_with_mark(s, comment_marks()[3]));
    assert(!starts_with_mark(s, comment_marks()[4]));
    assert(!starts_with_mark(s, comment_marks()[5]));
    assert(comment_mark(s) == 0);
}

proof fn lemma_first_close(inside: Seq<u8>, rest: Seq<u8>)
    requires
        forall|i: int|
            0 <= i < inside.len() - 1 ==> !(#[trigger] inside[i] == '*' as u8 && inside[i + 1]
                == '/' as u8),
    ensures
        comment_rest(inside + seq!['*' as u8, '/' as u8] + rest) == inside.len() + 2,
    decreases inside.len(),
{
    let s = inside + seq!['*' as u8, '/' as u8] + rest;
    if inside.len() == 0 {
        assert(s[0] == '*' as u8 && s[1] == '/' as u8);
    } else {
        let less = inside.drop_first();
        assert(s.drop_first() =~= less + seq!['*' as u8, '/' as u8] + rest);
        assert forall|i: int| 0 <= i < less.len() - 1 implies !(#[trigger] less[i] == '*' as u8
            && less[i + 1] == '/' as u8) by {
            assert(less[i] == inside[i + 1]);
            assert(!(inside[i + 1] == '*' as u8 && inside[i + 1 + 1] == '/' as u8));
        }
        lemma_first_close(less, rest);
        assert(s[0] == inside[0]);
        if inside.len() > 1 {
            assert(s[1] == inside[1]);
        } else {
            assert(s[1] == '*' as u8);
        }
    }
}

/// `replaceComments` makes one space of a comment, up to the first `*/` behind its
/// `/*`, or to the end where there is none; it keeps a byte at which no comment
/// opens.
pub proof fn comments_become_a_space(b: u8, inside: Seq<u8>, rest: Seq<u8>)
    requires
        forall|i: int|
            0 <= i < inside.len() - 1 ==> !(#[trigger] inside[i] == '*' as u8 && inside[i + 1]
                == '/' as u8),
    ensures
        transformed(
            Transformation::ReplaceComments,
            seq!['/' as u8, '*' as u8] + inside + seq!['*' as u8, '/' as u8] + rest,
        ) == seq![' ' as u8] + transformed(Transformation::ReplaceComments, rest),
        transformed(Transformation::ReplaceComments, seq!['/' as u8, '*' as u8] + inside) == seq![
            ' ' as u8,
        ],
        !(b == '/' as u8 && rest.len() > 0 && rest[0] == '*' as u8) ==> transformed(
            Transformation::ReplaceComments,
            seq![b] + rest,
        ) == seq![b] + transformed(Transformation::ReplaceComments, rest),
{
    let s = seq!['/' as u8, '*' as u8] + inside + seq!['*' as u8, '/' as u8] + rest;
    assert(s.skip(2) =~= inside + seq!['*' as u8, '/' as u8] + rest);
    lemma_first_close(inside, rest);
    assert(s.skip((inside.len() + 4) as int) =~= rest);
    assert(s[0] == '/' as u8 && s[1] == '*' as u8);
    let before: Seq<u8> = seq![];
    crate::transform::an_open_comment_ends_the_text(before, inside);
    assert(before + seq!['/' as u8, '*' as u8] + inside =~= seq!['/' as u8, '*' as u8] + inside);
    assert(before.push(' ' as u8) =~= seq![' ' as u8]);
    let k = seq![b] + rest;
    assert(k[0] == b);
    assert(k.skip(1) =~= rest);
    if rest.len() > 0 {
        assert(k[1] == rest[0]);
    }
}

// ---------------------------------------------------------------------------
// Shell commands

/// Whether a shell drops a byte: a quote, a backslash or a caret.
pub open spec fn is_dropped(b: u8) -> bool {
    b == 0x22 || b == 0x27 || b == 0x5c || b == 0x5e
}

/// Whether a byte parts words: a space, a tab, a carriage return or a line feed.
pub open spec fn parts_words(b: u8) -> bool {
    b == 0x20 || b == 0x09 || b == 0x0d || b == 0x0a
}

/// Whether a byte is a comma or a semicolon.
pub open spec fn parts_commands(b: u8) -> bool {
    b == 0x2c || b == 0x3b
}

/// `cmdLine`, read from the front: quotes, backslashes and carets go. A comma or a
/// semicolon is a space, and so is white space, one for a run; but white space goes
/// before a slash or an opening parenthesis. Any other byte stays, a capital turned
/// small.
pub proof fn commands_are_spelled_plainly(b: u8, rest: Seq<u8>)
    ensures
        ({
            let r = transformed(Transformation::CmdLine, rest);
            let whole = transformed(Transformation::CmdLine, seq![b] + rest);
            &&& transformed(Transformation::CmdLine, Seq::<u8>::empty()) == Seq::<u8>::empty()
            &&& is_dropped(b) ==> whole == r
            &&& parts_words(b) || parts_commands(b) ==> whole == if r.len() > 0 && r[0] == 0x20 {
                r
            } else if parts_words(b) && r.len() > 0 && (r[0] == 0x2f || r[0] == 0x28) {
                r
            } else {
                seq![0x20u8] + r
            }
            &&& !is_dropped(b) && !parts_words(b) && !parts_commands(b) ==> whole == seq![
                if 0x41 <= b <= 0x5a {
                    (b + 32) as u8
                } else {
                    b
                },
            ] + r
        }),
{
    let keep = |b: u8| !is_shell_noise(b);
    let kept = rest.filter(keep);
    lemma_filter_front(b, rest, keep);
    let c = closed_up(kept);
    let m = c.map_values(|b: u8| spaced(b));
    let empty = Seq::<u8>::empty();
    assert(transformed(Transformation::CmdLine, empty) =~= empty) by {
        reveal(Seq::filter);
        assert(empty.filter(keep) =~= empty);
        assert(closed_up(empty) =~= empty);
        assert(empty.map_values(|b: u8| spaced(b)) =~= empty);
        assert(shell_respelled(empty) =~= empty);
    }
    let r = shell_respelled(kept);
    assert(r == transformed(Transformation::CmdLine, rest));
    if is_dropped(b) {
        assert((seq![b] + rest).filter(keep) =~= kept);
    } else {
        assert((seq![b] + rest).filter(keep) == seq![b] + kept);
        if parts_words(b) || parts_commands(b) {
            lemma_closed_up_front(b, kept);
            lemma_mapped_front(b, c);
            lemma_collapsed_front(spaced(b), m);
            lemma_shell_first(kept);
            assert(spaced(b) == b || spaced(b) == 0x20);
            lemma_mapped_front(0x20, crate::transform::collapsed(m));
            if parts_words(b) && c.len() > 0 && (c[0] == 0x2f || c[0] == 0x28) {
                assert(closed_up(seq![b] + kept) == c);
            } else {
                assert(closed_up(seq![b] + kept) == seq![b] + c);
            }
        } else {
            lemma_respelled_plain(b, kept);
        }
    }
}

/// What a spelled-out command starts with.
proof fn lemma_shell_first(kept: Seq<u8>)
    ensures
        ({
            let c = closed_up(kept);
            let m = c.map_values(|b: u8| spaced(b));
            let r = shell_respelled(kept);
            &&& m.len() == c.len()
            &&& r.len() == 0 <==> c.len() == 0
            &&& c.len() > 0 ==> m[0] == spaced(c[0]) && r[0] == if parts_words(m[0]) {
                0x20
            } else {
                lower_byte(m[0])
            }
        }),
{
    let c = closed_up(kept);
    let m = c.map_values(|b: u8| spaced(b));
    lemma_collapsed_first(m);
}

proof fn lemma_collapsed_first(m: Seq<u8>)
    ensures
        crate::transform::collapsed(m).len() == 0 <==> m.len() == 0,
        m.len() > 0 ==> crate::transform::collapsed(m)[0] == if parts_words(m[0]) {
            0x20
        } else {
            m[0]
        },
    decreases m.len(),
{
    if m.len() > 0 {
        lemma_collapsed_first(m.drop_first());
        if m.len() > 1 {
            assert(m.drop_first()[0] == m[1]);
        }
    }
}

// ---------------------------------------------------------------------------
// Several transformations

/// Transformations run in the order in which they are written.
pub proof fn transformations_run_in_order(
    value: Seq<u8>,
    first: Seq<Transformation>,
    then_: Seq<Transformation>,
    one: Transformation,
)
    ensures
        applied(value, Seq::<Transformation>::empty()) == value,
        applied(value, seq![one]) == transformed(one, value),
        applied(value, first + then_) == applied(applied(value, first), then_),
    decreases then_.len(),
{
    reveal_with_fuel(applied, 2);
    assert(seq![one].drop_last() =~= seq![]);
    if then_.len() == 0 {
        assert(first + then_ =~= first);
    } else {
        transformations_run_in_order(value, first, then_.drop_last(), one);
        assert((first + then_).drop_last() =~= first + then_.drop_last());
        assert((first + then_).last() == then_.last());
    }
}

} // verus!
