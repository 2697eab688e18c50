//! Decoders for the encodings that hide a payload: percent and HTML entity
//! encoding, script and style escapes, base64 and UTF-8.
//!
//! Most decoders are specified by the token at the front of their input: the
//! bytes it stands for, and how many bytes of input it covers.

use crate::bytes::bytes_before;
use crate::bytes::bytes_from;
use crate::bytes::bytes_of_char;
use crate::bytes::char_of;
use crate::bytes::first_scalar;
use crate::bytes::is_ascii_space;
use crate::bytes::is_scalar_value;
use crate::bytes::is_space;
use crate::bytes::lower_bytes;
use crate::bytes::same_bytes;
use crate::bytes::to_lower_bytes;
use crate::digits::capped;
use crate::digits::count_digits;
use crate::digits::digit_run;
use crate::digits::digits_number;
use crate::digits::fold_unicode_code_point;
use crate::digits::folded;
use crate::digits::hex_digit;
use crate::digits::hex_digit_of;
use crate::digits::hex_nibble;
use crate::digits::hex_value;
use crate::digits::lemma_digit_run;
use crate::digits::read_digits;
use crate::text::push_bytes;
use std::borrow::Cow;
use vstd::prelude::*;
use vstd::utf8::char_u32_cast;
use vstd::utf8::decode_first_scalar;
use vstd::utf8::encode_utf8;
use vstd::utf8::length_of_first_scalar;
use vstd::utf8::valid_first_scalar;

verus! {

// ---------------------------------------------------------------------------
// Percent encoding

/// The number that the hexadecimal digits of `s` write.
pub open spec fn hex_number(s: Seq<u8>) -> u32 {
    capped(digits_number(s, 16))
}

/// Whether two hexadecimal digits stand at the front of `s`.
pub open spec fn has_hex_pair(s: Seq<u8>) -> bool {
    s.len() >= 2 && hex_value(s[0]) is Some && hex_value(s[1]) is Some
}

/// The byte that two hexadecimal digits write.
pub open spec fn hex_pair(s: Seq<u8>) -> u8 {
    (hex_value(s[0])->0 * 16 + hex_value(s[1])->0) as u8
}

fn read_hex_pair(s: &[u8]) -> (r: Option<u8>)
    ensures
        (match r {
            Some(b) => has_hex_pair(s@) && b == hex_pair(s@),
            None => !has_hex_pair(s@),
        }),
{
    if s.len() < 2 {
        return None;
    }
    match (hex_nibble(s[0]), hex_nibble(s[1])) {
        (Some(hi), Some(lo)) => Some(hi * 16 + lo),
        _ => None,
    }
}

/// The token at the front of percent-encoded bytes. An invalid escape is left
/// verbatim, as a decoder that swallowed it would hide the payload.
pub open spec fn url_token(s: Seq<u8>) -> (u8, int) {
    if s[0] == '+' as u8 {
        (' ' as u8, 1)
    } else if s[0] == '%' as u8 && s.len() >= 6 && (s[1] == 'u' as u8 || s[1] == 'U' as u8) {
        if digit_run(s.skip(2), 16, 4) == 4 {
            (folded(hex_number(s.subrange(2, 6))), 6)
        } else {
            ('%' as u8, 1)
        }
    } else if s[0] == '%' as u8 && has_hex_pair(s.skip(1)) {
        (hex_pair(s.skip(1)), 3)
    } else {
        (s[0], 1)
    }
}

pub proof fn lemma_url_token(s: Seq<u8>)
    requires
        s.len() > 0,
    ensures
        1 <= url_token(s).1 <= s.len(),
{
}

fn read_url_token(s: &[u8]) -> (r: (u8, usize))
    requires
        s@.len() > 0,
    ensures
        (r.0, r.1 as int) == url_token(s@),
        1 <= r.1 <= s@.len(),
{
    if s[0] == '+' as u8 {
        return (' ' as u8, 1);
    }
    if s[0] == '%' as u8 {
        if s.len() >= 6 && (s[1] == 'u' as u8 || s[1] == 'U' as u8) {
            let digits = bytes_from(s, 2);
            if count_digits(digits, 16, 4) == 4 {
                let code = read_digits(bytes_before(digits, 4), 16);
                assert(s@.skip(2).take(4) =~= s@.subrange(2, 6));
                return (fold_unicode_code_point(code), 6);
            }
            return ('%' as u8, 1);
        }
        if let Some(b) = read_hex_pair(bytes_from(s, 1)) {
            return (b, 3);
        }
    }
    (s[0], 1)
}

/// What percent-encoded bytes stand for: the bytes of their tokens.
pub open spec fn url_decoded(s: Seq<u8>) -> Seq<u8>
    decreases s.len(),
{
    if s.len() == 0 {
        seq![]
    } else {
        proof {
            lemma_url_token(s);
        }
        let (byte, n) = url_token(s);
        seq![byte] + url_decoded(s.skip(n))
    }
}

/// Percent-decoding including IIS-style `%uXXXX`, and `+` as space.
pub fn url_decode_uni(input: &[u8]) -> (r: Vec<u8>)
    ensures
        r@ == url_decoded(input@),
{
    let mut out: Vec<u8> = Vec::new();
    let mut i: usize = 0;
    let ghost whole = url_decoded(input@);
    assert(input@.skip(0) =~= input@);
    assert(out@ + whole =~= whole);
    while i < input.len()
        invariant
            i <= input@.len(),
            out@ + url_decoded(input@.skip(i as int)) == whole,
        decreases input@.len() - i,
    {
        let rest = bytes_from(input, i);
        let ghost start = out@;
        let (byte, n) = read_url_token(rest);
        assert(rest@.skip(n as int) =~= input@.skip(i + n));
        out.push(byte);
        assert(start + (seq![byte] + url_decoded(rest@.skip(n as int))) =~= out@ + url_decoded(
            rest@.skip(n as int),
        ));
        i += n;
    }
    assert(out@ + Seq::<u8>::empty() =~= out@);
    out
}

// ---------------------------------------------------------------------------
// HTML entities

/// Whether `s` starts with a name, in any ASCII case.
pub open spec fn starts_with_name(s: Seq<u8>, name: Seq<u8>) -> bool {
    s.len() >= name.len() && lower_bytes(s.take(name.len() as int)) == name
}

/// The byte and the name length of the named entity at the front of `s`.
pub open spec fn named_entity(s: Seq<u8>) -> Option<(u8, int)> {
    if starts_with_name(s, seq!['l' as u8, 't' as u8]) {
        Some(('<' as u8, 2))
    } else if starts_with_name(s, seq!['g' as u8, 't' as u8]) {
        Some(('>' as u8, 2))
    } else if starts_with_name(s, seq!['a' as u8, 'm' as u8, 'p' as u8]) {
        Some(('&' as u8, 3))
    } else if starts_with_name(s, seq!['q' as u8, 'u' as u8, 'o' as u8, 't' as u8]) {
        Some(('"' as u8, 4))
    } else if starts_with_name(s, seq!['n' as u8, 'b' as u8, 's' as u8, 'p' as u8]) {
        Some((0xa0, 4))
    } else {
        None
    }
}

/// `n`, and one more where a semicolon stands there.
pub open spec fn past_semicolon(s: Seq<u8>, n: int) -> int {
    if n < s.len() && s[n] == ';' as u8 {
        n + 1
    } else {
        n
    }
}

/// Where the digits of a numeric entity start: behind `&#` or `&#x`.
pub open spec fn entity_digits_at(s: Seq<u8>) -> int {
    if s.len() > 2 && (s[2] == 'x' as u8 || s[2] == 'X' as u8) {
        3
    } else {
        2
    }
}

pub open spec fn entity_base(s: Seq<u8>) -> u8 {
    if entity_digits_at(s) == 3 {
        16
    } else {
        10
    }
}

/// The token at the front of bytes with HTML entities. A numeric entity is the
/// low byte of its number, a number beyond 32 bits counting as the largest.
pub open spec fn html_token(s: Seq<u8>) -> (u8, int) {
    if s[0] != '&' as u8 {
        (s[0], 1)
    } else if s.len() > 1 && s[1] == '#' as u8 {
        let at = entity_digits_at(s);
        let n = digit_run(s.skip(at), entity_base(s), s.skip(at).len());
        if n > 0 {
            (
                (capped(digits_number(s.skip(at).take(n as int), entity_base(s))) % 256) as u8,
                past_semicolon(s, at + n),
            )
        } else {
            ('&' as u8, 1)
        }
    } else {
        match named_entity(s.skip(1)) {
            Some((byte, n)) => (byte, past_semicolon(s, 1 + n)),
            None => ('&' as u8, 1),
        }
    }
}

pub proof fn lemma_html_token(s: Seq<u8>)
    requires
        s.len() > 0,
    ensures
        1 <= html_token(s).1 <= s.len(),
{
    let at = entity_digits_at(s);
    lemma_digit_run(s.skip(at), entity_base(s), s.skip(at).len());
}

fn name_at(s: &[u8], name: &[u8]) -> (r: bool)
    ensures
        r == starts_with_name(s@, name@),
{
    if s.len() < name.len() {
        return false;
    }
    same_bytes(to_lower_bytes(bytes_before(s, name.len())).as_slice(), name)
}

fn read_named_entity(s: &[u8]) -> (r: Option<(u8, usize)>)
    ensures
        (match r {
            Some((byte, n)) => named_entity(s@) == Some((byte, n as int)) && n <= s@.len(),
            None => named_entity(s@) is None,
        }),
{
    let lt: [u8; 2] = ['l' as u8, 't' as u8];
    let gt: [u8; 2] = ['g' as u8, 't' as u8];
    let amp: [u8; 3] = ['a' as u8, 'm' as u8, 'p' as u8];
    let quot: [u8; 4] = ['q' as u8, 'u' as u8, 'o' as u8, 't' as u8];
    let nbsp: [u8; 4] = ['n' as u8, 'b' as u8, 's' as u8, 'p' as u8];
    assert(lt@ =~= seq!['l' as u8, 't' as u8]);
    assert(gt@ =~= seq!['g' as u8, 't' as u8]);
    assert(amp@ =~= seq!['a' as u8, 'm' as u8, 'p' as u8]);
    assert(quot@ =~= seq!['q' as u8, 'u' as u8, 'o' as u8, 't' as u8]);
    assert(nbsp@ =~= seq!['n' as u8, 'b' as u8, 's' as u8, 'p' as u8]);
    if name_at(s, &lt) {
        Some(('<' as u8, 2))
    } else if name_at(s, &gt) {
        Some(('>' as u8, 2))
    } else if name_at(s, &amp) {
        Some(('&' as u8, 3))
    } else if name_at(s, &quot) {
        Some(('"' as u8, 4))
    } else if name_at(s, &nbsp) {
        Some((0xa0, 4))
    } else {
        None
    }
}

fn skip_semicolon(s: &[u8], n: usize) -> (r: usize)
    requires
        n <= s@.len(),
    ensures
        r == past_semicolon(s@, n as int),
        r <= s@.len(),
{
    if n < s.len() && s[n] == ';' as u8 {
        n + 1
    } else {
        n
    }
}

fn read_html_token(s: &[u8]) -> (r: (u8, usize))
    requires
        s@.len() > 0,
    ensures
        (r.0, r.1 as int) == html_token(s@),
        1 <= r.1 <= s@.len(),
{
    if s[0] != '&' as u8 {
        return (s[0], 1);
    }
    if s.len() > 1 && s[1] == '#' as u8 {
        let is_hex = s.len() > 2 && (s[2] == 'x' as u8 || s[2] == 'X' as u8);
        let at: usize = if is_hex {
            3
        } else {
            2
        };
        let base: u8 = if is_hex {
            16
        } else {
            10
        };
        let digits = bytes_from(s, at);
        let n = count_digits(digits, base, digits.len());
        if n > 0 {
            let value = read_digits(bytes_before(digits, n), base);
            return ((value % 256) as u8, skip_semicolon(s, at + n));
        }
        return ('&' as u8, 1);
    }
    match read_named_entity(bytes_from(s, 1)) {
        Some((byte, n)) => (byte, skip_semicolon(s, 1 + n)),
        None => ('&' as u8, 1),
    }
}

/// What bytes with HTML entities stand for: the bytes of their tokens.
pub open spec fn html_decoded(s: Seq<u8>) -> Seq<u8>
    decreases s.len(),
{
    if s.len() == 0 {
        seq![]
    } else {
        proof {
            lemma_html_token(s);
        }
        let (byte, n) = html_token(s);
        seq![byte] + html_decoded(s.skip(n))
    }
}

/// Decode the HTML entities ModSecurity recognises: `&#DD;`, `&#xHH;` and the
/// named entities `lt`, `gt`, `amp`, `quot` and `nbsp`.
///
/// The trailing semicolon is optional, matching browser leniency, which is the
/// behaviour an attacker relies on.
pub fn html_entity_decode(input: &[u8]) -> (r: Vec<u8>)
    ensures
        r@ == html_decoded(input@),
{
    let mut out: Vec<u8> = Vec::new();
    let mut i: usize = 0;
    let ghost whole = html_decoded(input@);
    assert(input@.skip(0) =~= input@);
    assert(out@ + whole =~= whole);
    while i < input.len()
        invariant
            i <= input@.len(),
            out@ + html_decoded(input@.skip(i as int)) == whole,
        decreases input@.len() - i,
    {
        let rest = bytes_from(input, i);
        let ghost start = out@;
        let (byte, n) = read_html_token(rest);
        assert(rest@.skip(n as int) =~= input@.skip(i + n));
        out.push(byte);
        assert(start + (seq![byte] + html_decoded(rest@.skip(n as int))) =~= out@ + html_decoded(
            rest@.skip(n as int),
        ));
        i += n;
    }
    assert(out@ + Seq::<u8>::empty() =~= out@);
    out
}

// ---------------------------------------------------------------------------
// Script and C escapes

/// `\n` and friends. An escape of anything else yields that character, which
/// is how `\S\E\L\E\C\T` collapses to `SELECT`.
pub open spec fn plain_escape(c: u8) -> u8 {
    if c == 'a' as u8 {
        0x07
    } else if c == 'b' as u8 {
        0x08
    } else if c == 'f' as u8 {
        0x0c
    } else if c == 'n' as u8 {
        0x0a
    } else if c == 'r' as u8 {
        0x0d
    } else if c == 't' as u8 {
        0x09
    } else if c == 'v' as u8 {
        0x0b
    } else {
        c
    }
}

fn single_char_escape(c: u8) -> (r: u8)
    ensures
        r == plain_escape(c),
{
    if c == 'a' as u8 {
        0x07
    } else if c == 'b' as u8 {
        0x08
    } else if c == 'f' as u8 {
        0x0c
    } else if c == 'n' as u8 {
        0x0a
    } else if c == 'r' as u8 {
        0x0d
    } else if c == 't' as u8 {
        0x09
    } else if c == 'v' as u8 {
        0x0b
    } else {
        c
    }
}

/// The token at the front of bytes with C escapes.
pub open spec fn escape_token(s: Seq<u8>) -> (u8, int) {
    let octal = digit_run(s.skip(1), 8, 3);
    if s[0] != '\\' as u8 || s.len() < 2 {
        (s[0], 1)
    } else if s[1] == 'x' as u8 && has_hex_pair(s.skip(2)) {
        (hex_pair(s.skip(2)), 4)
    } else if octal > 0 {
        (
            (capped(digits_number(s.skip(1).take(octal as int), 8)) % 256) as u8,
            1 + octal as int,
        )
    } else {
        (plain_escape(s[1]), 2)
    }
}

pub proof fn lemma_escape_token(s: Seq<u8>)
    requires
        s.len() > 0,
    ensures
        1 <= escape_token(s).1 <= s.len(),
{
    lemma_digit_run(s.skip(1), 8, 3);
}

fn read_escape_token(s: &[u8]) -> (r: (u8, usize))
    requires
        s@.len() > 0,
    ensures
        (r.0, r.1 as int) == escape_token(s@),
        1 <= r.1 <= s@.len(),
{
    if s[0] != '\\' as u8 || s.len() < 2 {
        return (s[0], 1);
    }
    if s[1] == 'x' as u8 {
        if let Some(b) = read_hex_pair(bytes_from(s, 2)) {
            return (b, 4);
        }
    }
    let tail = bytes_from(s, 1);
    let octal = count_digits(tail, 8, 3);
    if octal > 0 {
        let value = read_digits(bytes_before(tail, octal), 8);
        return ((value % 256) as u8, 1 + octal);
    }
    (single_char_escape(s[1]), 2)
}

/// What bytes with C escapes stand for: the bytes of their tokens.
pub open spec fn escapes_decoded(s: Seq<u8>) -> Seq<u8>
    decreases s.len(),
{
    if s.len() == 0 {
        seq![]
    } else {
        proof {
            lemma_escape_token(s);
        }
        let (byte, n) = escape_token(s);
        seq![byte] + escapes_decoded(s.skip(n))
    }
}

/// Decode `\a \b \f \n \r \t \v`, `\xHH` and octal escapes.
pub fn escape_seq_decode(input: &[u8]) -> (r: Vec<u8>)
    ensures
        r@ == escapes_decoded(input@),
{
    let mut out: Vec<u8> = Vec::new();
    let mut i: usize = 0;
    let ghost whole = escapes_decoded(input@);
    assert(input@.skip(0) =~= input@);
    assert(out@ + whole =~= whole);
    while i < input.len()
        invariant
            i <= input@.len(),
            out@ + escapes_decoded(input@.skip(i as int)) == whole,
        decreases input@.len() - i,
    {
        let rest = bytes_from(input, i);
        let ghost start = out@;
        let (byte, n) = read_escape_token(rest);
        assert(rest@.skip(n as int) =~= input@.skip(i + n));
        out.push(byte);
        assert(start + (seq![byte] + escapes_decoded(rest@.skip(n as int))) =~= out@ + escapes_decoded(
            rest@.skip(n as int),
        ));
        i += n;
    }
    assert(out@ + Seq::<u8>::empty() =~= out@);
    out
}

/// How many hexadecimal digits stand behind `\u{`.
pub open spec fn braced_digits(s: Seq<u8>) -> nat {
    digit_run(s.skip(3), 16, s.skip(3).len())
}

/// The token at the front of bytes with script escapes: those of C, and the two
/// forms of `\u`.
pub open spec fn js_token(s: Seq<u8>) -> (u8, int) {
    if s.len() >= 3 && s[0] == '\\' as u8 && s[1] == 'u' as u8 && s[2] == '{' as u8 {
        let n = braced_digits(s);
        if 1 <= n <= 6 && 3 + n < s.len() && s[3 + n as int] == '}' as u8 {
            (folded(hex_number(s.skip(3).take(n as int))), 4 + n as int)
        } else {
            ('u' as u8, 2)
        }
    } else if s.len() >= 6 && s[0] == '\\' as u8 && s[1] == 'u' as u8 && digit_run(s.skip(2), 16, 4)
        == 4 {
        (folded(hex_number(s.subrange(2, 6))), 6)
    } else {
        escape_token(s)
    }
}

pub proof fn lemma_js_token(s: Seq<u8>)
    requires
        s.len() > 0,
    ensures
        1 <= js_token(s).1 <= s.len(),
{
    lemma_escape_token(s);
}

fn read_js_token(s: &[u8]) -> (r: (u8, usize))
    requires
        s@.len() > 0,
    ensures
        (r.0, r.1 as int) == js_token(s@),
        1 <= r.1 <= s@.len(),
{
    if s.len() >= 3 && s[0] == '\\' as u8 && s[1] == 'u' as u8 && s[2] == '{' as u8 {
        let digits = bytes_from(s, 3);
        let n = count_digits(digits, 16, digits.len());
        if 1 <= n && n <= 6 && n < digits.len() && s[3 + n] == '}' as u8 {
            let code = read_digits(bytes_before(digits, n), 16);
            return (fold_unicode_code_point(code), 4 + n);
        }
        return ('u' as u8, 2);
    }
    if s.len() >= 6 && s[0] == '\\' as u8 && s[1] == 'u' as u8 {
        let digits = bytes_from(s, 2);
        if count_digits(digits, 16, 4) == 4 {
            let code = read_digits(bytes_before(digits, 4), 16);
            assert(s@.skip(2).take(4) =~= s@.subrange(2, 6));
            return (fold_unicode_code_point(code), 6);
        }
    }
    read_escape_token(s)
}

/// What bytes with script escapes stand for: the bytes of their tokens.
pub open spec fn js_decoded(s: Seq<u8>) -> Seq<u8>
    decreases s.len(),
{
    if s.len() == 0 {
        seq![]
    } else {
        proof {
            lemma_js_token(s);
        }
        let (byte, n) = js_token(s);
        seq![byte] + js_decoded(s.skip(n))
    }
}

/// Decode `\uHHHH`, `\u{H...H}`, `\xHH`, octal and single-character C escapes.
pub fn js_decode(input: &[u8]) -> (r: Vec<u8>)
    ensures
        r@ == js_decoded(input@),
{
    let mut out: Vec<u8> = Vec::new();
    let mut i: usize = 0;
    let ghost whole = js_decoded(input@);
    assert(input@.skip(0) =~= input@);
    assert(out@ + whole =~= whole);
    while i < input.len()
        invariant
            i <= input@.len(),
            out@ + js_decoded(input@.skip(i as int)) == whole,
        decreases input@.len() - i,
    {
        let rest = bytes_from(input, i);
        let ghost start = out@;
        let (byte, n) = read_js_token(rest);
        assert(rest@.skip(n as int) =~= input@.skip(i + n));
        out.push(byte);
        assert(start + (seq![byte] + js_decoded(rest@.skip(n as int))) =~= out@ + js_decoded(
            rest@.skip(n as int),
        ));
        i += n;
    }
    assert(out@ + Seq::<u8>::empty() =~= out@);
    out
}

// ---------------------------------------------------------------------------
// Style escapes

/// The character that a style escape's number stands for. Full-width ASCII
/// folds to plain ASCII. Zero is invalid per the CSS syntax and resolves to
/// U+FFFD, as do surrogates and out-of-range values.
pub open spec fn css_char(code: u32) -> char {
    if 0xff01 <= code <= 0xff5e {
        (code - 0xfee0) as char
    } else if code == 0 || !is_scalar_value(code) {
        0xfffd as char
    } else {
        code as char
    }
}

fn css_char_of(code: u32) -> (r: char)
    ensures
        r == css_char(code),
{
    let plain: u32 = if 0xff01 <= code && code <= 0xff5e {
        code - 0xfee0
    } else {
        code
    };
    if plain == 0 {
        return '\u{fffd}';
    }
    match char_of(plain) {
        Some(c) => {
            proof {
                char_u32_cast(c, plain);
            }
            c
        },
        None => '\u{fffd}',
    }
}

/// `n`, and one more where white space stands there.
pub open spec fn past_space(s: Seq<u8>, n: int) -> int {
    if n < s.len() && is_space(s[n]) {
        n + 1
    } else {
        n
    }
}

/// The token at the front of bytes with style escapes. A backslash followed by
/// one to six hex digits resolves to a code point, encoded as UTF-8; a single
/// white space byte terminates the escape and belongs to it. A backslash before
/// a newline is a line continuation and vanishes, as does a trailing one.
pub open spec fn css_token(s: Seq<u8>) -> (Seq<u8>, int) {
    let n = digit_run(s.skip(1), 16, 6);
    if s[0] != '\\' as u8 {
        (seq![s[0]], 1)
    } else if s.len() == 1 {
        (seq![], 1)
    } else if n == 0 {
        if s[1] == 0x0a {
            (seq![], 2)
        } else {
            (seq![s[1]], 2)
        }
    } else {
        (
            encode_utf8(seq![css_char(hex_number(s.skip(1).take(n as int)))]),
            past_space(s, 1 + n as int),
        )
    }
}

pub proof fn lemma_css_token(s: Seq<u8>)
    requires
        s.len() > 0,
    ensures
        1 <= css_token(s).1 <= s.len(),
{
    lemma_digit_run(s.skip(1), 16, 6);
}

/// What bytes with style escapes stand for: the bytes of their tokens.
pub open spec fn css_decoded(s: Seq<u8>) -> Seq<u8>
    decreases s.len(),
{
    if s.len() == 0 {
        seq![]
    } else {
        proof {
            lemma_css_token(s);
        }
        let (bytes, n) = css_token(s);
        bytes + css_decoded(s.skip(n))
    }
}

fn push_css_token(out: &mut Vec<u8>, s: &[u8]) -> (n: usize)
    requires
        s@.len() > 0,
    ensures
        n == css_token(s@).1,
        final(out)@ == old(out)@ + css_token(s@).0,
        1 <= n <= s@.len(),
{
    let ghost start = out@;
    if s[0] != '\\' as u8 {
        out.push(s[0]);
        assert(out@ =~= start + seq![s@[0]]);
        return 1;
    }
    if s.len() == 1 {
        assert(out@ =~= start + seq![]);
        return 1;
    }
    let tail = bytes_from(s, 1);
    let n = count_digits(tail, 16, 6);
    if n == 0 {
        if s[1] == 0x0a {
            assert(out@ =~= start + seq![]);
        } else {
            out.push(s[1]);
            assert(out@ =~= start + seq![s@[1]]);
        }
        return 2;
    }
    let code = read_digits(bytes_before(tail, n), 16);
    push_bytes(out, bytes_of_char(css_char_of(code)).as_slice());
    let end: usize = 1 + n;
    if end < s.len() && is_ascii_space(s[end]) {
        end + 1
    } else {
        end
    }
}

/// Decode CSS escapes.
///
/// A code point is encoded as UTF-8. Truncating to the low byte instead would
/// produce invalid UTF-8 for any non-ASCII target, and would mis-decode any
/// escape of three or more digits whose value does not fit in the last two.
pub fn css_decode(input: &[u8]) -> (r: Vec<u8>)
    ensures
        r@ == css_decoded(input@),
{
    let mut out: Vec<u8> = Vec::new();
    let mut i: usize = 0;
    let ghost whole = css_decoded(input@);
    assert(input@.skip(0) =~= input@);
    assert(out@ + whole =~= whole);
    while i < input.len()
        invariant
            i <= input@.len(),
            out@ + css_decoded(input@.skip(i as int)) == whole,
        decreases input@.len() - i,
    {
        let rest = bytes_from(input, i);
        let ghost start = out@;
        let n = push_css_token(&mut out, rest);
        assert(rest@.skip(n as int) =~= input@.skip(i + n));
        assert(start + (css_token(rest@).0 + css_decoded(rest@.skip(n as int))) =~= out@
            + css_decoded(rest@.skip(n as int)));
        i += n;
    }
    assert(out@ + Seq::<u8>::empty() =~= out@);
    out
}

// ---------------------------------------------------------------------------
// UTF-8

/// The lowercase hexadecimal digits of `n`, at least `width` of them.
pub open spec fn hex_digits(n: nat, width: nat) -> Seq<u8>
    decreases n + width,
{
    if n < 16 && width <= 1 {
        seq![hex_digit(n)]
    } else {
        hex_digits(
            n / 16,
            if width > 0 {
                (width - 1) as nat
            } else {
                0
            },
        ).push(hex_digit(n % 16))
    }
}

fn push_hex_digits(out: &mut Vec<u8>, n: u32, width: u32)
    ensures
        final(out)@ == old(out)@ + hex_digits(n as nat, width as nat),
    decreases n + width,
{
    let ghost start = out@;
    if n >= 16 || width > 1 {
        push_hex_digits(
            out,
            n / 16,
            if width > 0 {
                width - 1
            } else {
                0
            },
        );
    }
    let ghost grown = out@;
    out.push(hex_digit_of((n % 16) as u8));
    proof {
        if n < 16 && width <= 1 {
            assert(out@ =~= start + seq![hex_digit(n as nat)]);
        } else {
            let shorter = hex_digits(
                (n / 16) as nat,
                if width > 0 {
                    (width - 1) as nat
                } else {
                    0
                },
            );
            assert(grown == start + shorter);
            assert(out@ =~= start + shorter.push(hex_digit((n % 16) as nat)));
        }
    }
}

/// What the front of `s` is rewritten to: a non-ASCII character as `%uXXXX`, a
/// byte that starts no character as itself.
pub open spec fn unicode_token(s: Seq<u8>) -> (Seq<u8>, int) {
    if s[0] < 0x80 || !valid_first_scalar(s) {
        (seq![s[0]], 1)
    } else {
        (
            seq!['%' as u8, 'u' as u8] + hex_digits(decode_first_scalar(s) as nat, 4),
            length_of_first_scalar(s),
        )
    }
}

/// Non-ASCII UTF-8 sequences rewritten as `%uXXXX`. Invalid bytes stay: this
/// re-encodes what it understands and does not sanitise.
pub open spec fn unicode_escaped(s: Seq<u8>) -> Seq<u8>
    decreases s.len(),
{
    if s.len() == 0 {
        seq![]
    } else {
        unicode_token(s).0 + unicode_escaped(s.skip(unicode_token(s).1))
    }
}

pub open spec fn all_ascii(s: Seq<u8>) -> bool {
    forall|i: int| 0 <= i < s.len() ==> (#[trigger] s[i]) < 0x80
}

proof fn lemma_ascii_unescaped(s: Seq<u8>)
    requires
        all_ascii(s),
    ensures
        unicode_escaped(s) == s,
    decreases s.len(),
{
    if s.len() > 0 {
        assert(s[0] < 0x80);
        assert(all_ascii(s.skip(1)));
        lemma_ascii_unescaped(s.skip(1));
        assert(seq![s[0]] + s.skip(1) =~= s);
    }
}

fn is_ascii(s: &[u8]) -> (r: bool)
    ensures
        r == all_ascii(s@),
{
    let mut i: usize = 0;
    while i < s.len()
        invariant
            i <= s@.len(),
            forall|j: int| 0 <= j < i ==> (#[trigger] s@[j]) < 0x80,
        decreases s@.len() - i,
    {
        if s[i] >= 0x80 {
            return false;
        }
        i += 1;
    }
    true
}

/// Rewrite non-ASCII UTF-8 sequences as `%uXXXX`.
pub fn utf8_to_unicode(input: &[u8]) -> (r: Cow<'_, [u8]>)
    ensures
        r@ == unicode_escaped(input@),
        r is Borrowed <==> all_ascii(input@),
        r is Borrowed ==> r@ == input@,
{
    if is_ascii(input) {
        proof {
            lemma_ascii_unescaped(input@);
        }
        return Cow::Borrowed(input);
    }
    let mut out: Vec<u8> = Vec::new();
    let mut i: usize = 0;
    let ghost whole = unicode_escaped(input@);
    assert(input@.skip(0) =~= input@);
    assert(out@ + whole =~= whole);
    while i < input.len()
        invariant
            i <= input@.len(),
            out@ + unicode_escaped(input@.skip(i as int)) == whole,
        decreases input@.len() - i,
    {
        let rest = bytes_from(input, i);
        let ghost start = out@;
        let mut n: usize = 1;
        if rest[0] < 0x80 {
            out.push(rest[0]);
            assert(out@ =~= start + seq![rest@[0]]);
        } else {
            match first_scalar(rest) {
                Some((code, width)) => {
                    out.push('%' as u8);
                    out.push('u' as u8);
                    let ghost marked = out@;
                    assert(marked =~= start + seq!['%' as u8, 'u' as u8]);
                    push_hex_digits(&mut out, code, 4);
                    assert(out@ =~= start + (seq!['%' as u8, 'u' as u8] + hex_digits(
                        code as nat,
                        4,
                    )));
                    n = width;
                },
                None => {
                    out.push(rest[0]);
                    assert(out@ =~= start + seq![rest@[0]]);
                },
            }
        }
        assert(out@ == start + unicode_token(rest@).0 && n == unicode_token(rest@).1);
        assert(rest@.skip(n as int) =~= input@.skip(i + n));
        assert(start + (unicode_token(rest@).0 + unicode_escaped(rest@.skip(n as int))) =~= out@
            + unicode_escaped(rest@.skip(n as int)));
        i += n;
    }
    assert(out@ + Seq::<u8>::empty() =~= out@);
    Cow::Owned(out)
}

// ---------------------------------------------------------------------------
// Base64

/// The six bits that a byte of the base64 alphabet stands for.
pub open spec fn sextet(b: u8) -> Option<u8> {
    if 'A' as u8 <= b <= 'Z' as u8 {
        Some((b - 'A' as u8) as u8)
    } else if 'a' as u8 <= b <= 'z' as u8 {
        Some((b - 'a' as u8 + 26) as u8)
    } else if '0' as u8 <= b <= '9' as u8 {
        Some((b - '0' as u8 + 52) as u8)
    } else if b == '+' as u8 {
        Some(62)
    } else if b == '/' as u8 {
        Some(63)
    } else {
        None
    }
}

fn sextet_of(b: u8) -> (r: Option<u8>)
    ensures
        r == sextet(b),
        r matches Some(v) ==> v < 64,
{
    if 'A' as u8 <= b && b <= 'Z' as u8 {
        Some(b - 'A' as u8)
    } else if 'a' as u8 <= b && b <= 'z' as u8 {
        Some(b - 'a' as u8 + 26)
    } else if '0' as u8 <= b && b <= '9' as u8 {
        Some(b - '0' as u8 + 52)
    } else if b == '+' as u8 {
        Some(62)
    } else if b == '/' as u8 {
        Some(63)
    } else {
        None
    }
}

/// The sextets of `s` up to the first byte outside the alphabet. CR and LF are
/// ignored; padding is outside the alphabet.
pub open spec fn sextets(s: Seq<u8>) -> Seq<u8>
    decreases s.len(),
{
    if s.len() == 0 {
        seq![]
    } else if s[0] == '\r' as u8 || s[0] == '\n' as u8 {
        sextets(s.drop_first())
    } else {
        match sextet(s[0]) {
            Some(v) => seq![v] + sextets(s.drop_first()),
            None => seq![],
        }
    }
}

/// The bytes that sextets pack: three for each four, one or two for a rest of
/// two or three.
pub open spec fn packed(v: Seq<u8>) -> Seq<u8>
    decreases v.len(),
{
    if v.len() < 2 {
        seq![]
    } else {
        let first = (v[0] * 4 + v[1] / 16) as u8;
        if v.len() == 2 {
            seq![first]
        } else {
            let second = ((v[1] % 16) * 16 + v[2] / 4) as u8;
            if v.len() == 3 {
                seq![first, second]
            } else {
                let third = ((v[2] % 4) * 64 + v[3]) as u8;
                seq![first, second, third] + packed(v.skip(4))
            }
        }
    }
}

/// What base64 stands for, up to the first invalid byte.
pub open spec fn base64_decoded(s: Seq<u8>) -> Seq<u8> {
    packed(sextets(s))
}

fn read_sextets(input: &[u8]) -> (r: Vec<u8>)
    ensures
        r@ == sextets(input@),
        forall|j: int| 0 <= j < r@.len() ==> (#[trigger] r@[j]) < 64,
{
    let mut out: Vec<u8> = Vec::new();
    let mut i: usize = 0;
    let ghost whole = sextets(input@);
    assert(input@.skip(0) =~= input@);
    assert(out@ + whole =~= whole);
    while i < input.len()
        invariant
            i <= input@.len(),
            out@ + sextets(input@.skip(i as int)) == whole,
            whole == sextets(input@),
            forall|j: int| 0 <= j < out@.len() ==> (#[trigger] out@[j]) < 64,
        decreases input@.len() - i,
    {
        let ghost rest = input@.skip(i as int);
        let ghost start = out@;
        assert(rest.drop_first() =~= input@.skip(i + 1));
        let b = input[i];
        if b != '\r' as u8 && b != '\n' as u8 {
            match sextet_of(b) {
                Some(v) => {
                    out.push(v);
                    assert(start + (seq![v] + sextets(rest.drop_first())) =~= out@ + sextets(
                        rest.drop_first(),
                    ));
                },
                None => {
                    assert(out@ + Seq::<u8>::empty() =~= out@);
                    return out;
                },
            }
        }
        i += 1;
    }
    assert(out@ + Seq::<u8>::empty() =~= out@);
    out
}

/// Base64 decoding that returns the partial result up to the first invalid
/// byte.
///
/// Padding is optional, CR and LF are ignored, and any other byte outside the
/// alphabet ends the decode. Skipping arbitrary invalid bytes instead would
/// make the transformation decode strings that no real decoder accepts, which
/// manufactures matches on traffic that was never base64 at all.
/// `t:base64Decode` is the strict form; the lenient variant is a separate
/// SecLang transformation (`base64DecodeExt`), which the Core Rule Set does not
/// use.
pub fn base64_decode(input: &[u8]) -> (r: Vec<u8>)
    ensures
        r@ == base64_decoded(input@),
{
    let v = read_sextets(input);
    let mut out: Vec<u8> = Vec::new();
    let mut i: usize = 0;
    let ghost whole = packed(v@);
    assert(v@.skip(0) =~= v@);
    assert(out@ + whole =~= whole);
    while v.len() - i >= 4
        invariant
            i <= v@.len(),
            out@ + packed(v@.skip(i as int)) == whole,
            forall|j: int| 0 <= j < v@.len() ==> (#[trigger] v@[j]) < 64,
        decreases v@.len() - i,
    {
        let ghost rest = v@.skip(i as int);
        let ghost start = out@;
        let (a, b, c, d) = (v[i], v[i + 1], v[i + 2], v[i + 3]);
        out.push(a * 4 + b / 16);
        out.push((b % 16) * 16 + c / 4);
        out.push((c % 4) * 64 + d);
        assert(rest.skip(4) =~= v@.skip(i + 4));
        assert(out@ =~= start + seq![
            (a * 4 + b / 16) as u8,
            ((b % 16) * 16 + c / 4) as u8,
            ((c % 4) * 64 + d) as u8,
        ]);
        assert(start + (seq![
            (a * 4 + b / 16) as u8,
            ((b % 16) * 16 + c / 4) as u8,
            ((c % 4) * 64 + d) as u8,
        ] + packed(rest.skip(4))) =~= out@ + packed(rest.skip(4)));
        i += 4;
    }
    let left: usize = v.len() - i;
    let ghost start = out@;
    if left >= 2 {
        out.push(v[i] * 4 + v[i + 1] / 16);
    }
    if left == 3 {
        out.push((v[i + 1] % 16) * 16 + v[i + 2] / 4);
    }
    assert(out@ =~= start + packed(v@.skip(i as int)));
    out
}

// ---------------------------------------------------------------------------
// Laws

/// Percent-decoding leaves bytes without `%` and `+` as they are.
pub proof fn plain_bytes_are_not_percent_decoded(s: Seq<u8>)
    requires
        !s.contains('%' as u8),
        !s.contains('+' as u8),
    ensures
        url_decoded(s) == s,
    decreases s.len(),
{
    if s.len() > 0 {
        let rest = s.skip(1);
        assert forall|b: u8| rest.contains(b) implies s.contains(b) by {
            let k = choose|k: int| 0 <= k < rest.len() && rest[k] == b;
            assert(s[k + 1] == b);
        }
        assert(s.contains(s[0]));
        plain_bytes_are_not_percent_decoded(rest);
        assert(seq![s[0]] + rest =~= s);
    }
}

/// Decoding HTML entities leaves bytes without `&` as they are.
pub proof fn plain_bytes_hold_no_entity(s: Seq<u8>)
    requires
        !s.contains('&' as u8),
    ensures
        html_decoded(s) == s,
    decreases s.len(),
{
    if s.len() > 0 {
        let rest = s.skip(1);
        assert forall|b: u8| rest.contains(b) implies s.contains(b) by {
            let k = choose|k: int| 0 <= k < rest.len() && rest[k] == b;
            assert(s[k + 1] == b);
        }
        assert(s.contains(s[0]));
        plain_bytes_hold_no_entity(rest);
        assert(seq![s[0]] + rest =~= s);
    }
}

/// Decoding C escapes leaves bytes without a backslash as they are.
pub proof fn plain_bytes_hold_no_escape(s: Seq<u8>)
    requires
        !s.contains('\\' as u8),
    ensures
        escapes_decoded(s) == s,
    decreases s.len(),
{
    if s.len() > 0 {
        let rest = s.skip(1);
        assert forall|b: u8| rest.contains(b) implies s.contains(b) by {
            let k = choose|k: int| 0 <= k < rest.len() && rest[k] == b;
            assert(s[k + 1] == b);
        }
        assert(s.contains(s[0]));
        plain_bytes_hold_no_escape(rest);
        assert(seq![s[0]] + rest =~= s);
    }
}

/// Decoding script escapes leaves bytes without a backslash as they are.
pub proof fn plain_bytes_hold_no_script_escape(s: Seq<u8>)
    requires
        !s.contains('\\' as u8),
    ensures
        js_decoded(s) == s,
    decreases s.len(),
{
    if s.len() > 0 {
        let rest = s.skip(1);
        assert forall|b: u8| rest.contains(b) implies s.contains(b) by {
            let k = choose|k: int| 0 <= k < rest.len() && rest[k] == b;
            assert(s[k + 1] == b);
        }
        assert(s.contains(s[0]));
        plain_bytes_hold_no_script_escape(rest);
        assert(seq![s[0]] + rest =~= s);
    }
}

/// Decoding style escapes leaves bytes without a backslash as they are.
pub proof fn plain_bytes_hold_no_style_escape(s: Seq<u8>)
    requires
        !s.contains('\\' as u8),
    ensures
        css_decoded(s) == s,
    decreases s.len(),
{
    if s.len() > 0 {
        let rest = s.skip(1);
        assert forall|b: u8| rest.contains(b) implies s.contains(b) by {
            let k = choose|k: int| 0 <= k < rest.len() && rest[k] == b;
            assert(s[k + 1] == b);
        }
        assert(s.contains(s[0]));
        plain_bytes_hold_no_style_escape(rest);
        assert(seq![s[0]] + rest =~= s);
    }
}

/// Percent-decoded bytes are no longer than what they were decoded from.
pub proof fn percent_decoding_does_not_grow(s: Seq<u8>)
    ensures
        url_decoded(s).len() <= s.len(),
    decreases s.len(),
{
    if s.len() > 0 {
        lemma_url_token(s);
        percent_decoding_does_not_grow(s.skip(url_token(s).1));
    }
}

/// Bytes with their HTML entities decoded are no longer than before.
pub proof fn entity_decoding_does_not_grow(s: Seq<u8>)
    ensures
        html_decoded(s).len() <= s.len(),
    decreases s.len(),
{
    if s.len() > 0 {
        lemma_html_token(s);
        entity_decoding_does_not_grow(s.skip(html_token(s).1));
    }
}

/// Bytes with their C escapes decoded are no longer than before.
pub proof fn escape_decoding_does_not_grow(s: Seq<u8>)
    ensures
        escapes_decoded(s).len() <= s.len(),
    decreases s.len(),
{
    if s.len() > 0 {
        lemma_escape_token(s);
        escape_decoding_does_not_grow(s.skip(escape_token(s).1));
    }
}

/// Bytes with their script escapes decoded are no longer than before.
pub proof fn script_decoding_does_not_grow(s: Seq<u8>)
    ensures
        js_decoded(s).len() <= s.len(),
    decreases s.len(),
{
    if s.len() > 0 {
        lemma_js_token(s);
        script_decoding_does_not_grow(s.skip(js_token(s).1));
    }
}

/// Base64 ignores line breaks: taking one out changes nothing.
pub proof fn base64_ignores_line_breaks(before: Seq<u8>, b: u8, after: Seq<u8>)
    requires
        b == '\r' as u8 || b == '\n' as u8,
    ensures
        base64_decoded(before + seq![b] + after) == base64_decoded(before + after),
{
    lemma_sextets_around(before, b, after);
}

/// Base64 stops at the first byte outside its alphabet, padding included: what
/// follows it makes no difference.
pub proof fn base64_stops_at_a_foreign_byte(before: Seq<u8>, b: u8, after: Seq<u8>)
    requires
        sextet(b) is None,
        b != '\r' as u8,
        b != '\n' as u8,
    ensures
        base64_decoded(before + seq![b] + after) == base64_decoded(before),
{
    lemma_sextets_around(before, b, after);
}

proof fn lemma_sextets_around(before: Seq<u8>, b: u8, after: Seq<u8>)
    ensures
        b == '\r' as u8 || b == '\n' as u8 ==> sextets(before + seq![b] + after) == sextets(
            before + after,
        ),
        sextet(b) is None && b != '\r' as u8 && b != '\n' as u8 ==> sextets(
            before + seq![b] + after,
        ) == sextets(before),
    decreases before.len(),
{
    let whole = before + seq![b] + after;
    if before.len() == 0 {
        assert(whole[0] == b);
        assert(whole.drop_first() =~= after);
        assert(before + after =~= after);
        assert(sextets(before) =~= seq![]);
    } else {
        let rest = before.drop_first();
        assert(whole.drop_first() =~= rest + seq![b] + after);
        assert((before + after).drop_first() =~= rest + after);
        assert(whole[0] == before[0]);
        lemma_sextets_around(rest, b, after);
    }
}

/// The byte of the base64 alphabet that six bits are written as.
pub open spec fn base64_digit(v: int) -> u8 {
    if v < 26 {
        ('A' as u8 + v) as u8
    } else if v < 52 {
        ('a' as u8 + v - 26) as u8
    } else if v < 62 {
        ('0' as u8 + v - 52) as u8
    } else if v == 62 {
        '+' as u8
    } else {
        '/' as u8
    }
}

/// What bytes are written as in base64, with padding.
pub open spec fn base64_encoded(s: Seq<u8>) -> Seq<u8>
    decreases s.len(),
{
    let pad = '=' as u8;
    if s.len() == 0 {
        seq![]
    } else if s.len() == 1 {
        seq![
            base64_digit(s[0] as int / 4),
            base64_digit((s[0] as int % 4) * 16),
            pad,
            pad,
        ]
    } else if s.len() == 2 {
        seq![
            base64_digit(s[0] as int / 4),
            base64_digit((s[0] as int % 4) * 16 + s[1] as int / 16),
            base64_digit((s[1] as int % 16) * 4),
            pad,
        ]
    } else {
        seq![
            base64_digit(s[0] as int / 4),
            base64_digit((s[0] as int % 4) * 16 + s[1] as int / 16),
            base64_digit((s[1] as int % 16) * 4 + s[2] as int / 64),
            base64_digit(s[2] as int % 64),
        ] + base64_encoded(s.skip(3))
    }
}

proof fn lemma_digit_reads_back(v: int)
    requires
        0 <= v < 64,
    ensures
        sextet(base64_digit(v)) == Some(v as u8),
        base64_digit(v) != '\r' as u8,
        base64_digit(v) != '\n' as u8,
{
}

proof fn lemma_sextets_front(v: int, s: Seq<u8>)
    requires
        0 <= v < 64,
    ensures
        sextets(seq![base64_digit(v)] + s) == seq![v as u8] + sextets(s),
{
    lemma_digit_reads_back(v);
    assert((seq![base64_digit(v)] + s).drop_first() =~= s);
}

/// What is encoded in base64 decodes to itself.
pub proof fn base64_reads_back(s: Seq<u8>)
    ensures
        base64_decoded(base64_encoded(s)) == s,
    decreases s.len(),
{
    let pad = '=' as u8;
    if s.len() == 0 {
        assert(base64_decoded(base64_encoded(s)) =~= s);
    } else {
        let v0 = s[0] as int / 4;
        let e = base64_encoded(s);
        if s.len() == 1 {
            let v1 = (s[0] as int % 4) * 16;
            let tail = seq![pad, pad];
            assert(e =~= seq![base64_digit(v0)] + (seq![base64_digit(v1)] + tail));
            lemma_sextets_front(v0, seq![base64_digit(v1)] + tail);
            lemma_sextets_front(v1, tail);
            assert(sextets(tail) =~= seq![]);
            assert(sextets(e) =~= seq![v0 as u8, v1 as u8]);
            assert(packed(sextets(e)) =~= s);
        } else {
            let v1 = (s[0] as int % 4) * 16 + s[1] as int / 16;
            if s.len() == 2 {
                let v2 = (s[1] as int % 16) * 4;
                let tail = seq![pad];
                assert(e =~= seq![base64_digit(v0)] + (seq![base64_digit(v1)] + (seq![
                    base64_digit(v2),
                ] + tail)));
                lemma_sextets_front(
                    v0,
                    seq![base64_digit(v1)] + (seq![base64_digit(v2)] + tail),
                );
                lemma_sextets_front(v1, seq![base64_digit(v2)] + tail);
                lemma_sextets_front(v2, tail);
                assert(sextets(tail) =~= seq![]);
                assert(sextets(e) =~= seq![v0 as u8, v1 as u8, v2 as u8]);
                assert(packed(sextets(e)) =~= s);
            } else {
                let v2 = (s[1] as int % 16) * 4 + s[2] as int / 64;
                let v3 = s[2] as int % 64;
                let tail = base64_encoded(s.skip(3));
                base64_reads_back(s.skip(3));
                assert(e =~= seq![base64_digit(v0)] + (seq![base64_digit(v1)] + (seq![
                    base64_digit(v2),
                ] + (seq![base64_digit(v3)] + tail))));
                lemma_sextets_front(
                    v0,
                    seq![base64_digit(v1)] + (seq![base64_digit(v2)] + (seq![base64_digit(v3)]
                        + tail)),
                );
                lemma_sextets_front(
                    v1,
                    seq![base64_digit(v2)] + (seq![base64_digit(v3)] + tail),
                );
                lemma_sextets_front(v2, seq![base64_digit(v3)] + tail);
                lemma_sextets_front(v3, tail);
                let v = sextets(e);
                assert(v =~= seq![v0 as u8, v1 as u8, v2 as u8, v3 as u8] + sextets(tail));
                assert(v.skip(4) =~= sextets(tail));
                assert(packed(v) =~= seq![s[0], s[1], s[2]] + packed(sextets(tail)));
                assert(seq![s[0], s[1], s[2]] + s.skip(3) =~= s);
            }
        }
    }
}

} // verus!
