//! Bytes: comparison, searching, ASCII case and the UTF-8 boundary between
//! bytes and text.

use crate::text::find_byte;
use crate::text::split;
use crate::text::views;
use vstd::prelude::*;
use vstd::slice::slice_subrange;
use vstd::slice::slice_to_vec;
use vstd::utf8::decode_first_scalar;
use vstd::utf8::decode_utf8;
use vstd::utf8::encode_utf8;
use vstd::utf8::length_of_first_scalar;
use vstd::utf8::valid_first_scalar;
use vstd::utf8::valid_utf8;

verus! {

/// `std::str::from_utf8`: the text that bytes encode, or nothing where they are
/// not well-formed UTF-8.
#[verifier::external_body]
pub(crate) fn utf8_text(bytes: &[u8]) -> (r: Option<String>)
    ensures
        (match r {
            Some(s) => valid_utf8(bytes@) && s@ == decode_utf8(bytes@),
            None => !valid_utf8(bytes@),
        }),
{
    match std::str::from_utf8(bytes) {
        Ok(s) => Some(s.to_string()),
        Err(_) => None,
    }
}

/// What `String::from_utf8_lossy` reads bytes as: the text they encode, with
/// U+FFFD in place of what is not UTF-8.
pub uninterp spec fn lossy_text(bytes: Seq<u8>) -> Seq<char>;

/// `String::from_utf8_lossy`. Well-formed UTF-8 is read as what it encodes;
/// how many replacement characters a malformed run becomes is only named.
#[verifier::external_body]
pub(crate) fn utf8_lossy(bytes: &[u8]) -> (r: String)
    ensures
        r@ == lossy_text(bytes@),
        valid_utf8(bytes@) ==> r@ == decode_utf8(bytes@),
{
    String::from_utf8_lossy(bytes).into_owned()
}

/// Whether a number is a Unicode scalar value.
pub open spec fn is_scalar_value(code: u32) -> bool {
    code <= 0x10ffff && !(0xd800 <= code <= 0xdfff)
}

/// `char::from_u32`: the character with a given number, where there is one.
#[verifier::external_body]
pub(crate) fn char_of(code: u32) -> (r: Option<char>)
    ensures
        (match r {
            Some(c) => is_scalar_value(code) && c as u32 == code,
            None => !is_scalar_value(code),
        }),
{
    char::from_u32(code)
}

/// The UTF-8 encoding of a string.
pub fn bytes_of(s: &str) -> (r: Vec<u8>)
    ensures
        r@ == encode_utf8(s@),
{
    slice_to_vec(s.as_bytes())
}

/// The UTF-8 encoding of a character.
pub fn bytes_of_char(c: char) -> (r: Vec<u8>)
    ensures
        r@ == encode_utf8(seq![c]),
{
    let mut s = String::new();
    s.push(c);
    assert(s@ =~= seq![c]);
    bytes_of(s.as_str())
}

/// The scalar value that the front of `rest` encodes, with its length.
pub fn first_scalar(rest: &[u8]) -> (r: Option<(u32, usize)>)
    ensures
        (match r {
            Some((code, n)) => valid_first_scalar(rest@) && code == decode_first_scalar(rest@) && n
                == length_of_first_scalar(rest@) && 1 <= n <= rest@.len(),
            None => !valid_first_scalar(rest@),
        }),
{
    if rest.len() == 0 {
        return None;
    }
    let b0 = rest[0];
    if b0 <= 0x7f {
        let code = (b0 & 0x7F) as u32;
        assert(b0 <= 0x7f ==> (b0 & 0x7F) <= 0x7f) by (bit_vector);
        return Some((code, 1));
    }
    if 0xc0 <= b0 && b0 <= 0xdf {
        if rest.len() < 2 || !is_continuation(rest[1]) {
            return None;
        }
        let code: u32 = ((b0 & 0x1F) as u32) << 6 | ((rest[1] & 0x3f) as u32);
        if code < 0x80 || (0xD800 <= code && code <= 0xDFFF) {
            return None;
        }
        return Some((code, 2));
    }
    if 0xe0 <= b0 && b0 <= 0xef {
        if rest.len() < 3 || !is_continuation(rest[1]) || !is_continuation(rest[2]) {
            return None;
        }
        let code: u32 = ((b0 & 0x0F) as u32) << 12 | ((rest[1] & 0x3f) as u32) << 6 | ((rest[2]
            & 0x3f) as u32);
        if code < 0x800 || (0xD800 <= code && code <= 0xDFFF) {
            return None;
        }
        return Some((code, 3));
    }
    if 0xf0 <= b0 && b0 <= 0xf7 {
        if rest.len() < 4 || !is_continuation(rest[1]) || !is_continuation(rest[2])
            || !is_continuation(rest[3]) {
            return None;
        }
        let code: u32 = ((b0 & 0x07) as u32) << 18 | ((rest[1] & 0x3f) as u32) << 12 | ((rest[2]
            & 0x3f) as u32) << 6 | ((rest[3] & 0x3f) as u32);
        if code < 0x10000 || code > 0x10ffff || (0xD800 <= code && code <= 0xDFFF) {
            return None;
        }
        return Some((code, 4));
    }
    None
}

fn is_continuation(b: u8) -> (r: bool)
    ensures
        r == (0x80 <= b <= 0xbf),
{
    0x80 <= b && b <= 0xbf
}

/// Whether two byte slices are equal.
pub fn same_bytes(a: &[u8], b: &[u8]) -> (r: bool)
    ensures
        r == (a@ == b@),
{
    if a.len() != b.len() {
        return false;
    }
    let mut i: usize = 0;
    while i < a.len()
        invariant
            i <= a@.len(),
            a@.len() == b@.len(),
            forall|j: int| 0 <= j < i ==> a@[j] == b@[j],
        decreases a@.len() - i,
    {
        if a[i] != b[i] {
            return false;
        }
        i += 1;
    }
    assert(a@ =~= b@);
    true
}

/// The bytes of `s` from `p` on.
pub fn bytes_from(s: &[u8], p: usize) -> (r: &[u8])
    requires
        p <= s@.len(),
    ensures
        r@ == s@.skip(p as int),
{
    assert(s@.subrange(p as int, s@.len() as int) =~= s@.skip(p as int));
    slice_subrange(s, p, s.len())
}

/// The bytes of `s` before `p`.
pub fn bytes_before(s: &[u8], p: usize) -> (r: &[u8])
    requires
        p <= s@.len(),
    ensures
        r@ == s@.take(p as int),
{
    assert(s@.subrange(0, p as int) =~= s@.take(p as int));
    slice_subrange(s, 0, p)
}

/// A byte with an ASCII capital letter turned small.
pub open spec fn lower_byte(b: u8) -> u8 {
    if 'A' as u8 <= b <= 'Z' as u8 {
        (b + 32) as u8
    } else {
        b
    }
}

/// Bytes with the ASCII capital letters turned small.
pub open spec fn lower_bytes(s: Seq<u8>) -> Seq<u8> {
    Seq::new(s.len(), |i: int| lower_byte(s[i]))
}

pub fn to_lower_byte(b: u8) -> (r: u8)
    ensures
        r == lower_byte(b),
{
    if 'A' as u8 <= b && b <= 'Z' as u8 {
        b + 32
    } else {
        b
    }
}

pub fn to_lower_bytes(s: &[u8]) -> (r: Vec<u8>)
    ensures
        r@ == lower_bytes(s@),
{
    let mut out: Vec<u8> = Vec::new();
    let mut i: usize = 0;
    while i < s.len()
        invariant
            i <= s@.len(),
            out@ == lower_bytes(s@).take(i as int),
        decreases s@.len() - i,
    {
        out.push(to_lower_byte(s[i]));
        i += 1;
    }
    assert(lower_bytes(s@).take(i as int) =~= lower_bytes(s@));
    out
}

/// The whitespace bytes these transformations recognise: HT, LF, VT, FF, CR
/// and space.
///
/// Deliberately ASCII-only. NBSP (0xa0) and the Unicode space separators are
/// not folded here, which is a known divergence to settle against the Core Rule
/// Set's regression suite rather than by guesswork.
pub open spec fn is_space(b: u8) -> bool {
    (0x09 <= b <= 0x0d) || b == 0x20
}

pub fn is_ascii_space(b: u8) -> (r: bool)
    ensures
        r == is_space(b),
{
    (0x09 <= b && b <= 0x0d) || b == 0x20
}

/// The pieces of `s` between the occurrences of `b`.
pub fn split_bytes(s: &[u8], b: u8) -> (r: Vec<&[u8]>)
    ensures
        views(r@) == split(s@, b),
{
    let mut out: Vec<&[u8]> = Vec::new();
    let mut rest: &[u8] = s;
    assert(views(out@) + split(rest@, b) =~= split(s@, b));
    loop
        invariant
            views(out@) + split(rest@, b) == split(s@, b),
        decreases rest@.len(),
    {
        let p = find_byte(rest, b);
        if p >= rest.len() {
            let ghost before = views(out@);
            out.push(rest);
            assert(views(out@) =~= before + seq![rest@]);
            return out;
        }
        let ghost before = views(out@);
        let ghost whole = rest@;
        out.push(bytes_before(rest, p));
        rest = bytes_from(rest, p + 1);
        assert(views(out@) =~= before + seq![whole.take(p as int)]);
        assert(before + (seq![whole.take(p as int)] + split(rest@, b)) =~= views(out@) + split(
            rest@,
            b,
        ));
    }
}

/// Whether `s` holds `part` at `at`.
pub open spec fn occurs_at<T>(s: Seq<T>, part: Seq<T>, at: int) -> bool {
    0 <= at && at + part.len() <= s.len() && s.subrange(at, at + part.len()) == part
}

/// Whether `part` occurs anywhere in `s`.
pub open spec fn occurs_in(s: Seq<u8>, part: Seq<u8>) -> bool {
    exists|at: int| #[trigger] occurs_at(s, part, at)
}

/// Whether `part` stands at `at` in `s`.
pub fn bytes_at(s: &[u8], part: &[u8], at: usize) -> (r: bool)
    ensures
        r == occurs_at(s@, part@, at as int),
{
    if at > s.len() || s.len() - at < part.len() {
        return false;
    }
    same_bytes(slice_subrange(s, at, at + part.len()), part)
}

/// Whether `part` occurs anywhere in `s`.
pub fn contains_bytes(s: &[u8], part: &[u8]) -> (r: bool)
    ensures
        r == occurs_in(s@, part@),
{
    let mut at: usize = 0;
    loop
        invariant
            at <= s@.len(),
            forall|k: int| 0 <= k < at ==> !occurs_at(s@, part@, k),
        decreases s@.len() - at,
    {
        if bytes_at(s, part, at) {
            return true;
        }
        if at >= s.len() {
            return false;
        }
        at += 1;
    }
}

pub proof fn lemma_encode_utf8_concat(a: Seq<char>, b: Seq<char>)
    ensures
        encode_utf8(a + b) == encode_utf8(a) + encode_utf8(b),
    decreases a.len(),
{
    if a.len() == 0 {
        assert(a + b =~= b);
        assert(encode_utf8(a) + encode_utf8(b) =~= encode_utf8(b));
    } else {
        assert((a + b).drop_first() =~= a.drop_first() + b);
        lemma_encode_utf8_concat(a.drop_first(), b);
        assert(encode_utf8(a + b) =~= encode_utf8(a) + encode_utf8(b));
    }
}

pub proof fn lemma_encode_nonempty(a: Seq<char>)
    ensures
        encode_utf8(a).len() >= a.len(),
    decreases a.len(),
{
    if a.len() > 0 {
        lemma_encode_nonempty(a.drop_first());
    }
}

} // verus!
