//! Reading name and value pairs out of query strings, form bodies and `Cookie`
//! headers.

use crate::bytes::bytes_before;
use crate::bytes::bytes_from;
use crate::bytes::lossy_text;
use crate::bytes::split_bytes;
use crate::bytes::utf8_lossy;
use crate::collections::pairs_view;
use crate::collections::Entries;
use crate::decode::url_decode_uni;
use crate::decode::url_decoded;
use crate::text::find_byte;
use crate::text::joining_adds_pieces;
use crate::text::position;
use crate::text::split;
use crate::text::views;
use vstd::prelude::*;
use vstd::slice::slice_to_vec;

verus! {

/// The name and the value of a pair, which its first `=` parts. Without one the
/// whole is the name.
pub open spec fn name_and_value(pair: Seq<u8>) -> (Seq<u8>, Seq<u8>) {
    let p = position(pair, '=' as u8);
    if p >= pair.len() {
        (pair, seq![])
    } else {
        (pair.take(p), pair.skip(p + 1))
    }
}

fn part_pair(pair: &[u8]) -> (r: (&[u8], &[u8]))
    ensures
        r.0@ == name_and_value(pair@).0,
        r.1@ == name_and_value(pair@).1,
{
    let p = find_byte(pair, '=' as u8);
    if p >= pair.len() {
        let none = bytes_from(pair, pair.len());
        assert(none@ =~= seq![]);
        (pair, none)
    } else {
        (bytes_before(pair, p), bytes_from(pair, p + 1))
    }
}

// ---------------------------------------------------------------------------
// Forms

/// A form payload with `&` in place of `;`, which parts pairs just as well.
pub open spec fn with_ampersands(input: Seq<u8>) -> Seq<u8> {
    Seq::new(
        input.len(),
        |i: int|
            if input[i] == ';' as u8 {
                '&' as u8
            } else {
                input[i]
            },
    )
}

/// A pair of a form with its percent escapes and `+` decoded.
pub open spec fn form_pair(pair: Seq<u8>) -> (Seq<char>, Seq<u8>) {
    let (name, value) = name_and_value(pair);
    (lossy_text(url_decoded(name)), url_decoded(value))
}

/// The pairs of a form; empty ones do not count.
pub open spec fn form_pairs(pieces: Seq<Seq<u8>>) -> Entries
    decreases pieces.len(),
{
    if pieces.len() == 0 {
        seq![]
    } else if pieces.last().len() == 0 {
        form_pairs(pieces.drop_last())
    } else {
        form_pairs(pieces.drop_last()).push(form_pair(pieces.last()))
    }
}

/// What an `application/x-www-form-urlencoded` payload holds.
pub open spec fn urlencoded(input: Seq<u8>) -> Entries {
    form_pairs(split(with_ampersands(input), '&' as u8))
}

/// Split an `application/x-www-form-urlencoded` payload into pairs, decoding
/// percent escapes and `+`.
pub fn parse_urlencoded(input: &[u8]) -> (r: Vec<(String, Vec<u8>)>)
    ensures
        pairs_view(r@) == urlencoded(input@),
{
    let mut even: Vec<u8> = Vec::new();
    let mut k: usize = 0;
    while k < input.len()
        invariant
            k <= input@.len(),
            even@ == with_ampersands(input@).take(k as int),
        decreases input@.len() - k,
    {
        even.push(
            if input[k] == ';' as u8 {
                '&' as u8
            } else {
                input[k]
            },
        );
        assert(even@ =~= with_ampersands(input@).take(k + 1));
        k += 1;
    }
    assert(even@ =~= with_ampersands(input@));
    let pieces = split_bytes(even.as_slice(), '&' as u8);
    let ghost all = views(pieces@);
    let mut out: Vec<(String, Vec<u8>)> = Vec::new();
    let mut i: usize = 0;
    assert(pairs_view(out@) =~= seq![]);
    assert(all.take(0) =~= seq![]);
    while i < pieces.len()
        invariant
            i <= pieces@.len(),
            all == views(pieces@),
            pairs_view(out@) == form_pairs(all.take(i as int)),
        decreases pieces@.len() - i,
    {
        let ghost done = pairs_view(out@);
        let pair = pieces[i];
        assert(all.take(i + 1).drop_last() =~= all.take(i as int));
        assert(all.take(i + 1).last() == pair@);
        if pair.len() > 0 {
            let (raw_name, raw_value) = part_pair(pair);
            let name = url_decode_uni(raw_name);
            let value = url_decode_uni(raw_value);
            out.push((utf8_lossy(name.as_slice()), value));
            assert(pairs_view(out@) =~= done.push(form_pair(pair@)));
        }
        i += 1;
    }
    assert(all.take(i as int) =~= all);
    out
}

// ---------------------------------------------------------------------------
// Cookies

/// ASCII white space: HT, LF, FF, CR and space.
pub open spec fn is_blank(b: u8) -> bool {
    b == 0x09 || b == 0x0a || b == 0x0c || b == 0x0d || b == 0x20
}

fn is_ascii_blank(b: u8) -> (r: bool)
    ensures
        r == is_blank(b),
{
    b == 0x09 || b == 0x0a || b == 0x0c || b == 0x0d || b == 0x20
}

/// Bytes without their leading white space.
pub open spec fn blanks_off_start(s: Seq<u8>) -> Seq<u8>
    decreases s.len(),
{
    if s.len() > 0 && is_blank(s[0]) {
        blanks_off_start(s.drop_first())
    } else {
        s
    }
}

/// Bytes without their trailing white space.
pub open spec fn blanks_off_end(s: Seq<u8>) -> Seq<u8>
    decreases s.len(),
{
    if s.len() > 0 && is_blank(s.last()) {
        blanks_off_end(s.drop_last())
    } else {
        s
    }
}

/// Bytes without the white space around them.
pub open spec fn blanks_off(s: Seq<u8>) -> Seq<u8> {
    blanks_off_end(blanks_off_start(s))
}

/// Bytes without the ASCII white space around them.
pub fn trim_ascii(s: &[u8]) -> (r: &[u8])
    ensures
        r@ == blanks_off(s@),
{
    let mut i: usize = 0;
    assert(s@.skip(0) =~= s@);
    while i < s.len() && is_ascii_blank(s[i])
        invariant
            i <= s@.len(),
            blanks_off_start(s@) == blanks_off_start(s@.skip(i as int)),
        decreases s@.len() - i,
    {
        assert(s@.skip(i as int).drop_first() =~= s@.skip(i + 1));
        i += 1;
    }
    let rest = bytes_from(s, i);
    let mut n: usize = rest.len();
    assert(rest@.take(n as int) =~= rest@);
    while n > 0 && is_ascii_blank(rest[n - 1])
        invariant
            n <= rest@.len(),
            blanks_off_end(rest@) == blanks_off_end(rest@.take(n as int)),
        decreases n,
    {
        assert(rest@.take(n as int).drop_last() =~= rest@.take(n - 1));
        n -= 1;
    }
    bytes_before(rest, n)
}

/// A cookie, with the white space around its name and its value off.
pub open spec fn cookie_pair(pair: Seq<u8>) -> (Seq<char>, Seq<u8>) {
    let (name, value) = name_and_value(pair);
    (lossy_text(blanks_off(name)), blanks_off(value))
}

/// The cookies of a header; blank ones do not count.
pub open spec fn cookie_pairs(pieces: Seq<Seq<u8>>) -> Entries
    decreases pieces.len(),
{
    if pieces.len() == 0 {
        seq![]
    } else if blanks_off(pieces.last()).len() == 0 {
        cookie_pairs(pieces.drop_last())
    } else {
        cookie_pairs(pieces.drop_last()).push(cookie_pair(blanks_off(pieces.last())))
    }
}

/// What a `Cookie` header holds.
pub open spec fn cookies(input: Seq<u8>) -> Entries {
    cookie_pairs(split(input, ';' as u8))
}

/// Split a `Cookie` header into pairs.
pub fn parse_cookies(input: &[u8]) -> (r: Vec<(String, Vec<u8>)>)
    ensures
        pairs_view(r@) == cookies(input@),
{
    let pieces = split_bytes(input, ';' as u8);
    let ghost all = views(pieces@);
    let mut out: Vec<(String, Vec<u8>)> = Vec::new();
    let mut i: usize = 0;
    assert(pairs_view(out@) =~= seq![]);
    assert(all.take(0) =~= seq![]);
    while i < pieces.len()
        invariant
            i <= pieces@.len(),
            all == views(pieces@),
            pairs_view(out@) == cookie_pairs(all.take(i as int)),
        decreases pieces@.len() - i,
    {
        let ghost done = pairs_view(out@);
        assert(all.take(i + 1).drop_last() =~= all.take(i as int));
        assert(all.take(i + 1).last() == pieces@[i as int]@);
        let pair = trim_ascii(pieces[i]);
        if pair.len() > 0 {
            let (name, value) = part_pair(pair);
            out.push((utf8_lossy(trim_ascii(name)), slice_to_vec(trim_ascii(value))));
            assert(pairs_view(out@) =~= done.push(cookie_pair(pair@)));
        }
        i += 1;
    }
    assert(all.take(i as int) =~= all);
    out
}

// ---------------------------------------------------------------------------
// Laws

proof fn lemma_form_pairs_concat(a: Seq<Seq<u8>>, b: Seq<Seq<u8>>)
    ensures
        form_pairs(a + b) == form_pairs(a) + form_pairs(b),
    decreases b.len(),
{
    if b.len() == 0 {
        assert(a + b =~= a);
        assert(form_pairs(a) + form_pairs(b) =~= form_pairs(a));
    } else {
        assert((a + b).drop_last() =~= a + b.drop_last());
        lemma_form_pairs_concat(a, b.drop_last());
        assert(form_pairs(a + b) =~= form_pairs(a) + form_pairs(b));
    }
}

/// Nothing in a form is merged or reordered: two forms joined by `&` hold the
/// pairs of the first and then those of the second, a repeated name each time it
/// occurs.
pub proof fn joined_forms_hold_the_pairs_of_both(a: Seq<u8>, b: Seq<u8>)
    ensures
        urlencoded(a + seq!['&' as u8] + b) == urlencoded(a) + urlencoded(b),
{
    let x = '&' as u8;
    assert(with_ampersands(a + seq![x] + b) =~= with_ampersands(a) + seq![x] + with_ampersands(b));
    joining_adds_pieces(with_ampersands(a), x, with_ampersands(b));
    lemma_form_pairs_concat(split(with_ampersands(a), x), split(with_ampersands(b), x));
}

/// `;` parts the pairs of a form just as `&` does.
pub proof fn semicolons_part_pairs_too(input: Seq<u8>)
    ensures
        urlencoded(input) == urlencoded(with_ampersands(input)),
{
    assert(with_ampersands(with_ampersands(input)) =~= with_ampersands(input));
}

proof fn lemma_cookie_pairs_concat(a: Seq<Seq<u8>>, b: Seq<Seq<u8>>)
    ensures
        cookie_pairs(a + b) == cookie_pairs(a) + cookie_pairs(b),
    decreases b.len(),
{
    if b.len() == 0 {
        assert(a + b =~= a);
        assert(cookie_pairs(a) + cookie_pairs(b) =~= cookie_pairs(a));
    } else {
        assert((a + b).drop_last() =~= a + b.drop_last());
        lemma_cookie_pairs_concat(a, b.drop_last());
        assert(cookie_pairs(a + b) =~= cookie_pairs(a) + cookie_pairs(b));
    }
}

/// Two cookie lists joined by `;` hold the cookies of the first and then those of
/// the second.
pub proof fn joined_cookies_hold_the_pairs_of_both(a: Seq<u8>, b: Seq<u8>)
    ensures
        cookies(a + seq![';' as u8] + b) == cookies(a) + cookies(b),
{
    joining_adds_pieces(a, ';' as u8, b);
    lemma_cookie_pairs_concat(split(a, ';' as u8), split(b, ';' as u8));
}

} // verus!
