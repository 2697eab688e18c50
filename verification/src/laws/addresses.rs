//! Which addresses a text writes, and which of them a range holds.

use crate::ip::client_ip;
use crate::ip::group;
use crate::ip::groups;
use crate::ip::in_range;
use crate::ip::ip_of;
use crate::ip::ipv4_of;
use crate::ip::is_range;
use crate::ip::octet;
use crate::ip::range_of;
use crate::ip::width;
use crate::ip::IpAddr;
use crate::laws::operators::compiled;
use crate::laws::operators::matches_subject;
use crate::laws::requests::lemma_split_none;
use crate::laws::spelling::all_white;
use crate::laws::spelling::white_space_around_is_taken_off;
use crate::macros::Values;
use crate::matcher::CompiledOperatorView;
use crate::matcher::OperatorCompileErrorView;
use crate::operator::OperatorView;
use crate::text::decimal;
use crate::text::is_digit;
use crate::text::lemma_decimal_digits;
use crate::text::lemma_position_is;
use crate::text::split;
use vstd::arithmetic::div_mod::lemma_fundamental_div_mod;
use vstd::arithmetic::power2::lemma_pow2_adds;
use vstd::arithmetic::power2::lemma_pow2_pos;
use vstd::arithmetic::power2::pow2;
use vstd::prelude::*;
use vstd::utf8::encode_utf8;
use vstd::utf8::encode_utf8_decode_utf8;
use vstd::utf8::encode_utf8_valid_utf8;

verus! {

// ---------------------------------------------------------------------------
// Addresses

proof fn lemma_octet(n: nat)
    requires
        n <= 255,
    ensures
        octet(decimal(n)) == Some(n),
        !decimal(n).contains('.') && !decimal(n).contains('/') && !decimal(n).contains(':')
            && !decimal(n).contains(','),
        decimal(n).len() > 0,
        !crate::text::is_white(decimal(n)[0]),
        !crate::text::is_white(decimal(n).last()),
{
    lemma_decimal_digits(n);
    let d = decimal(n);
    reveal_with_fuel(decimal, 4);
    assert(d.len() <= 3);
    assert(d.len() > 1 ==> d[0] != '0') by {
        if n >= 100 {
            assert(d[0] == crate::text::digit(n / 100));
        } else if n >= 10 {
            assert(d[0] == crate::text::digit(n / 10));
        }
    }
    assert forall|i: int| 0 <= i < d.len() implies d[i] != '.' && d[i] != '/' && d[i] != ':' && d[i]
        != ',' by {
        assert(is_digit(d[i]));
    }
    assert(is_digit(d[0]) && is_digit(d[d.len() - 1]));
}

pub proof fn lemma_split_first(a: Seq<char>, c: char, rest: Seq<char>)
    requires
        !a.contains(c),
    ensures
        split(a + seq![c] + rest, c) == seq![a] + split(rest, c),
{
    let s = a + seq![c] + rest;
    assert forall|j: int| 0 <= j < a.len() implies s[j] != c by {
        assert(a.contains(a[j]));
    }
    lemma_position_is(s, c, a.len() as int);
    assert(s.take(a.len() as int) =~= a);
    assert(s.skip(a.len() as int + 1) =~= rest);
}

/// Four octets with dots between them.
pub open spec fn dotted(a: nat, b: nat, c: nat, d: nat) -> Seq<char> {
    decimal(a) + seq!['.'] + (decimal(b) + seq!['.'] + (decimal(c) + seq!['.'] + decimal(d)))
}

/// Four octets with dots between them are the address of these octets, the first one
/// highest.
pub proof fn dotted_octets_are_an_address(a: nat, b: nat, c: nat, d: nat)
    requires
        a <= 255,
        b <= 255,
        c <= 255,
        d <= 255,
    ensures
        ip_of(dotted(a, b, c, d)) == Some(
            IpAddr::V4((((a * 256 + b) * 256 + c) * 256 + d) as u32),
        ),
        client_ip(dotted(a, b, c, d)) == Some(
            IpAddr::V4((((a * 256 + b) * 256 + c) * 256 + d) as u32),
        ),
{
    let s = dotted(a, b, c, d);
    lemma_octet(a);
    lemma_octet(b);
    lemma_octet(c);
    lemma_octet(d);
    let s2 = decimal(c) + seq!['.'] + decimal(d);
    let s1 = decimal(b) + seq!['.'] + s2;
    lemma_split_first(decimal(a), '.', s1);
    lemma_split_first(decimal(b), '.', s2);
    lemma_split_first(decimal(c), '.', decimal(d));
    lemma_split_none(decimal(d), '.');
    assert(split(s, '.') =~= seq![decimal(a), decimal(b), decimal(c), decimal(d)]);
    assert(a * 0x1000000 + b * 0x10000 + c * 0x100 + d == ((a * 256 + b) * 256 + c) * 256 + d);
}

proof fn lemma_one_piece(s: Seq<char>, c: char)
    ensures
        split(s, c).len() >= 1,
        split(s, c).len() == 1 ==> split(s, c)[0] == s,
    decreases s.len(),
{
    let p = crate::text::position(s, c);
    crate::text::lemma_position(s, c);
    if p < s.len() {
        lemma_one_piece(s.skip(p + 1), c);
    }
}

proof fn lemma_ported_is_not_dotted(a: nat, b: nat, c: nat, d: nat, port: Seq<char>)
    requires
        a <= 255,
        b <= 255,
        c <= 255,
        d <= 255,
    ensures
        ipv4_of(dotted(a, b, c, d) + seq![':'] + port) is None,
{
    let ported = dotted(a, b, c, d) + seq![':'] + port;
    lemma_octet(a);
    lemma_octet(b);
    lemma_octet(c);
    let tail = decimal(d) + seq![':'] + port;
    let t2 = decimal(c) + seq!['.'] + tail;
    let t1 = decimal(b) + seq!['.'] + t2;
    assert(ported =~= decimal(a) + seq!['.'] + t1);
    lemma_split_first(decimal(a), '.', t1);
    lemma_split_first(decimal(b), '.', t2);
    lemma_split_first(decimal(c), '.', tail);
    let parts = split(ported, '.');
    let last = split(tail, '.');
    assert(parts =~= seq![decimal(a), decimal(b), decimal(c)] + last);
    if parts.len() == 4 {
        assert(last.len() == 1);
        lemma_one_piece(tail, '.');
        assert(parts[3] == tail);
        let colon = decimal(d).len() as int;
        assert(tail[colon] == ':' && !is_digit(tail[colon]));
    }
}

/// A port behind a colon says nothing of an IPv4 client.
pub proof fn ports_are_ignored(a: nat, b: nat, c: nat, d: nat, port: Seq<char>)
    requires
        a <= 255,
        b <= 255,
        c <= 255,
        d <= 255,
        !port.contains(':'),
    ensures
        client_ip(dotted(a, b, c, d) + seq![':'] + port) == Some(
            IpAddr::V4((((a * 256 + b) * 256 + c) * 256 + d) as u32),
        ),
{
    let s = dotted(a, b, c, d);
    dotted_octets_are_an_address(a, b, c, d);
    lemma_ported_is_not_dotted(a, b, c, d, port);
    lemma_octet(a);
    lemma_octet(b);
    lemma_octet(c);
    lemma_octet(d);
    assert(ipv4_of(s) is Some) by {
        assert(!s.contains(':')) by {
            lemma_no_colon(decimal(a));
            lemma_no_colon(decimal(b));
            lemma_no_colon(decimal(c));
            lemma_no_colon(decimal(d));
        }
        if ipv4_of(s) is None {
            lemma_split_none(s, ':');
            lemma_no_colon(s);
            lemma_no_double_colon(s);
        }
    }
    let ported = s + seq![':'] + port;
    assert forall|i: int| 0 <= i < s.len() implies s[i] != ':' by {
        lemma_no_colon(decimal(a));
        lemma_no_colon(decimal(b));
        lemma_no_colon(decimal(c));
        lemma_no_colon(decimal(d));
    }
    lemma_split_first(s, ':', port);
    lemma_split_none(port, ':');
    assert(ported.len() > 0);
    assert(crate::ip::ipv6_of(ported) is None) by {
        assert forall|k: int| 0 <= k < ported.len() - 1 implies !(#[trigger] ported[k] == ':'
            && ported[k + 1] == ':') by {
            if k < s.len() {
                assert(ported[k] == s[k]);
            } else if k > s.len() {
                assert(port.contains(port[k - s.len() - 1]));
            } else {
                assert(port.contains(port[0]));
            }
        }
        lemma_no_double_colon(ported);
        let parts = split(ported, ':');
        assert(parts =~= seq![s, port]);
        assert(s.len() > 4);
    }
    lemma_last_colon(s, port);
    assert(ported.take(s.len() as int) =~= s);
    assert(ported[0] == decimal(a)[0]);
    lemma_decimal_digits(a);
    assert(is_digit(decimal(a)[0]));
}


proof fn lemma_no_colon(s: Seq<char>)
    requires
        !s.contains(':'),
    ensures
        forall|i: int| 0 <= i < s.len() ==> s[i] != ':',
{
    assert forall|i: int| 0 <= i < s.len() implies s[i] != ':' by {
        assert(s.contains(s[i]));
    }
}

proof fn lemma_last_colon(s: Seq<char>, port: Seq<char>)
    requires
        !port.contains(':'),
    ensures
        crate::ip::last_position(s + seq![':'] + port, ':') == s.len(),
    decreases port.len(),
{
    let all = s + seq![':'] + port;
    if port.len() > 0 {
        assert(port.contains(port.last()));
        assert(all.last() == port.last());
        assert(all.drop_last() =~= s + seq![':'] + port.drop_last());
        assert forall|i: int| 0 <= i < port.drop_last().len() implies port.drop_last()[i] != ':' by {
            assert(port.contains(port[i]));
        }
        lemma_last_colon(s, port.drop_last());
    } else {
        assert(all.last() == ':');
    }
}

proof fn lemma_bracket(s: Seq<char>)
    requires
        s.len() > 0,
        s[0] == '[',
    ensures
        ipv4_of(s) is None,
        group(s) is None,
{
    let p = crate::text::position(s, '.');
    crate::text::lemma_position(s, '.');
    let first = split(s, '.')[0];
    assert(first.len() > 0 && first[0] == '[');
    assert(!is_digit(first[0]));
    if group(s) is Some {
        lemma_hex_chars(s, 0);
    }
}

/// An IPv6 address in brackets is that address, whatever follows the brackets.
pub proof fn bracketed_addresses_are_read(text: Seq<char>, address: IpAddr, rest: Seq<char>)
    requires
        crate::ip::ipv6_of(text) == Some(address),
        !text.contains(']'),
    ensures
        client_ip(seq!['['] + text + seq![']'] + rest) == Some(address),
{
    let s = seq!['['] + text + seq![']'] + rest;
    assert(s[0] == '[');
    lemma_bracket(s);
    let d = crate::ip::double_colon(s);
    crate::text::lemma_position(s, ':');
    lemma_bracket(split(s, ':')[0]);
    assert(crate::ip::ipv6_of(s) is None) by {
        if d < s.len() {
            lemma_double_colon_bound(s);
            let head = s.take(d);
            assert(head[0] == '[');
            crate::text::lemma_position(head, ':');
            lemma_bracket(split(head, ':')[0]);
        }
    }
    let behind = s.skip(1);
    assert(behind =~= text + seq![']'] + rest);
    assert forall|j: int| 0 <= j < text.len() implies behind[j] != ']' by {
        assert(text.contains(text[j]));
    }
    lemma_position_is(behind, ']', text.len() as int);
    assert(behind.take(text.len() as int) =~= text);
}

proof fn lemma_double_colon_bound(s: Seq<char>)
    ensures
        0 <= crate::ip::double_colon(s) <= s.len(),
        s.len() > 0 && s[0] == '[' ==> crate::ip::double_colon(s) > 0,
    decreases s.len(),
{
    if s.len() >= 2 && !(s[0] == ':' && s[1] == ':') {
        lemma_double_colon_bound(s.drop_first());
    }
}

/// Eight groups with colons between them.
pub open spec fn coloned(groups: Seq<Seq<char>>) -> Seq<char>
    decreases groups.len(),
{
    if groups.len() == 0 {
        seq![]
    } else if groups.len() == 1 {
        groups[0]
    } else {
        groups[0] + seq![':'] + coloned(groups.drop_first())
    }
}

/// Whether some texts are groups of one to four hexadecimal digits with these
/// numbers.
pub open spec fn are_groups(texts: Seq<Seq<char>>, numbers: Seq<nat>) -> bool {
    texts.len() == numbers.len() && forall|i: int|
        0 <= i < texts.len() ==> group(#[trigger] texts[i]) == Some(numbers[i])
}

proof fn lemma_group_plain(s: Seq<char>)
    requires
        group(s) is Some,
    ensures
        !s.contains(':') && !s.contains('.'),
{
    assert forall|i: int| 0 <= i < s.len() implies s[i] != ':' && s[i] != '.' by {
        lemma_hex_chars(s, i);
    }
}

proof fn lemma_hex_chars(s: Seq<char>, i: int)
    requires
        crate::ip::hex_text_value(s) is Some,
        0 <= i < s.len(),
    ensures
        crate::ip::hex_char_value(s[i]) is Some,
    decreases s.len(),
{
    if i < s.len() - 1 {
        lemma_hex_chars(s.drop_last(), i);
    }
}

proof fn lemma_not_dotted(s: Seq<char>)
    requires
        !s.contains('.'),
    ensures
        ipv4_of(s) is None,
{
    lemma_split_none(s, '.');
}

proof fn lemma_coloned(texts: Seq<Seq<char>>, numbers: Seq<nat>)
    requires
        are_groups(texts, numbers),
        texts.len() > 0,
    ensures
        split(coloned(texts), ':') == texts,
        groups(texts, true) == Some(numbers),
        !coloned(texts).contains('.'),
        coloned(texts).len() > 0,
        coloned(texts)[0] == texts[0][0],
        forall|k: int|
            0 <= k < coloned(texts).len() - 1 ==> !(#[trigger] coloned(texts)[k] == ':' && coloned(
                texts,
            )[k + 1] == ':'),
    decreases texts.len(),
{
    lemma_group_plain(texts[0]);
    lemma_not_dotted(texts[0]);
    assert(texts[0].len() > 0);
    if texts.len() == 1 {
        lemma_split_none(texts[0], ':');
        assert(texts =~= seq![texts[0]]);
        reveal_with_fuel(groups, 2);
        assert(texts.drop_first() =~= seq![]);
        assert(numbers =~= seq![numbers[0]]);
        assert(seq![numbers[0]] + Seq::<nat>::empty() =~= numbers);
        let t = texts[0];
        assert forall|k: int| 0 <= k < t.len() - 1 implies !(#[trigger] t[k] == ':' && t[k + 1]
            == ':') by {
            assert(t.contains(t[k]));
        }
    } else {
        let rest = texts.drop_first();
        let more = numbers.drop_first();
        assert forall|i: int| 0 <= i < rest.len() implies group(#[trigger] rest[i]) == Some(
            more[i],
        ) by {
            assert(group(texts[i + 1]) == Some(numbers[i + 1]));
        }
        lemma_coloned(rest, more);
        lemma_split_first(texts[0], ':', coloned(rest));
        assert(seq![texts[0]] + rest =~= texts);
        assert(seq![numbers[0]] + more =~= numbers);
        let t = texts[0];
        let s = coloned(texts);
        let tail = coloned(rest);
        assert forall|i: int| 0 <= i < s.len() implies s[i] != '.' by {
            if i < t.len() {
                assert(t.contains(t[i]));
            } else if i > t.len() {
                assert(tail.contains(tail[i - t.len() - 1]));
            }
        }
        lemma_group_plain(rest[0]);
        assert(rest[0].contains(rest[0][0]));
        assert forall|k: int| 0 <= k < s.len() - 1 implies !(#[trigger] s[k] == ':' && s[k + 1]
            == ':') by {
            if k < t.len() {
                assert(t.contains(t[k]));
            } else if k == t.len() {
                assert(s[k + 1] == tail[0]);
            } else {
                let j = k - t.len() - 1;
                assert(s[k] == tail[j] && s[k + 1] == tail[j + 1]);
            }
        }
    }
}

proof fn lemma_no_double_colon(s: Seq<char>)
    requires
        forall|k: int| 0 <= k < s.len() - 1 ==> !(#[trigger] s[k] == ':' && s[k + 1] == ':'),
    ensures
        crate::ip::double_colon(s) >= s.len(),
    decreases s.len(),
{
    if s.len() >= 2 {
        let rest = s.drop_first();
        assert(!(s[0] == ':' && s[1] == ':'));
        assert forall|k: int| 0 <= k < rest.len() - 1 implies !(#[trigger] rest[k] == ':' && rest[k
            + 1] == ':') by {
            assert(rest[k] == s[k + 1]);
            assert(!(s[k + 1] == ':' && s[k + 1 + 1] == ':'));
        }
        lemma_no_double_colon(rest);
    }
}

/// Eight groups with colons between them are the IPv6 address of these groups, the
/// first one highest.
pub proof fn coloned_groups_are_an_address(texts: Seq<Seq<char>>, n: Seq<nat>)
    requires
        texts.len() == 8,
        are_groups(texts, n),
    ensures
        ip_of(coloned(texts)) == Some(
            IpAddr::V6 {
                high: (((n[0] * 0x10000 + n[1]) * 0x10000 + n[2]) * 0x10000 + n[3]) as u64,
                low: (((n[4] * 0x10000 + n[5]) * 0x10000 + n[6]) * 0x10000 + n[7]) as u64,
            },
        ),
{
    lemma_coloned(texts, n);
    lemma_no_double_colon(coloned(texts));
    lemma_not_dotted(coloned(texts));
    assert(n[0] * 0x1000000000000 + n[1] * 0x100000000 + n[2] * 0x10000 + n[3] == ((n[0] * 0x10000
        + n[1]) * 0x10000 + n[2]) * 0x10000 + n[3]);
    assert(n[4] * 0x1000000000000 + n[5] * 0x100000000 + n[6] * 0x10000 + n[7] == ((n[4] * 0x10000
        + n[5]) * 0x10000 + n[6]) * 0x10000 + n[7]);
}

proof fn lemma_first_double_colon(head: Seq<char>, rest: Seq<char>)
    requires
        forall|k: int|
            0 <= k < head.len() - 1 ==> !(#[trigger] head[k] == ':' && head[k + 1] == ':'),
        head.len() > 0 ==> head.last() != ':',
    ensures
        crate::ip::double_colon(head + (seq![':', ':'] + rest)) == head.len(),
    decreases head.len(),
{
    let s = head + (seq![':', ':'] + rest);
    if head.len() == 0 {
        assert(s[0] == ':' && s[1] == ':');
    } else {
        let less = head.drop_first();
        assert(s.drop_first() =~= less + (seq![':', ':'] + rest));
        assert(s[0] == head[0]);
        assert(!(s[0] == ':' && s[1] == ':')) by {
            if head.len() > 1 {
                assert(s[1] == head[1]);
            }
        }
        assert forall|k: int| 0 <= k < less.len() - 1 implies !(#[trigger] less[k] == ':' && less[k
            + 1] == ':') by {
            assert(less[k] == head[k + 1]);
            assert(!(head[k + 1] == ':' && head[k + 1 + 1] == ':'));
        }
        lemma_first_double_colon(less, rest);
    }
}

proof fn lemma_groups_undotted(texts: Seq<Seq<char>>, numbers: Seq<nat>)
    requires
        are_groups(texts, numbers),
    ensures
        groups(texts, false) == Some(numbers),
    decreases texts.len(),
{
    if texts.len() == 0 {
        assert(numbers =~= seq![]);
    } else {
        let rest = texts.drop_first();
        let more = numbers.drop_first();
        assert(group(texts[0]) == Some(numbers[0]));
        assert forall|i: int| 0 <= i < rest.len() implies group(#[trigger] rest[i]) == Some(
            more[i],
        ) by {
            assert(group(texts[i + 1]) == Some(numbers[i + 1]));
        }
        lemma_groups_undotted(rest, more);
        assert(seq![numbers[0]] + more =~= numbers);
    }
}

proof fn lemma_coloned_end(texts: Seq<Seq<char>>, numbers: Seq<nat>)
    requires
        are_groups(texts, numbers),
        texts.len() > 0,
    ensures
        coloned(texts).len() > 0,
        coloned(texts).last() != ':',
    decreases texts.len(),
{
    let t = texts[0];
    assert(group(t) == Some(numbers[0]));
    lemma_group_plain(t);
    assert(t.contains(t.last()));
    if texts.len() > 1 {
        let rest = texts.drop_first();
        let more = numbers.drop_first();
        assert forall|i: int| 0 <= i < rest.len() implies group(#[trigger] rest[i]) == Some(
            more[i],
        ) by {
            assert(group(texts[i + 1]) == Some(numbers[i + 1]));
        }
        lemma_coloned_end(rest, more);
        assert(coloned(texts).last() == coloned(rest).last());
    }
}

/// A `::` stands for the groups that are missing, all zero, between those before and
/// those behind it.
pub proof fn double_colons_stand_for_zeros(
    head: Seq<Seq<char>>,
    tail: Seq<Seq<char>>,
    h: Seq<nat>,
    t: Seq<nat>,
    zeros: Seq<nat>,
)
    requires
        are_groups(head, h),
        are_groups(tail, t),
        h.len() + zeros.len() + t.len() == 8,
        zeros.len() > 0,
        forall|i: int| 0 <= i < zeros.len() ==> #[trigger] zeros[i] == 0,
    ensures
        ({
            let n = h + zeros + t;
            ip_of(coloned(head) + (seq![':', ':'] + coloned(tail))) == Some(
                IpAddr::V6 {
                    high: (((n[0] * 0x10000 + n[1]) * 0x10000 + n[2]) * 0x10000 + n[3]) as u64,
                    low: (((n[4] * 0x10000 + n[5]) * 0x10000 + n[6]) * 0x10000 + n[7]) as u64,
                },
            )
        }),
{
    let a = coloned(head);
    let b = coloned(tail);
    let s = a + (seq![':', ':'] + b);
    if head.len() > 0 {
        lemma_coloned(head, h);
        lemma_coloned_end(head, h);
        lemma_groups_undotted(head, h);
    } else {
        assert(h =~= seq![]);
    }
    if tail.len() > 0 {
        lemma_coloned(tail, t);
    } else {
        assert(t =~= seq![]);
    }
    lemma_first_double_colon(a, b);
    assert(s.take(a.len() as int) =~= a);
    assert(s.skip(a.len() as int + 2) =~= b);
    assert forall|i: int| 0 <= i < s.len() implies s[i] != '.' by {
        if i < a.len() {
            assert(a.contains(a[i]));
        } else if i >= a.len() + 2 {
            assert(b.contains(b[i - a.len() - 2]));
        }
    }
    lemma_not_dotted(s);
    let n = h + zeros + t;
    assert(h + Seq::new((8 - h.len() - t.len()) as nat, |i: int| 0nat) + t =~= n);
    assert(crate::ip::groups_of(a, false) == Some(h));
    assert(crate::ip::groups_of(b, true) == Some(t));
    assert(n[0] * 0x1000000000000 + n[1] * 0x100000000 + n[2] * 0x10000 + n[3] == ((n[0] * 0x10000
        + n[1]) * 0x10000 + n[2]) * 0x10000 + n[3]);
    assert(n[4] * 0x1000000000000 + n[5] * 0x100000000 + n[6] * 0x10000 + n[7] == ((n[4] * 0x10000
        + n[5]) * 0x10000 + n[6]) * 0x10000 + n[7]);
}

/// A group is one to four hexadecimal digits, each worth sixteen of the next.
pub proof fn groups_are_hexadecimal(front: Seq<char>, digit: char, n: nat)
    requires
        front.len() < 4,
        front.len() == 0 && n == 0 || group(front) == Some(n),
    ensures
        '0' <= digit <= '9' ==> group(front.push(digit)) == Some(
            (16 * n + (digit as int - '0' as int)) as nat,
        ),
        'a' <= digit <= 'f' ==> group(front.push(digit)) == Some(
            (16 * n + (digit as int - 'a' as int) + 10) as nat,
        ),
        'A' <= digit <= 'F' ==> group(front.push(digit)) == Some(
            (16 * n + (digit as int - 'A' as int) + 10) as nat,
        ),
{
    assert(front.push(digit).drop_last() =~= front);
}

// ---------------------------------------------------------------------------
// Ranges

/// Whether two numbers stand in one block of a size: blocks follow each other from
/// zero.
pub open spec fn share_a_block(a: int, b: int, size: int) -> bool {
    exists|k: int|
        #![trigger k * size]
        k * size <= a < k * size + size && k * size <= b < k * size + size
}

proof fn lemma_blocks(a: int, b: int, size: int)
    requires
        a >= 0,
        b >= 0,
        size > 0,
    ensures
        share_a_block(a, b, size) <==> a / size == b / size,
{
    lemma_fundamental_div_mod(a, size);
    lemma_fundamental_div_mod(b, size);
    assert(0 <= a % size < size && 0 <= b % size < size) by (nonlinear_arith)
        requires
            size > 0,
    ;
    let k = a / size;
    assert(size * (a / size) == (a / size) * size) by (nonlinear_arith);
    assert(size * (b / size) == (b / size) * size) by (nonlinear_arith);
    if a / size == b / size {
        assert(k * size <= a < k * size + size);
    }
    if share_a_block(a, b, size) {
        let j = choose|j: int|
            #![trigger j * size]
            j * size <= a < j * size + size && j * size <= b < j * size + size;
        lemma_quotient(a, j, size);
        lemma_quotient(b, j, size);
    }
}

proof fn lemma_quotient(a: int, j: int, size: int)
    requires
        size > 0,
        j * size <= a < j * size + size,
    ensures
        a / size == j,
{
    vstd::arithmetic::div_mod::lemma_fundamental_div_mod_converse(a, size, j, a - j * size);
    assert(j * size == size * j) by (nonlinear_arith);
}

/// The number of an address.
pub open spec fn number(ip: IpAddr) -> int {
    match ip {
        IpAddr::V4(n) => n as int,
        IpAddr::V6 { high, low } => high * 0x1_0000_0000_0000_0000 + low,
    }
}

/// A range holds the addresses of its family that lie in one block with its own: a
/// prefix of all bits only that one, and each bit less twice as many.
pub proof fn ranges_hold_a_block(net: IpAddr, prefix: u8, ip: IpAddr)
    requires
        is_range((net, prefix)),
        width(net) == width(ip),
    ensures
        in_range((net, prefix), ip) <==> share_a_block(
            number(net),
            number(ip),
            pow2((width(net) - prefix) as nat) as int,
        ),
{
    let size = pow2((width(net) - prefix) as nat) as int;
    lemma_pow2_pos((width(net) - prefix) as nat);
    lemma_blocks(number(net), number(ip), size);
    match (net, ip) {
        (IpAddr::V4(a), IpAddr::V4(b)) => {},
        (IpAddr::V6 { high: a, low: x }, IpAddr::V6 { high: b, low: y }) => {
            let big = 0x1_0000_0000_0000_0000int;
            vstd::arithmetic::power2::lemma2_to64();
            assert(pow2(64) == big);
            if prefix <= 64 {
                let part = pow2((64 - prefix) as nat) as int;
                lemma_pow2_adds((64 - prefix) as nat, 64);
                lemma_pow2_pos((64 - prefix) as nat);
                assert(size == part * big);
                lemma_high(a as int, x as int, part, big);
                lemma_high(b as int, y as int, part, big);
            } else {
                let part = pow2((128 - prefix) as nat) as int;
                let times = pow2((prefix - 64) as nat) as int;
                lemma_pow2_adds((128 - prefix) as nat, (prefix - 64) as nat);
                lemma_pow2_pos((128 - prefix) as nat);
                lemma_pow2_pos((prefix - 64) as nat);
                assert(part * times == big);
                assert((64 - (prefix - 64)) as nat == (128 - prefix) as nat);
                lemma_low(a as int, x as int, part, times, big);
                lemma_low(b as int, y as int, part, times, big);
                lemma_low_bound(x as int, part, times, big);
                lemma_low_bound(y as int, part, times, big);
                let qa = x as int / part;
                let qb = y as int / part;
                assert(a * times + qa == b * times + qb <==> a == b && qa == qb)
                    by (nonlinear_arith)
                    requires
                        0 <= qa < times,
                        0 <= qb < times,
                        a >= 0,
                        b >= 0,
                ;
            }
        },
        _ => {},
    }
}

proof fn lemma_high(h: int, l: int, part: int, big: int)
    requires
        h >= 0,
        0 <= l < big,
        part > 0,
        big > 0,
    ensures
        (h * big + l) / (part * big) == h / part,
{
    let q = h / part;
    let r = h % part;
    lemma_fundamental_div_mod(h, part);
    assert(0 <= r < part) by (nonlinear_arith)
        requires
            part > 0,
            r == h % part,
    ;
    assert(h * big + l == (part * big) * q + (r * big + l)) by (nonlinear_arith)
        requires
            h == part * q + r,
    ;
    assert(0 <= r * big + l < part * big) by (nonlinear_arith)
        requires
            0 <= r < part,
            0 <= l < big,
    ;
    assert(part * big > 0) by (nonlinear_arith)
        requires
            part > 0,
            big > 0,
    ;
    vstd::arithmetic::div_mod::lemma_fundamental_div_mod_converse(
        h * big + l,
        part * big,
        q,
        r * big + l,
    );
}

proof fn lemma_low(h: int, l: int, part: int, times: int, big: int)
    requires
        h >= 0,
        l >= 0,
        part > 0,
        part * times == big,
    ensures
        (h * big + l) / part == h * times + l / part,
{
    let q = l / part;
    let r = l % part;
    lemma_fundamental_div_mod(l, part);
    assert(0 <= r < part) by (nonlinear_arith)
        requires
            part > 0,
            r == l % part,
    ;
    assert(h * big + l == part * (h * times + q) + r) by (nonlinear_arith)
        requires
            part * times == big,
            l == part * q + r,
    ;
    vstd::arithmetic::div_mod::lemma_fundamental_div_mod_converse(
        h * big + l,
        part,
        h * times + q,
        r,
    );
}

proof fn lemma_low_bound(l: int, part: int, times: int, big: int)
    requires
        0 <= l < big,
        part > 0,
        part * times == big,
    ensures
        0 <= l / part < times,
{
    lemma_fundamental_div_mod(l, part);
    let q = l / part;
    let r = l % part;
    assert(0 <= r < part) by (nonlinear_arith)
        requires
            part > 0,
            r == l % part,
    ;
    assert(0 <= q < times) by (nonlinear_arith)
        requires
            0 <= l < part * times,
            l == part * q + r,
            0 <= r < part,
    ;
}

/// An IPv4 address mapped into IPv6, `::ffff:a.b.c.d`, is compared as IPv4, on
/// either side; any other IPv6 address shares no range with IPv4.
pub proof fn mapped_addresses_are_compared_as_ipv4(
    net: u32,
    prefix: u8,
    ip: u32,
    high: u64,
    low: u64,
)
    requires
        prefix <= 32,
    ensures
        in_range(
            (IpAddr::V4(net), prefix),
            IpAddr::V6 { high: 0, low: (0xffff_0000_0000 + ip) as u64 },
        ) == in_range((IpAddr::V4(net), prefix), IpAddr::V4(ip)),
        in_range(
            (IpAddr::V6 { high: 0, low: (0xffff_0000_0000 + net) as u64 }, (96 + prefix) as u8),
            IpAddr::V4(ip),
        ) == in_range((IpAddr::V4(net), prefix), IpAddr::V4(ip)),
        !(high == 0 && 0xffff_0000_0000 <= low <= 0xffff_ffff_ffff) ==> !in_range(
            (IpAddr::V4(net), prefix),
            IpAddr::V6 { high, low },
        ),
{
}

/// An address without a prefix is a range of itself alone, and one with a prefix a
/// range of that many bits; a prefix that is too long is refused.
pub proof fn ranges_are_read(text: Seq<char>, address: IpAddr, n: nat)
    requires
        ip_of(text) == Some(address),
        text.len() > 0 && !crate::text::is_white(text[0]) && !crate::text::is_white(text.last()),
        !text.contains('/'),
        n <= 255,
    ensures
        range_of(text) == Ok::<(IpAddr, u8), Seq<char>>((address, width(address))),
        n <= width(address) ==> range_of(text + seq!['/'] + decimal(n)) == Ok::<
            (IpAddr, u8),
            Seq<char>,
        >((address, n as u8)),
        n > width(address) ==> range_of(text + seq!['/'] + decimal(n)) is Err,
{
    crate::laws::phases::lemma_untrimmed(text);
    assert forall|j: int| 0 <= j < text.len() implies text[j] != '/' by {
        assert(text.contains(text[j]));
    }
    lemma_position_is(text, '/', text.len() as int);
    let s = text + seq!['/'] + decimal(n);
    lemma_octet(n);
    lemma_decimal_digits(n);
    assert(s[0] == text[0] && s.last() == decimal(n).last());
    crate::laws::phases::lemma_untrimmed(s);
    crate::laws::phases::lemma_untrimmed(decimal(n));
    lemma_position_is(s, '/', text.len() as int);
    assert(s.take(text.len() as int) =~= text);
    assert(s.skip(text.len() as int + 1) =~= decimal(n));
    assert(is_digit(decimal(n)[0]));
}

/// `@ipMatch` matches a client whose address one of its ranges holds, white space
/// around it taken off. Ranges stand between commas.
pub proof fn clients_are_matched_by_range(
    one: Seq<char>,
    range: (IpAddr, u8),
    rest: Seq<char>,
    ranges: Seq<(IpAddr, u8)>,
    before: Seq<char>,
    client: Seq<char>,
    behind: Seq<char>,
    ip: IpAddr,
    values: Values,
    capture: bool,
)
    requires
        all_white(before) && all_white(behind),
        one.len() > 0 && !crate::text::is_white(one[0]) && !crate::text::is_white(one.last()),
        !one.contains(','),
        range_of(one) == Ok::<(IpAddr, u8), Seq<char>>(range),
        compiled(OperatorView::IpMatch(rest)) == Ok::<
            CompiledOperatorView,
            OperatorCompileErrorView,
        >(CompiledOperatorView::IpMatch(ranges)),
        client_ip(client) == Some(ip),
        client.len() > 0 && !crate::text::is_white(client[0]) && !crate::text::is_white(
            client.last(),
        ),
    ensures
        compiled(OperatorView::IpMatch(one + seq![','] + rest)) == Ok::<
            CompiledOperatorView,
            OperatorCompileErrorView,
        >(CompiledOperatorView::IpMatch(seq![range] + ranges)),
        matches_subject(OperatorView::IpMatch(one), encode_utf8(before + client + behind), values, capture)
            <==> in_range(range, ip),
        matches_subject(
            OperatorView::IpMatch(one + seq![','] + rest),
            encode_utf8(before + client + behind),
            values,
            capture,
        ) <==> in_range(range, ip) || matches_subject(
            OperatorView::IpMatch(rest),
            encode_utf8(before + client + behind),
            values,
            capture,
        ),
{
    crate::laws::phases::lemma_untrimmed(one);
    white_space_around_is_taken_off(before, client, behind);
    lemma_split_first(one, ',', rest);
    lemma_split_none(one, ',');
    let parts = split(one + seq![','] + rest, ',');
    assert(parts.drop_first() =~= split(rest, ','));
    assert(parts[0] == one);
    reveal_with_fuel(crate::matcher::ip_ranges, 2);
    assert(seq![one].drop_first() =~= seq![]);
    assert(seq![range] + Seq::<(IpAddr, u8)>::empty() =~= seq![range]);
    encode_utf8_valid_utf8(before + client + behind);
    encode_utf8_decode_utf8(before + client + behind);
    let all = seq![range] + ranges;
    assert(all[0] == range && seq![range][0] == range);
    if exists|i: int| 0 <= i < ranges.len() && in_range(#[trigger] ranges[i], ip) {
        let i = choose|i: int| 0 <= i < ranges.len() && in_range(#[trigger] ranges[i], ip);
        assert(all[i + 1] == ranges[i]);
    }
    if exists|i: int| 0 <= i < all.len() && in_range(#[trigger] all[i], ip) {
        let i = choose|i: int| 0 <= i < all.len() && in_range(#[trigger] all[i], ip);
        if i > 0 {
            assert(ranges[i - 1] == all[i]);
        }
    }
}

} // verus!
