//! IP addresses and address ranges.
//!
//! An address is held as a number: the text forms that stand for it are read
//! and written here.

use crate::text::before;
use crate::text::debug_text;
use crate::text::decimal;
use crate::text::digits_number;
use crate::text::find_char;
use crate::text::from;
use crate::text::joined3;
use crate::text::parse_digits;
use crate::text::parse_unsigned;
use crate::text::position;
use crate::text::quoted_then;
use crate::text::split;
use crate::text::split_chars;
use crate::text::string_of;
use crate::text::trim;
use crate::text::trimmed;
use crate::text::unsigned_number;
use crate::text::views;
use crate::text::write_decimal;
use vstd::arithmetic::div_mod::lemma_basic_div;
use vstd::arithmetic::power2::lemma2_to64;
use vstd::arithmetic::power2::pow2;
use vstd::prelude::*;

verus! {

/// An address of either family, as its number in network byte order. The number
/// of an IPv6 address is in two halves.
#[derive(Debug, Clone, Copy, PartialEq, Eq, Structural)]
pub enum IpAddr {
    V4(u32),
    V6 { high: u64, low: u64 },
}

// ---------------------------------------------------------------------------
// Reading addresses

/// The number of a decimal octet: one to three digits without a leading zero.
pub open spec fn octet(s: Seq<char>) -> Option<nat> {
    match digits_number(s) {
        Some(n) => if s.len() <= 3 && (s.len() == 1 || s[0] != '0') && n <= 255 {
            Some(n)
        } else {
            None
        },
        None => None,
    }
}

/// The IPv4 address that a text writes as four octets.
pub open spec fn ipv4_of(s: Seq<char>) -> Option<u32> {
    let parts = split(s, '.');
    if parts.len() != 4 {
        None
    } else {
        match (octet(parts[0]), octet(parts[1]), octet(parts[2]), octet(parts[3])) {
            (Some(a), Some(b), Some(c), Some(d)) => Some(
                (a * 0x1000000 + b * 0x10000 + c * 0x100 + d) as u32,
            ),
            _ => None,
        }
    }
}

/// The value of a hexadecimal digit.
pub open spec fn hex_char_value(c: char) -> Option<nat> {
    if '0' <= c <= '9' {
        Some((c as u32 - '0' as u32) as nat)
    } else if 'a' <= c <= 'f' {
        Some((c as u32 - 'a' as u32 + 10) as nat)
    } else if 'A' <= c <= 'F' {
        Some((c as u32 - 'A' as u32 + 10) as nat)
    } else {
        None
    }
}

/// The number that hexadecimal digits write, where they are all digits.
pub open spec fn hex_text_value(s: Seq<char>) -> Option<nat>
    decreases s.len(),
{
    if s.len() == 0 {
        Some(0)
    } else {
        match (hex_text_value(s.drop_last()), hex_char_value(s.last())) {
            (Some(n), Some(d)) => Some(n * 16 + d),
            _ => None,
        }
    }
}

/// The number of an IPv6 group: one to four hexadecimal digits.
pub open spec fn group(s: Seq<char>) -> Option<nat> {
    if 1 <= s.len() <= 4 {
        hex_text_value(s)
    } else {
        None
    }
}

/// `first` in front of the groups that follow, if they are well formed.
pub open spec fn groups_then(first: Seq<nat>, rest: Option<Seq<nat>>) -> Option<Seq<nat>> {
    match rest {
        Some(more) => Some(first + more),
        None => None,
    }
}

/// The groups that a list of parts writes. Where `dotted` allows it, the last
/// part may be an IPv4 address, which stands for two groups.
pub open spec fn groups(parts: Seq<Seq<char>>, dotted: bool) -> Option<Seq<nat>>
    decreases parts.len(),
{
    if parts.len() == 0 {
        Some(seq![])
    } else if parts.len() == 1 && dotted && ipv4_of(parts[0]) is Some {
        let v = ipv4_of(parts[0])->0;
        Some(seq![(v / 0x10000) as nat, (v % 0x10000) as nat])
    } else {
        match group(parts[0]) {
            Some(g) => groups_then(seq![g], groups(parts.drop_first(), dotted)),
            None => None,
        }
    }
}

/// The groups of a part of an address between colons; an empty part has none.
pub open spec fn groups_of(s: Seq<char>, dotted: bool) -> Option<Seq<nat>> {
    if s.len() == 0 {
        Some(seq![])
    } else {
        groups(split(s, ':'), dotted)
    }
}

/// Where the first `::` stands, or the length where there is none.
pub open spec fn double_colon(s: Seq<char>) -> int
    decreases s.len(),
{
    if s.len() < 2 {
        s.len() as int
    } else if s[0] == ':' && s[1] == ':' {
        0
    } else {
        1 + double_colon(s.drop_first())
    }
}

/// The address that eight groups make.
pub open spec fn ipv6_from(g: Seq<nat>) -> IpAddr {
    IpAddr::V6 {
        high: (g[0] * 0x1000000000000 + g[1] * 0x100000000 + g[2] * 0x10000 + g[3]) as u64,
        low: (g[4] * 0x1000000000000 + g[5] * 0x100000000 + g[6] * 0x10000 + g[7]) as u64,
    }
}

/// The IPv6 address that a text writes: eight groups, of which one run may be
/// left out as `::`.
pub open spec fn ipv6_of(s: Seq<char>) -> Option<IpAddr> {
    let d = double_colon(s);
    if d >= s.len() {
        match groups(split(s, ':'), true) {
            Some(g) => if g.len() == 8 {
                Some(ipv6_from(g))
            } else {
                None
            },
            None => None,
        }
    } else {
        match (groups_of(s.take(d), false), groups_of(s.skip(d + 2), true)) {
            (Some(head), Some(tail)) => if head.len() + tail.len() <= 7 {
                Some(
                    ipv6_from(
                        head + Seq::new(
                            (8 - head.len() - tail.len()) as nat,
                            |i: int| 0nat,
                        ) + tail,
                    ),
                )
            } else {
                None
            },
            _ => None,
        }
    }
}

/// The address that a text writes.
pub open spec fn ip_of(s: Seq<char>) -> Option<IpAddr> {
    match ipv4_of(s) {
        Some(v) => Some(IpAddr::V4(v)),
        None => ipv6_of(s),
    }
}

/// The index of the last `c` in `s`, or -1 where there is none.
pub open spec fn last_position(s: Seq<char>, c: char) -> int
    decreases s.len(),
{
    if s.len() == 0 {
        -1
    } else if s.last() == c {
        s.len() - 1
    } else {
        last_position(s.drop_last(), c)
    }
}

/// The address of a client, tolerating a `[v6]` form and a `host:port` suffix.
pub open spec fn client_ip(s: Seq<char>) -> Option<IpAddr> {
    let inner = s.skip(1).take(position(s.skip(1), ']'));
    let colon = last_position(s, ':');
    if ip_of(s) is Some {
        ip_of(s)
    } else if s.len() > 0 && s[0] == '[' && ipv6_of(inner) is Some {
        ipv6_of(inner)
    } else if colon >= 0 && ipv4_of(s.take(colon)) is Some {
        Some(IpAddr::V4(ipv4_of(s.take(colon))->0))
    } else {
        None
    }
}

fn parse_octet(s: &[char]) -> (r: Option<u32>)
    ensures
        (match r {
            Some(n) => octet(s@) == Some(n as nat) && n <= 255,
            None => octet(s@) is None,
        }),
{
    if s.len() > 3 || (s.len() != 1 && s.len() > 0 && s[0] == '0') {
        return None;
    }
    match parse_digits(s, 255) {
        Some(n) => Some(n as u32),
        None => None,
    }
}

fn parse_ipv4(s: &[char]) -> (r: Option<u32>)
    ensures
        r == ipv4_of(s@),
{
    let parts = split_chars(s, '.');
    assert(views(parts@).len() == parts@.len());
    if parts.len() != 4 {
        return None;
    }
    let (a, b, c, d) = (
        parse_octet(parts[0]),
        parse_octet(parts[1]),
        parse_octet(parts[2]),
        parse_octet(parts[3]),
    );
    match (a, b, c, d) {
        (Some(a), Some(b), Some(c), Some(d)) => Some(
            a * 0x1000000 + b * 0x10000 + c * 0x100 + d,
        ),
        _ => None,
    }
}

fn hex_char(c: char) -> (r: Option<u32>)
    ensures
        (match r {
            Some(n) => hex_char_value(c) == Some(n as nat) && n < 16,
            None => hex_char_value(c) is None,
        }),
{
    if '0' <= c && c <= '9' {
        Some(c as u32 - '0' as u32)
    } else if 'a' <= c && c <= 'f' {
        Some(c as u32 - 'a' as u32 + 10)
    } else if 'A' <= c && c <= 'F' {
        Some(c as u32 - 'A' as u32 + 10)
    } else {
        None
    }
}

proof fn lemma_hex_prefix(s: Seq<char>, n: int)
    requires
        0 <= n <= s.len(),
        hex_text_value(s.take(n)) is None,
    ensures
        hex_text_value(s) is None,
    decreases s.len() - n,
{
    if n < s.len() {
        assert(s.take(n + 1).drop_last() =~= s.take(n));
        lemma_hex_prefix(s, n + 1);
    } else {
        assert(s.take(n) =~= s);
    }
}

fn parse_group(s: &[char]) -> (r: Option<u64>)
    ensures
        (match r {
            Some(n) => group(s@) == Some(n as nat) && n <= 0xffff,
            None => group(s@) is None,
        }),
{
    if s.len() < 1 || s.len() > 4 {
        return None;
    }
    let mut value: u64 = 0;
    let mut bound: u64 = 1;
    let mut i: usize = 0;
    assert(s@.take(0) =~= seq![]);
    while i < s.len()
        invariant
            i <= s@.len() <= 4,
            hex_text_value(s@.take(i as int)) == Some(value as nat),
            value < bound,
            i == 0 ==> bound == 1,
            i == 1 ==> bound == 0x10,
            i == 2 ==> bound == 0x100,
            i == 3 ==> bound == 0x1000,
            i == 4 ==> bound == 0x10000,
        decreases s@.len() - i,
    {
        assert(s@.take(i + 1).drop_last() =~= s@.take(i as int));
        match hex_char(s[i]) {
            Some(d) => {
                value = value * 16 + d as u64;
                bound = bound * 16;
            },
            None => {
                proof {
                    lemma_hex_prefix(s@, i + 1);
                }
                return None;
            },
        }
        i += 1;
    }
    assert(s@.take(i as int) =~= s@);
    Some(value)
}

/// The numbers that a vector of groups holds.
pub open spec fn numbers(v: Seq<u64>) -> Seq<nat> {
    Seq::new(v.len(), |i: int| v[i] as nat)
}

spec fn all_groups(v: Seq<u64>) -> bool {
    forall|i: int| 0 <= i < v.len() ==> (#[trigger] v[i]) <= 0xffff
}

fn parse_group_list(parts: &Vec<&[char]>, dotted: bool) -> (r: Option<Vec<u64>>)
    ensures
        (match r {
            Some(v) => groups(views(parts@), dotted) == Some(numbers(v@)) && all_groups(v@),
            None => groups(views(parts@), dotted) is None,
        }),
{
    let ghost all = views(parts@);
    let mut out: Vec<u64> = Vec::new();
    let mut i: usize = 0;
    assert(all.skip(0) =~= all);
    proof {
        if let Some(g) = groups(all, dotted) {
            assert(numbers(out@) + g =~= g);
        }
    }
    while i < parts.len()
        invariant
            i <= parts@.len(),
            all == views(parts@),
            all_groups(out@),
            groups(all, dotted) == groups_then(
                numbers(out@),
                groups(all.skip(i as int), dotted),
            ),
        decreases parts@.len() - i,
    {
        let ghost rest = all.skip(i as int);
        let ghost done = numbers(out@);
        assert(rest[0] == parts@[i as int]@);
        assert(rest.drop_first() =~= all.skip(i + 1));
        if i + 1 == parts.len() && dotted {
            if let Some(v) = parse_ipv4(parts[i]) {
                let hi: u64 = (v / 0x10000) as u64;
                let lo: u64 = (v % 0x10000) as u64;
                out.push(hi);
                out.push(lo);
                assert(numbers(out@) =~= done + seq![hi as nat, lo as nat]);
                return Some(out);
            }
        }
        match parse_group(parts[i]) {
            Some(g) => {
                out.push(g);
                proof {
                    assert(numbers(out@) =~= done + seq![g as nat]);
                    if let Some(more) = groups(rest.drop_first(), dotted) {
                        assert(done + (seq![g as nat] + more) =~= numbers(out@) + more);
                    }
                }
            },
            None => {
                return None;
            },
        }
        i += 1;
    }
    assert(numbers(out@) + Seq::<nat>::empty() =~= numbers(out@));
    Some(out)
}

fn parse_groups(s: &[char], dotted: bool) -> (r: Option<Vec<u64>>)
    ensures
        (match r {
            Some(v) => groups_of(s@, dotted) == Some(numbers(v@)) && all_groups(v@),
            None => groups_of(s@, dotted) is None,
        }),
{
    if s.len() == 0 {
        let none: Vec<u64> = Vec::new();
        assert(numbers(none@) =~= seq![]);
        return Some(none);
    }
    parse_group_list(&split_chars(s, ':'), dotted)
}

fn find_double_colon(s: &[char]) -> (r: usize)
    ensures
        r == double_colon(s@),
        r <= s@.len(),
        r < s@.len() ==> r + 2 <= s@.len(),
{
    let mut i: usize = 0;
    assert(s@.skip(0) =~= s@);
    while s.len() - i >= 2
        invariant
            i <= s@.len(),
            double_colon(s@) == i + double_colon(s@.skip(i as int)),
        decreases s@.len() - i,
    {
        if s[i] == ':' && s[i + 1] == ':' {
            return i;
        }
        assert(s@.skip(i as int).drop_first() =~= s@.skip(i + 1));
        i += 1;
    }
    s.len()
}

fn ipv6_from_groups(g: &Vec<u64>) -> (r: IpAddr)
    requires
        g@.len() == 8,
        all_groups(g@),
    ensures
        r == ipv6_from(numbers(g@)),
{
    assert(forall|i: int| 0 <= i < 8 ==> (#[trigger] g@[i]) <= 0xffff);
    IpAddr::V6 {
        high: g[0] * 0x1000000000000 + g[1] * 0x100000000 + g[2] * 0x10000 + g[3],
        low: g[4] * 0x1000000000000 + g[5] * 0x100000000 + g[6] * 0x10000 + g[7],
    }
}

fn parse_ipv6(s: &[char]) -> (r: Option<IpAddr>)
    ensures
        r == ipv6_of(s@),
{
    let d = find_double_colon(s);
    if d >= s.len() {
        return match parse_group_list(&split_chars(s, ':'), true) {
            Some(g) => if g.len() == 8 {
                Some(ipv6_from_groups(&g))
            } else {
                None
            },
            None => None,
        };
    }
    let head = match parse_groups(before(s, d), false) {
        Some(g) => g,
        None => {
            return None;
        },
    };
    let tail = match parse_groups(from(s, d + 2), true) {
        Some(g) => g,
        None => {
            return None;
        },
    };
    assert(numbers(head@).len() == head@.len() && numbers(tail@).len() == tail@.len());
    if head.len() > 7 || tail.len() > 7 - head.len() {
        return None;
    }
    let zeros: usize = 8 - head.len() - tail.len();
    let ghost gap = Seq::new(zeros as nat, |i: int| 0nat);
    let mut g: Vec<u64> = Vec::new();
    let mut i: usize = 0;
    while i < 8
        invariant
            i <= 8,
            g@.len() == i,
            zeros == 8 - head@.len() - tail@.len(),
            head@.len() + tail@.len() <= 7,
            all_groups(head@),
            all_groups(tail@),
            all_groups(g@),
            gap == Seq::new(zeros as nat, |i: int| 0nat),
            numbers(g@) == (numbers(head@) + gap + numbers(tail@)).take(i as int),
        decreases 8 - i,
    {
        let next: u64 = if i < head.len() {
            head[i]
        } else if i < head.len() + zeros {
            0
        } else {
            tail[i - head.len() - zeros]
        };
        let ghost so_far = numbers(g@);
        g.push(next);
        assert(numbers(g@) =~= so_far.push(next as nat));
        assert(numbers(g@) =~= (numbers(head@) + gap + numbers(tail@)).take(i + 1));
        i += 1;
    }
    assert(numbers(g@) =~= numbers(head@) + gap + numbers(tail@));
    Some(ipv6_from_groups(&g))
}

/// Read an address of either family.
pub fn parse_address(s: &[char]) -> (r: Option<IpAddr>)
    ensures
        r == ip_of(s@),
{
    match parse_ipv4(s) {
        Some(v) => Some(IpAddr::V4(v)),
        None => parse_ipv6(s),
    }
}

fn find_last(s: &[char], c: char) -> (r: Option<usize>)
    ensures
        (match r {
            Some(p) => last_position(s@, c) == p && p < s@.len(),
            None => last_position(s@, c) == -1,
        }),
{
    let mut n: usize = s.len();
    assert(s@.take(n as int) =~= s@);
    while n > 0
        invariant
            n <= s@.len(),
            last_position(s@, c) == last_position(s@.take(n as int), c),
        decreases n,
    {
        assert(s@.take(n as int).last() == s@[n - 1]);
        if s[n - 1] == c {
            return Some(n - 1);
        }
        assert(s@.take(n as int).drop_last() =~= s@.take(n - 1));
        n -= 1;
    }
    None
}

/// Parse an address, tolerating a `[v6]` form and a `host:port` suffix, since
/// `REMOTE_ADDR` is not always a bare address.
pub fn parse_ip(s: &[char]) -> (r: Option<IpAddr>)
    ensures
        r == client_ip(s@),
{
    if let Some(ip) = parse_address(s) {
        return Some(ip);
    }
    if s.len() > 0 && s[0] == '[' {
        let tail = from(s, 1);
        let inner = before(tail, find_char(tail, ']'));
        if let Some(ip) = parse_ipv6(inner) {
            return Some(ip);
        }
    }
    if let Some(colon) = find_last(s, ':') {
        if let Some(v) = parse_ipv4(before(s, colon)) {
            return Some(IpAddr::V4(v));
        }
    }
    None
}

// ---------------------------------------------------------------------------
// Writing addresses

/// An IPv4 address in dotted form.
pub open spec fn ipv4_text(v: u32) -> Seq<char> {
    decimal((v / 0x1000000) as nat) + "."@ + decimal((v / 0x10000 % 0x100) as nat) + "."@ + decimal(
        (v / 0x100 % 0x100) as nat,
    ) + "."@ + decimal((v % 0x100) as nat)
}

/// The digit that writes a number below sixteen.
pub open spec fn hex_char_of(n: nat) -> char {
    if n < 10 {
        ('0' as u32 + n) as char
    } else {
        ('a' as u32 + n - 10) as char
    }
}

/// A number in lowercase hexadecimal.
pub open spec fn hex_text(n: nat) -> Seq<char>
    decreases n,
{
    if n < 16 {
        seq![hex_char_of(n)]
    } else {
        hex_text(n / 16).push(hex_char_of(n % 16))
    }
}

/// The groups of an address.
pub open spec fn segments(high: u64, low: u64) -> Seq<nat> {
    seq![
        (high / 0x1000000000000) as nat,
        (high / 0x100000000 % 0x10000) as nat,
        (high / 0x10000 % 0x10000) as nat,
        (high % 0x10000) as nat,
        (low / 0x1000000000000) as nat,
        (low / 0x100000000 % 0x10000) as nat,
        (low / 0x10000 % 0x10000) as nat,
        (low % 0x10000) as nat,
    ]
}

/// The IPv4 address that an IPv6 address maps, where it maps one.
pub open spec fn mapped_ipv4(high: u64, low: u64) -> Option<u32> {
    if high == 0 && low / 0x100000000 == 0xffff {
        Some((low % 0x100000000) as u32)
    } else {
        None
    }
}

/// How many zeros stand in `g` from `i` on.
pub open spec fn zeros_at(g: Seq<nat>, i: int) -> nat
    decreases g.len() - i,
{
    if 0 <= i < g.len() && g[i] == 0 {
        1 + zeros_at(g, i + 1)
    } else {
        0
    }
}

/// The start of the longest run of zeros in `g` from `i` on, the first of equal
/// ones.
pub open spec fn longest_zeros(g: Seq<nat>, i: int) -> int
    decreases g.len() - i,
{
    if i + 1 >= g.len() {
        i
    } else {
        let later = longest_zeros(g, i + 1);
        if zeros_at(g, i) >= zeros_at(g, later) {
            i
        } else {
            later
        }
    }
}

/// Groups in hexadecimal with colons between them.
pub open spec fn colon_text(g: Seq<nat>) -> Seq<char>
    decreases g.len(),
{
    if g.len() == 0 {
        seq![]
    } else if g.len() == 1 {
        hex_text(g[0])
    } else {
        colon_text(g.drop_last()) + ":"@ + hex_text(g.last())
    }
}

/// An IPv6 address in its shortest form: the longest run of two or more zero
/// groups is written `::`, and a mapped IPv4 address is dotted.
pub open spec fn ipv6_text(high: u64, low: u64) -> Seq<char> {
    let g = segments(high, low);
    let start = longest_zeros(g, 0);
    let len = zeros_at(g, start);
    match mapped_ipv4(high, low) {
        Some(v) => "::ffff:"@ + ipv4_text(v),
        None => if len > 1 {
            colon_text(g.take(start)) + "::"@ + colon_text(g.skip(start + len))
        } else {
            colon_text(g)
        },
    }
}

/// The text of an address.
pub open spec fn ip_text(ip: IpAddr) -> Seq<char> {
    match ip {
        IpAddr::V4(v) => ipv4_text(v),
        IpAddr::V6 { high, low } => ipv6_text(high, low),
    }
}

fn write_ipv4(v: u32) -> (r: String)
    ensures
        r@ == ipv4_text(v),
{
    let mut out = write_decimal((v / 0x1000000) as u64);
    out.append(".");
    out.append(write_decimal((v / 0x10000 % 0x100) as u64).as_str());
    out.append(".");
    out.append(write_decimal((v / 0x100 % 0x100) as u64).as_str());
    out.append(".");
    out.append(write_decimal((v % 0x100) as u64).as_str());
    out
}

fn write_hex(n: u64) -> (r: String)
    ensures
        r@ == hex_text(n as nat),
    decreases n,
{
    let d: u8 = (n % 16) as u8;
    let c: char = if d < 10 {
        ('0' as u8 + d) as char
    } else {
        ('a' as u8 + (d - 10)) as char
    };
    if n < 16 {
        let mut out = String::new();
        out.push(c);
        assert(out@ =~= seq![hex_char_of(n as nat)]);
        out
    } else {
        let mut out = write_hex(n / 16);
        out.push(c);
        out
    }
}

fn write_groups(g: &Vec<u64>, lo: usize, hi: usize) -> (r: String)
    requires
        lo <= hi <= g@.len(),
    ensures
        r@ == colon_text(numbers(g@).subrange(lo as int, hi as int)),
    decreases hi - lo,
{
    let ghost all = numbers(g@).subrange(lo as int, hi as int);
    if lo == hi {
        let out = String::new();
        assert(out@ =~= seq![]);
        out
    } else if hi - lo == 1 {
        write_hex(g[lo])
    } else {
        assert(all.drop_last() =~= numbers(g@).subrange(lo as int, hi - 1));
        assert(all.last() == g@[hi - 1]);
        let front = write_groups(g, lo, hi - 1);
        joined3(front.as_str(), ":", write_hex(g[hi - 1]).as_str())
    }
}

fn count_zeros(g: &Vec<u64>, i: usize) -> (r: usize)
    requires
        i <= g@.len(),
    ensures
        r == zeros_at(numbers(g@), i as int),
        i + r <= g@.len(),
    decreases g@.len() - i,
{
    if i < g.len() && g[i] == 0 {
        1 + count_zeros(g, i + 1)
    } else {
        0
    }
}

fn find_zeros(g: &Vec<u64>, i: usize) -> (r: usize)
    requires
        i < g@.len(),
    ensures
        r == longest_zeros(numbers(g@), i as int),
        i <= r < g@.len(),
    decreases g@.len() - i,
{
    if g.len() - i <= 1 {
        i
    } else {
        let later = find_zeros(g, i + 1);
        if count_zeros(g, i) >= count_zeros(g, later) {
            i
        } else {
            later
        }
    }
}

fn write_ipv6(high: u64, low: u64) -> (r: String)
    ensures
        r@ == ipv6_text(high, low),
{
    if high == 0 && low / 0x100000000 == 0xffff {
        let mut out = "::ffff:".to_string();
        out.append(write_ipv4((low % 0x100000000) as u32).as_str());
        return out;
    }
    let mut g: Vec<u64> = Vec::new();
    g.push(high / 0x1000000000000);
    g.push(high / 0x100000000 % 0x10000);
    g.push(high / 0x10000 % 0x10000);
    g.push(high % 0x10000);
    g.push(low / 0x1000000000000);
    g.push(low / 0x100000000 % 0x10000);
    g.push(low / 0x10000 % 0x10000);
    g.push(low % 0x10000);
    let ghost all = numbers(g@);
    assert(all =~= segments(high, low));
    let start = find_zeros(&g, 0);
    let len = count_zeros(&g, start);
    if len > 1 {
        let head = write_groups(&g, 0, start);
        let tail = write_groups(&g, start + len, 8);
        assert(all.subrange(0, start as int) =~= all.take(start as int));
        assert(all.subrange(start + len, 8) =~= all.skip(start + len));
        joined3(head.as_str(), "::", tail.as_str())
    } else {
        assert(all.subrange(0, 8) =~= all);
        write_groups(&g, 0, 8)
    }
}

/// Write an address.
pub fn write_address(ip: IpAddr) -> (r: String)
    ensures
        r@ == ip_text(ip),
{
    match ip {
        IpAddr::V4(v) => write_ipv4(v),
        IpAddr::V6 { high, low } => write_ipv6(high, low),
    }
}

// ---------------------------------------------------------------------------
// Ranges

/// One entry of an `@ipMatch` list.
#[derive(Debug, Clone, Copy, PartialEq, Eq)]
pub struct IpRange {
    address: IpAddr,
    prefix: u8,
}

impl View for IpRange {
    type V = (IpAddr, u8);

    /// The network address, and how many of its bits count.
    closed spec fn view(&self) -> (IpAddr, u8) {
        (self.address, self.prefix)
    }
}

impl DeepView for IpRange {
    type V = (IpAddr, u8);

    open spec fn deep_view(&self) -> (IpAddr, u8) {
        self@
    }
}

/// How many bits the addresses of a family have.
pub open spec fn width(ip: IpAddr) -> u8 {
    match ip {
        IpAddr::V4(_) => 32,
        IpAddr::V6 { .. } => 128,
    }
}

/// What an entry of an `@ipMatch` list means, or what is wrong with it.
pub open spec fn range_of(text: Seq<char>) -> Result<(IpAddr, u8), Seq<char>> {
    let s = trimmed(text);
    let p = position(s, '/');
    let address_text = if p < s.len() {
        s.take(p)
    } else {
        s
    };
    let prefix_text = s.skip(p + 1);
    match ip_of(address_text) {
        None => Err(debug_text(address_text) + " is not an IP address"@),
        Some(address) => if p >= s.len() {
            Ok((address, width(address)))
        } else {
            match unsigned_number(trimmed(prefix_text)) {
                Some(n) => if n > 255 {
                    Err(debug_text(prefix_text) + " is not a prefix length"@)
                } else if n > width(address) {
                    Err(
                        "prefix /"@ + decimal(n) + " is too long for "@ + ip_text(address),
                    )
                } else {
                    Ok((address, n as u8))
                },
                None => Err(debug_text(prefix_text) + " is not a prefix length"@),
            }
        },
    }
}

/// Whether two 32-bit numbers agree in their first `prefix` bits.
pub open spec fn same_prefix_32(a: u32, b: u32, prefix: int) -> bool {
    a as nat / pow2((32 - prefix) as nat) == b as nat / pow2((32 - prefix) as nat)
}

/// Whether two 64-bit numbers agree in their first `prefix` bits.
pub open spec fn same_prefix_64(a: u64, b: u64, prefix: int) -> bool {
    a as nat / pow2((64 - prefix) as nat) == b as nat / pow2((64 - prefix) as nat)
}

/// Whether a range holds an address. An IPv4 address mapped into IPv6 is
/// compared as IPv4, so a rule written for one family still matches a client
/// presented as the other.
pub open spec fn in_range(range: (IpAddr, u8), candidate: IpAddr) -> bool {
    match (range.0, candidate) {
        (IpAddr::V4(net), IpAddr::V4(ip)) => same_prefix_32(net, ip, range.1 as int),
        (IpAddr::V6 { high, low }, IpAddr::V6 { high: h, low: l }) => if range.1 <= 64 {
            same_prefix_64(high, h, range.1 as int)
        } else {
            high == h && same_prefix_64(low, l, range.1 - 64)
        },
        (IpAddr::V4(net), IpAddr::V6 { high, low }) => match mapped_ipv4(high, low) {
            Some(ip) => same_prefix_32(net, ip, range.1 as int),
            None => false,
        },
        (IpAddr::V6 { high, low }, IpAddr::V4(ip)) => match mapped_ipv4(high, low) {
            Some(net) => same_prefix_32(
                net,
                ip,
                if range.1 <= 96 {
                    0
                } else {
                    range.1 - 96
                },
            ),
            None => false,
        },
    }
}

/// Whether a range's prefix fits its address.
pub open spec fn is_range(range: (IpAddr, u8)) -> bool {
    range.1 <= width(range.0)
}

fn prefix_eq_32(a: u32, b: u32, prefix: u8) -> (r: bool)
    requires
        prefix <= 32,
    ensures
        r == same_prefix_32(a, b, prefix as int),
{
    if prefix == 0 {
        proof {
            lemma2_to64();
            lemma_basic_div(a as int, pow2(32) as int);
            lemma_basic_div(b as int, pow2(32) as int);
        }
        return true;
    }
    let shift: u32 = 32 - prefix as u32;
    proof {
        vstd::bits::lemma_u32_shr_is_div(a, shift);
        vstd::bits::lemma_u32_shr_is_div(b, shift);
    }
    (a >> shift) == (b >> shift)
}

fn prefix_eq_64(a: u64, b: u64, prefix: u8) -> (r: bool)
    requires
        prefix <= 64,
    ensures
        r == same_prefix_64(a, b, prefix as int),
{
    if prefix == 0 {
        proof {
            lemma2_to64();
            lemma_basic_div(a as int, pow2(64) as int);
            lemma_basic_div(b as int, pow2(64) as int);
        }
        return true;
    }
    let shift: u64 = 64 - prefix as u64;
    proof {
        vstd::bits::lemma_u64_shr_is_div(a, shift);
        vstd::bits::lemma_u64_shr_is_div(b, shift);
    }
    (a >> shift) == (b >> shift)
}

fn to_ipv4_mapped(high: u64, low: u64) -> (r: Option<u32>)
    ensures
        r == mapped_ipv4(high, low),
{
    if high == 0 && low / 0x100000000 == 0xffff {
        Some((low % 0x100000000) as u32)
    } else {
        None
    }
}

impl IpRange {
    #[verifier::type_invariant]
    spec fn prefix_fits(self) -> bool {
        self.prefix <= width(self.address)
    }

    pub fn parse(text: &[char]) -> (r: Result<Self, String>)
        ensures
            (match r {
                Ok(range) => range_of(text@) == Ok::<(IpAddr, u8), Seq<char>>(range@),
                Err(e) => range_of(text@) == Err::<(IpAddr, u8), Seq<char>>(e@),
            }),
    {
        let s = trim(text);
        let p = find_char(s, '/');
        let address_text = if p < s.len() {
            before(s, p)
        } else {
            s
        };
        let address = match parse_address(address_text) {
            Some(a) => a,
            None => {
                return Err(
                    quoted_then(string_of(address_text).as_str(), " is not an IP address"),
                );
            },
        };
        let max: u8 = match address {
            IpAddr::V4(_) => 32,
            IpAddr::V6 { .. } => 128,
        };
        if p >= s.len() {
            return Ok(IpRange { address, prefix: max });
        }
        let prefix_text = from(s, p + 1);
        let prefix: u8 = match parse_unsigned(trim(prefix_text), 255) {
            Some(n) => n as u8,
            None => {
                return Err(
                    quoted_then(string_of(prefix_text).as_str(), " is not a prefix length"),
                );
            },
        };
        if prefix > max {
            let mut message = joined3(
                "prefix /",
                write_decimal(prefix as u64).as_str(),
                " is too long for ",
            );
            message.append(write_address(address).as_str());
            return Err(message);
        }
        Ok(IpRange { address, prefix })
    }

    pub fn contains(&self, candidate: IpAddr) -> (r: bool)
        ensures
            r == in_range(self@, candidate),
    {
        proof {
            use_type_invariant(self);
        }
        match (self.address, candidate) {
            (IpAddr::V4(net), IpAddr::V4(ip)) => prefix_eq_32(net, ip, self.prefix),
            (IpAddr::V6 { high, low }, IpAddr::V6 { high: h, low: l }) => if self.prefix <= 64 {
                prefix_eq_64(high, h, self.prefix)
            } else {
                high == h && prefix_eq_64(low, l, self.prefix - 64)
            },
            (IpAddr::V4(net), IpAddr::V6 { high, low }) => match to_ipv4_mapped(high, low) {
                Some(ip) => prefix_eq_32(net, ip, self.prefix),
                None => false,
            },
            (IpAddr::V6 { high, low }, IpAddr::V4(ip)) => match to_ipv4_mapped(high, low) {
                Some(net) => prefix_eq_32(
                    net,
                    ip,
                    if self.prefix <= 96 {
                        0
                    } else {
                        self.prefix - 96
                    },
                ),
                None => false,
            },
        }
    }
}

// ---------------------------------------------------------------------------
// Laws

/// A range that can be written has a prefix that fits its address.
pub proof fn ranges_fit(text: Seq<char>)
    ensures
        range_of(text) matches Ok(range) ==> is_range(range),
{
}

/// A range holds its own address.
pub proof fn range_holds_its_address(range: (IpAddr, u8))
    ensures
        in_range(range, range.0),
{
}

/// A prefix of no bits holds every address of its family.
pub proof fn empty_prefix_holds_the_family(net: IpAddr, candidate: IpAddr)
    requires
        width(net) == width(candidate),
    ensures
        in_range((net, 0), candidate),
{
    lemma2_to64();
    match (net, candidate) {
        (IpAddr::V4(a), IpAddr::V4(b)) => {
            lemma_basic_div(a as int, pow2(32) as int);
            lemma_basic_div(b as int, pow2(32) as int);
        },
        (IpAddr::V6 { high: a, .. }, IpAddr::V6 { high: b, .. }) => {
            lemma_basic_div(a as int, pow2(64) as int);
            lemma_basic_div(b as int, pow2(64) as int);
        },
        _ => {},
    }
}

/// A client with an IPv4 address is judged the same whether it is presented as
/// IPv4 or mapped into IPv6.
pub proof fn mapped_client_is_judged_as_ipv4(net: u32, prefix: u8, ip: u32)
    ensures
        in_range((IpAddr::V4(net), prefix), IpAddr::V4(ip)) == in_range(
            (IpAddr::V4(net), prefix),
            IpAddr::V6 { high: 0, low: (0xffff * 0x100000000 + ip) as u64 },
        ),
{
}

} // verus!
