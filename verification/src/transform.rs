//! Transformations applied to a target before an operator sees it.
//!
//! These matter more than their size suggests. A rule that inspects raw input
//! is trivially evaded by encoding the payload, so the Core Rule Set stacks
//! decoders (`t:urlDecodeUni,t:htmlEntityDecode,t:jsDecode`) ahead of nearly
//! every operator. A decoder that is too conservative leaves a bypass; one that
//! is too eager creates false positives on legitimate traffic.
//!
//! Everything here works on bytes, not `str`. Input is attacker-controlled and
//! frequently not valid UTF-8, and several of these transformations exist
//! precisely to normalise malformed encodings.
//!
//! A decoder is specified by the token at the front of its input: which bytes
//! it stands for, and how many bytes of input it covers.

use crate::action::Transformation;
use crate::bytes::bytes_from;
use crate::bytes::bytes_of;
use crate::bytes::is_ascii_space;
use crate::bytes::is_space;
use crate::bytes::lower_byte;
use crate::bytes::lower_bytes;
use crate::bytes::same_bytes;
use crate::bytes::to_lower_byte;
use crate::bytes::to_lower_bytes;
use crate::decode::base64_decode;
use crate::decode::base64_decoded;
use crate::decode::css_decode;
use crate::decode::css_decoded;
use crate::decode::escape_seq_decode;
use crate::decode::escapes_decoded;
use crate::decode::has_hex_pair;
use crate::decode::hex_pair;
use crate::decode::html_decoded;
use crate::decode::html_entity_decode;
use crate::decode::js_decode;
use crate::decode::js_decoded;
use crate::decode::unicode_escaped;
use crate::decode::url_decode_uni;
use crate::decode::url_decoded;
use crate::decode::utf8_to_unicode;
use crate::digits::hex_digit;
use crate::digits::hex_digit_of;
use crate::path::normalize_path;
use crate::path::normalized_path;
use crate::text::decimal;
use crate::text::write_decimal;
use sha1::Digest;
use std::borrow::Cow;
use vstd::prelude::*;
use vstd::slice::slice_to_vec;
use vstd::utf8::encode_utf8;

verus! {

// ---------------------------------------------------------------------------
// Length, case, removal, hexadecimal

fn lowercase(input: &[u8]) -> (r: Cow<'_, [u8]>)
    ensures
        r@ == lower_bytes(input@),
        r is Borrowed <==> lower_bytes(input@) == input@,
{
    let mut i: usize = 0;
    while i < input.len()
        invariant
            i <= input@.len(),
            forall|j: int| 0 <= j < i ==> lower_byte(input@[j]) == input@[j],
        decreases input@.len() - i,
    {
        if 'A' as u8 <= input[i] && input[i] <= 'Z' as u8 {
            assert(lower_bytes(input@)[i as int] != input@[i as int]);
            return Cow::Owned(to_lower_bytes(input));
        }
        i += 1;
    }
    assert(lower_bytes(input@) =~= input@);
    Cow::Borrowed(input)
}

/// The bytes of `s` other than NUL.
pub open spec fn without_nulls(s: Seq<u8>) -> Seq<u8> {
    s.filter(|b: u8| b != 0)
}

/// The bytes of `s` other than ASCII white space.
pub open spec fn without_space(s: Seq<u8>) -> Seq<u8> {
    s.filter(|b: u8| !is_space(b))
}

proof fn lemma_filter_keeps_all(s: Seq<u8>, keep: spec_fn(u8) -> bool)
    requires
        forall|j: int| 0 <= j < s.len() ==> keep(#[trigger] s[j]),
    ensures
        s.filter(keep) == s,
    decreases s.len(),
{
    reveal(Seq::filter);
    if s.len() > 0 {
        lemma_filter_keeps_all(s.drop_last(), keep);
        assert(keep(s.last()));
        assert(s.drop_last().push(s.last()) =~= s);
    }
}

fn remove_nulls(input: &[u8]) -> (r: Cow<'_, [u8]>)
    ensures
        r@ == without_nulls(input@),
        r is Borrowed <==> without_nulls(input@) == input@,
{
    let ghost keep = |b: u8| b != 0;
    let mut out: Vec<u8> = Vec::new();
    let mut i: usize = 0;
    proof {
        reveal(Seq::filter);
    }
    while i < input.len()
        invariant
            i <= input@.len(),
            keep == (|b: u8| b != 0),
            out@ == input@.take(i as int).filter(keep),
            out@.len() <= i,
            out@.len() == i ==> forall|j: int| 0 <= j < i ==> keep(#[trigger] input@[j]),
        decreases input@.len() - i,
    {
        proof {
            reveal(Seq::filter);
            assert(input@.take(i + 1).drop_last() =~= input@.take(i as int));
        }
        if input[i] != 0 {
            out.push(input[i]);
        }
        i += 1;
    }
    assert(input@.take(i as int) =~= input@);
    if out.len() == input.len() {
        proof {
            lemma_filter_keeps_all(input@, keep);
        }
        Cow::Borrowed(input)
    } else {
        Cow::Owned(out)
    }
}

fn remove_whitespace(input: &[u8]) -> (r: Cow<'_, [u8]>)
    ensures
        r@ == without_space(input@),
        r is Borrowed <==> without_space(input@) == input@,
{
    let ghost keep = |b: u8| !is_space(b);
    let mut out: Vec<u8> = Vec::new();
    let mut i: usize = 0;
    proof {
        reveal(Seq::filter);
    }
    while i < input.len()
        invariant
            i <= input@.len(),
            keep == (|b: u8| !is_space(b)),
            out@ == input@.take(i as int).filter(keep),
            out@.len() <= i,
            out@.len() == i ==> forall|j: int| 0 <= j < i ==> keep(#[trigger] input@[j]),
        decreases input@.len() - i,
    {
        proof {
            reveal(Seq::filter);
            assert(input@.take(i + 1).drop_last() =~= input@.take(i as int));
        }
        if !is_ascii_space(input[i]) {
            out.push(input[i]);
        }
        i += 1;
    }
    assert(input@.take(i as int) =~= input@);
    if out.len() == input.len() {
        proof {
            lemma_filter_keeps_all(input@, keep);
        }
        Cow::Borrowed(input)
    } else {
        Cow::Owned(out)
    }
}

/// Each byte as two lowercase hexadecimal digits.
pub open spec fn hex_encoded(s: Seq<u8>) -> Seq<u8> {
    Seq::new(
        2 * s.len(),
        |i: int|
            if i % 2 == 0 {
                hex_digit((s[i / 2] / 16) as nat)
            } else {
                hex_digit((s[i / 2] % 16) as nat)
            },
    )
}

pub fn hex_encode(input: &[u8]) -> (r: Vec<u8>)
    ensures
        r@ == hex_encoded(input@),
{
    let mut out: Vec<u8> = Vec::new();
    let mut i: usize = 0;
    while i < input.len()
        invariant
            i <= input@.len(),
            out@ == hex_encoded(input@).take(2 * i),
        decreases input@.len() - i,
    {
        let b = input[i];
        out.push(hex_digit_of(b / 16));
        out.push(hex_digit_of(b % 16));
        assert(out@ =~= hex_encoded(input@).take(2 * (i + 1)));
        i += 1;
    }
    assert(hex_encoded(input@).take(2 * input@.len() as int) =~= hex_encoded(input@));
    out
}

// ---------------------------------------------------------------------------
// White space and shell normalisation

/// `s` with each run of white space folded to one space; `in_space` says that
/// the run before `s` has been written already.
pub open spec fn compressed(s: Seq<u8>, in_space: bool) -> Seq<u8>
    decreases s.len(),
{
    if s.len() == 0 {
        seq![]
    } else if is_space(s[0]) {
        if in_space {
            compressed(s.drop_first(), true)
        } else {
            seq![' ' as u8] + compressed(s.drop_first(), true)
        }
    } else {
        seq![s[0]] + compressed(s.drop_first(), false)
    }
}

proof fn lemma_compressed_len(s: Seq<u8>, in_space: bool)
    ensures
        compressed(s, in_space).len() <= s.len(),
    decreases s.len(),
{
    if s.len() > 0 {
        lemma_compressed_len(s.drop_first(), true);
        lemma_compressed_len(s.drop_first(), false);
    }
}

/// Whether `s` is folded already: no other white space than the space, and
/// never two of it.
spec fn is_compressed(s: Seq<u8>, in_space: bool) -> bool
    decreases s.len(),
{
    if s.len() == 0 {
        true
    } else if is_space(s[0]) {
        !in_space && s[0] == ' ' as u8 && is_compressed(s.drop_first(), true)
    } else {
        is_compressed(s.drop_first(), false)
    }
}

proof fn lemma_is_compressed(s: Seq<u8>, in_space: bool)
    ensures
        is_compressed(s, in_space) <==> compressed(s, in_space) == s,
    decreases s.len(),
{
    if s.len() > 0 {
        let rest = s.drop_first();
        lemma_is_compressed(rest, true);
        lemma_is_compressed(rest, false);
        lemma_compressed_len(rest, true);
        assert(s =~= seq![s[0]] + rest);
        if is_space(s[0]) {
            if !in_space {
                let c = compressed(rest, true);
                let folded_run = seq![' ' as u8] + c;
                assert(folded_run.drop_first() =~= c);
                assert(folded_run[0] == ' ' as u8);
                assert(folded_run == s ==> c == rest && s[0] == ' ' as u8);
            }
        } else {
            let c = compressed(rest, false);
            let kept = seq![s[0]] + c;
            assert(kept.drop_first() =~= c);
            assert(kept == s ==> c == rest);
        }
    } else {
        assert(s =~= seq![]);
    }
}

/// Fold whitespace runs to a single space.
fn compress_whitespace(input: &[u8]) -> (r: Cow<'_, [u8]>)
    ensures
        r@ == compressed(input@, false),
        r is Borrowed <==> compressed(input@, false) == input@,
{
    let mut i: usize = 0;
    let mut in_space = false;
    assert(input@.skip(0) =~= input@);
    while i < input.len()
        invariant_except_break
            i <= input@.len(),
            is_compressed(input@, false) == is_compressed(input@.skip(i as int), in_space),
        ensures
            i <= input@.len(),
            is_compressed(input@, false) == (i == input@.len()),
        decreases input@.len() - i,
    {
        let ghost rest = input@.skip(i as int);
        assert(rest.drop_first() =~= input@.skip(i + 1));
        if is_ascii_space(input[i]) {
            if in_space || input[i] != ' ' as u8 {
                break ;
            }
            in_space = true;
        } else {
            in_space = false;
        }
        i += 1;
    }
    proof {
        lemma_is_compressed(input@, false);
    }
    if i == input.len() {
        return Cow::Borrowed(input);
    }
    let mut out: Vec<u8> = Vec::new();
    let mut k: usize = 0;
    let mut spaced = false;
    assert(input@.skip(0) =~= input@);
    assert(out@ + compressed(input@, false) =~= compressed(input@, false));
    while k < input.len()
        invariant
            k <= input@.len(),
            out@ + compressed(input@.skip(k as int), spaced) == compressed(input@, false),
        decreases input@.len() - k,
    {
        let ghost rest = input@.skip(k as int);
        let ghost start = out@;
        assert(rest.drop_first() =~= input@.skip(k + 1));
        let b = input[k];
        if is_ascii_space(b) {
            if !spaced {
                out.push(' ' as u8);
                spaced = true;
                assert(start + (seq![' ' as u8] + compressed(rest.drop_first(), true)) =~= out@
                    + compressed(rest.drop_first(), true));
            }
        } else {
            out.push(b);
            spaced = false;
            assert(start + (seq![b] + compressed(rest.drop_first(), false)) =~= out@ + compressed(
                rest.drop_first(),
                false,
            ));
        }
        k += 1;
    }
    assert(out@ + Seq::<u8>::empty() =~= out@);
    Cow::Owned(out)
}

/// Whether a shell ignores a byte.
pub open spec fn is_shell_noise(b: u8) -> bool {
    b == '"' as u8 || b == '\'' as u8 || b == '\\' as u8 || b == '^' as u8
}

/// Whether a byte is white space to a shell.
pub open spec fn is_shell_blank(b: u8) -> bool {
    b == ' ' as u8 || b == '\t' as u8 || b == '\r' as u8 || b == '\n' as u8
}

/// Whether a command may be written against a byte, without a space before it.
pub open spec fn closes_up(b: u8) -> bool {
    b == '/' as u8 || b == '(' as u8
}

/// `s` without the white space before a slash or an opening parenthesis.
pub open spec fn closed_up(s: Seq<u8>) -> Seq<u8>
    decreases s.len(),
{
    if s.len() == 0 {
        seq![]
    } else {
        let rest = closed_up(s.drop_first());
        if is_shell_blank(s[0]) && rest.len() > 0 && closes_up(rest[0]) {
            rest
        } else {
            seq![s[0]] + rest
        }
    }
}

/// A space in place of a comma or a semicolon.
pub open spec fn spaced(b: u8) -> u8 {
    if b == ',' as u8 || b == ';' as u8 {
        ' ' as u8
    } else {
        b
    }
}

/// `s` with each run of white space collapsed to one space.
pub open spec fn collapsed(s: Seq<u8>) -> Seq<u8>
    decreases s.len(),
{
    if s.len() == 0 {
        seq![]
    } else {
        let rest = collapsed(s.drop_first());
        if !is_shell_blank(s[0]) {
            seq![s[0]] + rest
        } else if s.len() > 1 && is_shell_blank(s[1]) {
            rest
        } else {
            seq![' ' as u8] + rest
        }
    }
}

/// What is left of `s` once the bytes that a shell ignores are deleted, in the
/// documented order: delete white space before `/` or `(`; replace commas and
/// semicolons with a space; collapse runs of white space to one space; lowercase.
pub open spec fn shell_respelled(s: Seq<u8>) -> Seq<u8> {
    collapsed(closed_up(s).map_values(|b: u8| spaced(b))).map_values(|b: u8| lower_byte(b))
}

/// `s` with shell obfuscation normalised.
pub open spec fn shell_normal(s: Seq<u8>) -> Seq<u8> {
    shell_respelled(s.filter(|b: u8| !is_shell_noise(b)))
}

pub proof fn lemma_mapped_front(b: u8, s: Seq<u8>)
    ensures
        (seq![b] + s).map_values(|b: u8| spaced(b)) == seq![spaced(b)] + s.map_values(
            |b: u8| spaced(b),
        ),
        (seq![b] + s).map_values(|b: u8| lower_byte(b)) == seq![lower_byte(b)] + s.map_values(
            |b: u8| lower_byte(b),
        ),
{
    let all = seq![b] + s;
    assert(all.map_values(|b: u8| spaced(b)) =~= seq![spaced(b)] + s.map_values(
        |b: u8| spaced(b),
    ));
    assert(all.map_values(|b: u8| lower_byte(b)) =~= seq![lower_byte(b)] + s.map_values(
        |b: u8| lower_byte(b),
    ));
}

/// What a run of white space, commas and semicolons is replaced with: a run of
/// white space alone goes where the command closes up.
spec fn run_spelled(marked: bool, next: Option<u8>) -> Seq<u8> {
    if !marked && next is Some && closes_up(next->0) {
        seq![]
    } else {
        seq![' ' as u8]
    }
}

/// The first byte in front of which white space may stand.
pub proof fn lemma_closed_up_front(b: u8, s: Seq<u8>)
    ensures
        closed_up(seq![b] + s) == if is_shell_blank(b) && closed_up(s).len() > 0 && closes_up(
            closed_up(s)[0],
        ) {
            closed_up(s)
        } else {
            seq![b] + closed_up(s)
        },
{
    assert((seq![b] + s).drop_first() =~= s);
}

pub proof fn lemma_collapsed_front(b: u8, s: Seq<u8>)
    ensures
        collapsed(seq![b] + s) == if !is_shell_blank(b) {
            seq![b] + collapsed(s)
        } else if s.len() > 0 && is_shell_blank(s[0]) {
            collapsed(s)
        } else {
            seq![' ' as u8] + collapsed(s)
        },
{
    assert((seq![b] + s).drop_first() =~= s);
    if s.len() > 0 {
        assert((seq![b] + s)[1] == s[0]);
    }
}

/// A byte that is neither white space nor replaced by it is lowercased.
pub proof fn lemma_respelled_plain(b: u8, s: Seq<u8>)
    requires
        !is_shell_blank(b),
        spaced(b) == b,
    ensures
        shell_respelled(seq![b] + s) == seq![lower_byte(b)] + shell_respelled(s),
        closed_up(seq![b] + s)[0] == b,
{
    lemma_closed_up_front(b, s);
    let c = closed_up(s);
    lemma_mapped_front(b, c);
    let m = c.map_values(|b: u8| spaced(b));
    lemma_collapsed_front(b, m);
    lemma_mapped_front(b, collapsed(m));
}

/// White space goes where the command closes up behind it, and is one space
/// otherwise.
proof fn lemma_respelled_blank(b: u8, s: Seq<u8>)
    requires
        is_shell_blank(b) || spaced(b) != b,
    ensures
        s.len() == 0 ==> shell_respelled(seq![b] + s) == seq![' ' as u8],
        s.len() > 0 && (is_shell_blank(s[0]) || spaced(s[0]) != s[0]) ==> shell_respelled(
            seq![b] + s,
        ) == shell_respelled(
            if is_shell_blank(s[0]) {
                seq![b] + s.drop_first()
            } else {
                s
            },
        ),
        s.len() > 0 && !is_shell_blank(s[0]) && spaced(s[0]) == s[0] ==> shell_respelled(
            seq![b] + s,
        ) == run_spelled(spaced(b) != b, Some(s[0])) + shell_respelled(s),
{
    let lowered = |b: u8| lower_byte(b);
    let c = closed_up(s);
    let m = c.map_values(|b: u8| spaced(b));
    let both = seq![b] + s;
    lemma_closed_up_front(b, s);
    lemma_mapped_front(b, c);
    lemma_collapsed_front(spaced(b), m);
    if s.len() == 0 {
        assert(m =~= seq![]);
        assert(collapsed(m) =~= seq![]);
        assert(shell_respelled(both) =~= seq![' ' as u8]);
    } else if is_shell_blank(s[0]) || spaced(s[0]) != s[0] {
        let rest = s.drop_first();
        let d = closed_up(rest);
        let n = d.map_values(|b: u8| spaced(b));
        assert(s =~= seq![s[0]] + rest);
        lemma_closed_up_front(s[0], rest);
        lemma_mapped_front(s[0], d);
        lemma_collapsed_front(spaced(s[0]), n);
        lemma_closed_up_front(b, rest);
        lemma_mapped_front(b, d);
        lemma_collapsed_front(spaced(b), n);
        assert(m.len() > 0 ==> m[0] == spaced(c[0]));
        assert(n.len() > 0 ==> n[0] == spaced(d[0]));
    } else {
        let rest = s.drop_first();
        assert(s =~= seq![s[0]] + rest);
        lemma_respelled_plain(s[0], rest);
        assert(c[0] == s[0]);
        assert(m[0] == s[0]);
        if spaced(b) == b && closes_up(s[0]) {
            assert(run_spelled(false, Some(s[0])) + shell_respelled(s) =~= shell_respelled(s));
        } else {
            lemma_mapped_front(' ' as u8, collapsed(m));
        }
    }
}

/// How much of a run of white space, commas and semicolons has been read.
#[derive(Clone, Copy, PartialEq, Eq, Structural)]
enum ShellRun {
    Outside,
    Blank,
    /// With a comma or a semicolon in it.
    Marked,
}

impl ShellRun {
    /// A byte that spells the same as the run.
    spec fn spelled(self) -> Seq<u8> {
        match self {
            ShellRun::Outside => seq![],
            ShellRun::Blank => seq![' ' as u8],
            ShellRun::Marked => seq![',' as u8],
        }
    }
}

/// Read one byte more: what it adds, and the run after it.
proof fn lemma_shell_step(run: ShellRun, b: u8, rest: Seq<u8>)
    ensures
        ({
            let whole = shell_respelled(run.spelled() + (seq![b] + rest));
            if is_shell_blank(b) {
                whole == shell_respelled(
                    (if run == ShellRun::Outside {
                        ShellRun::Blank
                    } else {
                        run
                    }).spelled() + rest,
                )
            } else if spaced(b) != b {
                whole == shell_respelled(ShellRun::Marked.spelled() + rest)
            } else if run == ShellRun::Outside || (run == ShellRun::Blank && closes_up(b)) {
                whole == seq![lower_byte(b)] + shell_respelled(rest)
            } else {
                whole == seq![' ' as u8, lower_byte(b)] + shell_respelled(rest)
            }
        }),
{
    let s = seq![b] + rest;
    assert(s.drop_first() =~= rest);
    let c = closed_up(rest);
    let m = c.map_values(|b: u8| spaced(b));
    if run == ShellRun::Outside {
        assert(run.spelled() + s =~= s);
        if is_shell_blank(b) || spaced(b) != b {
            // A blank spells like a space, and a semicolon like a comma.
            let alike = if is_shell_blank(b) {
                ' ' as u8
            } else {
                ',' as u8
            };
            lemma_closed_up_front(b, rest);
            lemma_closed_up_front(alike, rest);
            lemma_mapped_front(b, c);
            lemma_mapped_front(alike, c);
            lemma_collapsed_front(spaced(b), m);
            lemma_collapsed_front(spaced(alike), m);
        } else {
            lemma_respelled_plain(b, rest);
        }
    } else {
        let front = run.spelled()[0];
        assert(run.spelled() =~= seq![front]);
        lemma_respelled_blank(front, s);
        if is_shell_blank(b) {
        } else if spaced(b) != b {
            lemma_closed_up_front(b, rest);
            lemma_closed_up_front(',' as u8, rest);
            lemma_mapped_front(b, c);
            lemma_mapped_front(',' as u8, c);
            lemma_collapsed_front(spaced(b), m);
            lemma_collapsed_front(' ' as u8, m);
        } else {
            lemma_respelled_plain(b, rest);
            let out = seq![lower_byte(b)] + shell_respelled(rest);
            assert(seq![' ' as u8] + out =~= seq![' ' as u8, lower_byte(b)] + shell_respelled(rest));
            assert(seq![] + out =~= out);
        }
    }
}

/// ModSecurity's `cmdLine`, which normalises shell obfuscation.
///
/// The documented steps, in order: delete backslashes, double quotes, single
/// quotes and carets; delete a space before `/` or `(`; replace commas and
/// semicolons with a space; collapse whitespace runs to one space; lowercase.
fn cmd_line(input: &[u8]) -> (r: Vec<u8>)
    ensures
        r@ == shell_normal(input@),
{
    let ghost keep = |b: u8| !is_shell_noise(b);
    let mut out: Vec<u8> = Vec::new();
    let mut run = ShellRun::Outside;
    let mut i: usize = 0;
    assert(input@.skip(0) =~= input@);
    assert(run.spelled() + input@.filter(keep) =~= input@.filter(keep));
    assert(out@ + shell_normal(input@) =~= shell_normal(input@));
    while i < input.len()
        invariant
            i <= input@.len(),
            keep == (|b: u8| !is_shell_noise(b)),
            shell_normal(input@) == out@ + shell_respelled(
                run.spelled() + input@.skip(i as int).filter(keep),
            ),
        decreases input@.len() - i,
    {
        let b = input[i];
        let ghost done = out@;
        let ghost rest = input@.skip(i + 1).filter(keep);
        proof {
            let left = input@.skip(i as int);
            assert(left =~= seq![b] + input@.skip(i + 1));
            Seq::filter_distributes_over_add(seq![b], input@.skip(i + 1), keep);
            lemma_filter_one(b, keep);
            if !keep(b) {
                assert(left.filter(keep) =~= rest);
            }
            lemma_shell_step(run, b, rest);
        }
        i += 1;
        if b == '"' as u8 || b == '\'' as u8 || b == '\\' as u8 || b == '^' as u8 {
            continue;
        }
        if b == ' ' as u8 || b == '\t' as u8 || b == '\r' as u8 || b == '\n' as u8 {
            if run == ShellRun::Outside {
                run = ShellRun::Blank;
            }
        } else if b == ',' as u8 || b == ';' as u8 {
            run = ShellRun::Marked;
        } else {
            if run == ShellRun::Marked || (run == ShellRun::Blank && b != '/' as u8 && b
                != '(' as u8) {
                out.push(' ' as u8);
            }
            out.push(to_lower_byte(b));
            run = ShellRun::Outside;
            assert(run.spelled() + rest =~= rest);
            assert(out@ =~= done + seq![lower_byte(b)] || out@ =~= done + seq![
                ' ' as u8,
                lower_byte(b),
            ]);
            assert(out@ + shell_respelled(rest) =~= shell_normal(input@));
        }
    }
    let ghost left = run.spelled() + input@.skip(i as int).filter(keep);
    proof {
        assert(input@.skip(i as int) =~= seq![]);
        reveal(Seq::filter);
        assert(left =~= run.spelled());
        if run == ShellRun::Outside {
            assert(closed_up(left) =~= seq![]);
            assert(shell_respelled(left) =~= seq![]);
        } else {
            assert(left =~= seq![left[0]] + Seq::<u8>::empty());
            lemma_respelled_blank(left[0], seq![]);
        }
    }
    if run != ShellRun::Outside {
        out.push(' ' as u8);
    }
    assert(out@ =~= shell_normal(input@));
    out
}

pub proof fn lemma_filter_one(b: u8, keep: spec_fn(u8) -> bool)
    ensures
        seq![b].filter(keep) == if keep(b) {
            seq![b]
        } else {
            seq![]
        },
{
    reveal(Seq::filter);
    reveal_with_fuel(Seq::filter, 2);
    assert(seq![b].drop_last() =~= seq![]);
    assert(seq![b].last() == b);
}

// ---------------------------------------------------------------------------
// Comments

/// The length of the comment delimiter at the front of `s`, or 0. Longest
/// delimiters first: `-->` must be matched before `--`, and `<!--` before it
/// too, or the tail of the longer delimiter survives.
pub open spec fn comment_mark(s: Seq<u8>) -> int {
    if s.len() >= 4 && s[0] == '<' as u8 && s[1] == '!' as u8 && s[2] == '-' as u8 && s[3]
        == '-' as u8 {
        4
    } else if s.len() >= 3 && s[0] == '-' as u8 && s[1] == '-' as u8 && s[2] == '>' as u8 {
        3
    } else if s.len() >= 2 && ((s[0] == '/' as u8 && s[1] == '*' as u8) || (s[0] == '*' as u8
        && s[1] == '/' as u8) || (s[0] == '-' as u8 && s[1] == '-' as u8)) {
        2
    } else if s.len() >= 1 && s[0] == '#' as u8 {
        1
    } else {
        0
    }
}

/// `s` without the character sequences that introduce or end comments.
pub open spec fn without_comment_marks(s: Seq<u8>) -> Seq<u8>
    decreases s.len(),
{
    if s.len() == 0 {
        seq![]
    } else if comment_mark(s) > 0 {
        without_comment_marks(s.skip(comment_mark(s)))
    } else {
        seq![s[0]] + without_comment_marks(s.skip(1))
    }
}

fn comment_mark_len(s: &[u8]) -> (r: usize)
    ensures
        r == comment_mark(s@),
        r <= s@.len(),
{
    let n = s.len();
    if n >= 4 && s[0] == '<' as u8 && s[1] == '!' as u8 && s[2] == '-' as u8 && s[3] == '-' as u8 {
        4
    } else if n >= 3 && s[0] == '-' as u8 && s[1] == '-' as u8 && s[2] == '>' as u8 {
        3
    } else if n >= 2 && ((s[0] == '/' as u8 && s[1] == '*' as u8) || (s[0] == '*' as u8 && s[1]
        == '/' as u8) || (s[0] == '-' as u8 && s[1] == '-' as u8)) {
        2
    } else if n >= 1 && s[0] == '#' as u8 {
        1
    } else {
        0
    }
}

/// Strip the character sequences that introduce or end comments, without
/// removing the commented content.
fn remove_comments_char(input: &[u8]) -> (r: Vec<u8>)
    ensures
        r@ == without_comment_marks(input@),
{
    let mut out: Vec<u8> = Vec::new();
    let mut i: usize = 0;
    let ghost whole = without_comment_marks(input@);
    assert(input@.skip(0) =~= input@);
    assert(out@ + whole =~= whole);
    while i < input.len()
        invariant
            i <= input@.len(),
            out@ + without_comment_marks(input@.skip(i as int)) == whole,
        decreases input@.len() - i,
    {
        let rest = bytes_from(input, i);
        let n = comment_mark_len(rest);
        if n > 0 {
            assert(rest@.skip(n as int) =~= input@.skip(i + n));
            i += n;
        } else {
            let ghost start = out@;
            assert(rest@.skip(1) =~= input@.skip(i + 1));
            out.push(rest[0]);
            assert(start + (seq![rest@[0]] + without_comment_marks(rest@.skip(1))) =~= out@
                + without_comment_marks(rest@.skip(1)));
            i += 1;
        }
    }
    assert(out@ + Seq::<u8>::empty() =~= out@);
    out
}

/// How many bytes of `s` go up to and including the first `*/`, or all of them
/// where there is none.
pub open spec fn comment_rest(s: Seq<u8>) -> int
    decreases s.len(),
{
    if s.len() < 2 {
        s.len() as int
    } else if s[0] == '*' as u8 && s[1] == '/' as u8 {
        2
    } else {
        1 + comment_rest(s.drop_first())
    }
}

pub proof fn lemma_comment_rest(s: Seq<u8>)
    ensures
        0 <= comment_rest(s) <= s.len(),
    decreases s.len(),
{
    if s.len() >= 2 {
        lemma_comment_rest(s.drop_first());
    }
}

/// `s` with each C-style comment replaced by a single space. An unterminated
/// comment consumes the rest of the input, which is what stops `/*` from hiding
/// a payload from the operator.
pub open spec fn comments_replaced(s: Seq<u8>) -> Seq<u8>
    decreases s.len(),
{
    if s.len() == 0 {
        seq![]
    } else if s.len() >= 2 && s[0] == '/' as u8 && s[1] == '*' as u8 {
        proof {
            lemma_comment_rest(s.skip(2));
        }
        seq![' ' as u8] + comments_replaced(s.skip(2 + comment_rest(s.skip(2))))
    } else {
        seq![s[0]] + comments_replaced(s.skip(1))
    }
}

fn comment_len(s: &[u8]) -> (r: usize)
    ensures
        r == comment_rest(s@),
        r <= s@.len(),
{
    let mut i: usize = 0;
    assert(s@.skip(0) =~= s@);
    while i < s.len()
        invariant
            i <= s@.len(),
            comment_rest(s@) == i + comment_rest(s@.skip(i as int)),
        decreases s@.len() - i,
    {
        if s.len() - i >= 2 && s[i] == '*' as u8 && s[i + 1] == '/' as u8 {
            return i + 2;
        }
        assert(s@.skip(i as int).drop_first() =~= s@.skip(i + 1));
        i += 1;
    }
    i
}

fn replace_comments(input: &[u8]) -> (r: Vec<u8>)
    ensures
        r@ == comments_replaced(input@),
{
    let mut out: Vec<u8> = Vec::new();
    let mut i: usize = 0;
    let ghost whole = comments_replaced(input@);
    assert(input@.skip(0) =~= input@);
    assert(out@ + whole =~= whole);
    while i < input.len()
        invariant
            i <= input@.len(),
            out@ + comments_replaced(input@.skip(i as int)) == whole,
        decreases input@.len() - i,
    {
        let rest = bytes_from(input, i);
        let ghost start = out@;
        if rest.len() >= 2 && rest[0] == '/' as u8 && rest[1] == '*' as u8 {
            let n = comment_len(bytes_from(rest, 2));
            out.push(' ' as u8);
            i += 2 + n;
            assert(rest@.skip(2 + n) =~= input@.skip(i as int));
            assert(start + (seq![' ' as u8] + comments_replaced(rest@.skip(2 + n))) =~= out@
                + comments_replaced(rest@.skip(2 + n)));
        } else {
            out.push(rest[0]);
            i += 1;
            assert(rest@.skip(1) =~= input@.skip(i as int));
            assert(start + (seq![rest@[0]] + comments_replaced(rest@.skip(1))) =~= out@
                + comments_replaced(rest@.skip(1)));
        }
    }
    assert(out@ + Seq::<u8>::empty() =~= out@);
    out
}

// ---------------------------------------------------------------------------
// Digest, length and Windows paths

/// The SHA-1 digest of some bytes.
pub uninterp spec fn sha1_digest(bytes: Seq<u8>) -> Seq<u8>;

/// `sha1::Sha1::digest`. The digest is named, not spelled out; it is twenty
/// bytes long.
#[verifier::external_body]
pub(crate) fn sha1_of(input: &[u8]) -> (r: Vec<u8>)
    ensures
        r@ == sha1_digest(input@),
        r@.len() == 20,
{
    sha1::Sha1::digest(input).to_vec()
}

/// `s` with each backslash turned into a slash.
pub open spec fn forward_slashed(s: Seq<u8>) -> Seq<u8> {
    Seq::new(
        s.len(),
        |i: int|
            if s[i] == '\\' as u8 {
                '/' as u8
            } else {
                s[i]
            },
    )
}

fn slash_forward(input: &[u8]) -> (r: Vec<u8>)
    ensures
        r@ == forward_slashed(input@),
{
    let mut out: Vec<u8> = Vec::new();
    let mut i: usize = 0;
    while i < input.len()
        invariant
            i <= input@.len(),
            out@ == forward_slashed(input@).take(i as int),
        decreases input@.len() - i,
    {
        out.push(
            if input[i] == '\\' as u8 {
                '/' as u8
            } else {
                input[i]
            },
        );
        i += 1;
    }
    assert(forward_slashed(input@).take(i as int) =~= forward_slashed(input@));
    out
}

/// The bytes of a borrowed or owned value, owned.
pub fn into_vec(value: Cow<'_, [u8]>) -> (r: Vec<u8>)
    ensures
        r@ == value@,
{
    match value {
        Cow::Borrowed(b) => slice_to_vec(b),
        Cow::Owned(v) => v,
    }
}

// ---------------------------------------------------------------------------
// Application

/// What a transformation makes of some bytes.
pub open spec fn transformed(t: Transformation, s: Seq<u8>) -> Seq<u8> {
    match t {
        Transformation::Identity => s,
        Transformation::Base64Decode => base64_decoded(s),
        Transformation::CmdLine => shell_normal(s),
        Transformation::CompressWhitespace => compressed(s, false),
        Transformation::CssDecode => css_decoded(s),
        Transformation::EscapeSeqDecode => escapes_decoded(s),
        Transformation::HexEncode => hex_encoded(s),
        Transformation::HtmlEntityDecode => html_decoded(s),
        Transformation::JsDecode => js_decoded(s),
        Transformation::Length => encode_utf8(decimal(s.len())),
        Transformation::Lowercase => lower_bytes(s),
        Transformation::NormalizePath => normalized_path(s),
        Transformation::NormalizePathWin => normalized_path(forward_slashed(s)),
        Transformation::RemoveCommentsChar => without_comment_marks(s),
        Transformation::RemoveNulls => without_nulls(s),
        Transformation::RemoveWhitespace => without_space(s),
        Transformation::ReplaceComments => comments_replaced(s),
        Transformation::Sha1 => sha1_digest(s),
        Transformation::UrlDecodeUni => url_decoded(s),
        Transformation::Utf8ToUnicode => unicode_escaped(s),
    }
}

/// The input itself where nothing came of it, and else what was made.
fn unless_same<'a>(input: &'a [u8], made: Vec<u8>) -> (r: Cow<'a, [u8]>)
    ensures
        r@ == made@,
        r is Borrowed <==> made@ == input@,
{
    if same_bytes(made.as_slice(), input) {
        Cow::Borrowed(input)
    } else {
        Cow::Owned(made)
    }
}

impl Transformation {
    /// Apply the transformation.
    ///
    /// Returns a borrow when the transformation leaves the input unchanged.
    pub fn apply<'a>(&self, input: &'a [u8]) -> (r: Cow<'a, [u8]>)
        ensures
            r@ == transformed(*self, input@),
            r is Borrowed <==> transformed(*self, input@) == input@,
    {
        match self {
            Transformation::Identity => Cow::Borrowed(input),
            Transformation::Base64Decode => unless_same(input, base64_decode(input)),
            Transformation::CmdLine => unless_same(input, cmd_line(input)),
            Transformation::CompressWhitespace => compress_whitespace(input),
            Transformation::CssDecode => unless_same(input, css_decode(input)),
            Transformation::EscapeSeqDecode => unless_same(input, escape_seq_decode(input)),
            Transformation::HexEncode => unless_same(input, hex_encode(input)),
            Transformation::HtmlEntityDecode => unless_same(input, html_entity_decode(input)),
            Transformation::JsDecode => unless_same(input, js_decode(input)),
            Transformation::Length => unless_same(
                input,
                bytes_of(write_decimal(input.len() as u64).as_str()),
            ),
            Transformation::Lowercase => lowercase(input),
            Transformation::NormalizePath => normalize_path(input),
            Transformation::NormalizePathWin => {
                let slashed = slash_forward(input);
                unless_same(input, into_vec(normalize_path(slashed.as_slice())))
            },
            Transformation::RemoveCommentsChar => unless_same(input, remove_comments_char(input)),
            Transformation::RemoveNulls => remove_nulls(input),
            Transformation::RemoveWhitespace => remove_whitespace(input),
            Transformation::ReplaceComments => unless_same(input, replace_comments(input)),
            Transformation::Sha1 => unless_same(input, sha1_of(input)),
            Transformation::UrlDecodeUni => unless_same(input, url_decode_uni(input)),
            Transformation::Utf8ToUnicode => match utf8_to_unicode(input) {
                Cow::Borrowed(b) => Cow::Borrowed(b),
                Cow::Owned(made) => unless_same(input, made),
            },
        }
    }
}

// ---------------------------------------------------------------------------
// Laws

/// Lowercasing twice is lowercasing once, and leaves no ASCII capital.
pub proof fn lowercase_is_idempotent(s: Seq<u8>)
    ensures
        lower_bytes(lower_bytes(s)) == lower_bytes(s),
        forall|i: int|
            0 <= i < s.len() ==> !('A' as u8 <= #[trigger] lower_bytes(s)[i] <= 'Z' as u8),
{
    assert(lower_bytes(lower_bytes(s)) =~= lower_bytes(s));
}

proof fn lemma_filter_holds(s: Seq<u8>, keep: spec_fn(u8) -> bool)
    ensures
        forall|j: int| 0 <= j < s.filter(keep).len() ==> keep(#[trigger] s.filter(keep)[j]),
    decreases s.len(),
{
    reveal(Seq::filter);
    if s.len() > 0 {
        lemma_filter_holds(s.drop_last(), keep);
    }
}

/// Removing NULs leaves none, so removing them again changes nothing.
pub proof fn no_null_is_left(s: Seq<u8>)
    ensures
        !without_nulls(s).contains(0),
        without_nulls(without_nulls(s)) == without_nulls(s),
{
    let keep = |b: u8| b != 0;
    lemma_filter_holds(s, keep);
    lemma_filter_keeps_all(without_nulls(s), keep);
}

/// Removing white space leaves none, so removing it again changes nothing.
pub proof fn no_space_is_left(s: Seq<u8>)
    ensures
        forall|i: int| 0 <= i < without_space(s).len() ==> !is_space(#[trigger] without_space(s)[i]),
        without_space(without_space(s)) == without_space(s),
{
    let keep = |b: u8| !is_space(b);
    lemma_filter_holds(s, keep);
    lemma_filter_keeps_all(without_space(s), keep);
}

proof fn lemma_compressed_is_compressed(s: Seq<u8>, in_space: bool)
    ensures
        is_compressed(compressed(s, in_space), in_space),
    decreases s.len(),
{
    if s.len() > 0 {
        let rest = s.drop_first();
        lemma_compressed_is_compressed(rest, true);
        lemma_compressed_is_compressed(rest, false);
        if is_space(s[0]) {
            if !in_space {
                let c = compressed(rest, true);
                assert((seq![' ' as u8] + c).drop_first() =~= c);
            }
        } else {
            let c = compressed(rest, false);
            assert((seq![s[0]] + c).drop_first() =~= c);
        }
    }
}

/// Folding white space twice is folding it once.
pub proof fn compressing_is_idempotent(s: Seq<u8>)
    ensures
        compressed(compressed(s, false), false) == compressed(s, false),
{
    lemma_compressed_is_compressed(s, false);
    lemma_is_compressed(compressed(s, false), false);
}

proof fn lemma_closed_up_bytes(s: Seq<u8>, holds: spec_fn(u8) -> bool)
    requires
        forall|i: int| 0 <= i < s.len() ==> holds(#[trigger] s[i]),
    ensures
        forall|i: int| 0 <= i < closed_up(s).len() ==> holds(#[trigger] closed_up(s)[i]),
    decreases s.len(),
{
    if s.len() > 0 {
        let rest = s.drop_first();
        assert forall|i: int| 0 <= i < rest.len() implies holds(#[trigger] rest[i]) by {
            assert(rest[i] == s[i + 1]);
        }
        lemma_closed_up_bytes(rest, holds);
        assert(holds(s[0]));
        let c = closed_up(rest);
        let r = closed_up(s);
        if r != c {
            assert forall|i: int| 0 <= i < r.len() implies holds(#[trigger] r[i]) by {
                if i > 0 {
                    assert(r[i] == c[i - 1]);
                }
            }
        }
    }
}

/// Whether white space stands before a slash or an opening parenthesis.
pub open spec fn stands_off(s: Seq<u8>) -> bool {
    exists|i: int|
        0 <= i < s.len() - 1 && #[trigger] is_shell_blank(s[i]) && closes_up(s[i + 1])
}

proof fn lemma_closed_up_closes(s: Seq<u8>)
    ensures
        !stands_off(closed_up(s)),
        !stands_off(s) ==> closed_up(s) == s,
    decreases s.len(),
{
    if s.len() > 0 {
        let rest = s.drop_first();
        let c = closed_up(rest);
        let r = closed_up(s);
        lemma_closed_up_closes(rest);
        if r != c {
            assert forall|i: int| 0 <= i < r.len() - 1 implies !(#[trigger] is_shell_blank(r[i])
                && closes_up(r[i + 1])) by {
                assert(r[i + 1] == c[i]);
                if i > 0 {
                    assert(r[i] == c[i - 1]);
                    assert(!(is_shell_blank(c[i - 1]) && closes_up(c[i - 1 + 1])));
                }
            }
        }
        if !stands_off(s) {
            assert forall|i: int| 0 <= i < rest.len() - 1 implies !(#[trigger] is_shell_blank(
                rest[i],
            ) && closes_up(rest[i + 1])) by {
                assert(rest[i] == s[i + 1] && rest[i + 1] == s[i + 2]);
                assert(!(is_shell_blank(s[i + 1]) && closes_up(s[i + 1 + 1])));
            }
            assert(c == rest);
            if s.len() > 1 {
                assert(!(is_shell_blank(s[0]) && closes_up(s[1])));
            }
            assert(r =~= s);
        }
    }
}

/// Whether text is collapsed: no other white space than the space, and never two
/// in a row.
pub open spec fn is_collapsed(s: Seq<u8>) -> bool {
    &&& forall|i: int| 0 <= i < s.len() && is_shell_blank(#[trigger] s[i]) ==> s[i] == ' ' as u8
    &&& forall|i: int|
        0 <= i < s.len() - 1 ==> !(#[trigger] is_shell_blank(s[i]) && is_shell_blank(s[i + 1]))
}

proof fn lemma_collapsed_bytes(s: Seq<u8>, holds: spec_fn(u8) -> bool)
    requires
        holds(' ' as u8),
        forall|i: int| 0 <= i < s.len() ==> holds(#[trigger] s[i]),
    ensures
        forall|i: int| 0 <= i < collapsed(s).len() ==> holds(#[trigger] collapsed(s)[i]),
        s.len() > 0 ==> collapsed(s).len() > 0,
        s.len() > 0 && !is_shell_blank(s[0]) ==> collapsed(s)[0] == s[0],
        s.len() > 0 && is_shell_blank(s[0]) ==> is_shell_blank(collapsed(s)[0]),
    decreases s.len(),
{
    if s.len() > 0 {
        let rest = s.drop_first();
        assert forall|i: int| 0 <= i < rest.len() implies holds(#[trigger] rest[i]) by {
            assert(rest[i] == s[i + 1]);
        }
        lemma_collapsed_bytes(rest, holds);
        assert(holds(s[0]));
        let c = collapsed(rest);
        let r = collapsed(s);
        if !(is_shell_blank(s[0]) && s.len() > 1 && is_shell_blank(s[1])) {
            assert forall|i: int| 0 <= i < r.len() implies holds(#[trigger] r[i]) by {
                if i > 0 {
                    assert(r[i] == c[i - 1]);
                }
            }
        } else {
            assert(rest[0] == s[1]);
        }
    }
}

proof fn lemma_collapsed_is_collapsed(s: Seq<u8>)
    ensures
        is_collapsed(collapsed(s)),
        is_collapsed(s) ==> collapsed(s) == s,
        !stands_off(s) ==> !stands_off(collapsed(s)),
    decreases s.len(),
{
    if s.len() > 0 {
        let rest = s.drop_first();
        let c = collapsed(rest);
        let r = collapsed(s);
        lemma_collapsed_is_collapsed(rest);
        lemma_collapsed_bytes(rest, |b: u8| true);
        if rest.len() == 0 {
            assert(c =~= seq![]);
        } else {
            assert(rest[0] == s[1]);
        }
        let folds = is_shell_blank(s[0]) && s.len() > 1 && is_shell_blank(s[1]);
        if !folds {
            assert(r =~= seq![if is_shell_blank(s[0]) { ' ' as u8 } else { s[0] }] + c);
            assert forall|i: int| 0 <= i < r.len() && is_shell_blank(#[trigger] r[i]) implies r[i]
                == ' ' as u8 by {
                if i > 0 {
                    assert(r[i] == c[i - 1]);
                }
            }
            assert forall|i: int| 0 <= i < r.len() - 1 implies !(#[trigger] is_shell_blank(r[i])
                && is_shell_blank(r[i + 1])) by {
                assert(r[i + 1] == c[i]);
                if i > 0 {
                    assert(r[i] == c[i - 1]);
                    assert(!(is_shell_blank(c[i - 1]) && is_shell_blank(c[i - 1 + 1])));
                }
            }
        }
        if is_collapsed(s) {
            assert forall|i: int| 0 <= i < rest.len() && is_shell_blank(
                #[trigger] rest[i],
            ) implies rest[i] == ' ' as u8 by {
                assert(rest[i] == s[i + 1]);
            }
            assert forall|i: int| 0 <= i < rest.len() - 1 implies !(#[trigger] is_shell_blank(
                rest[i],
            ) && is_shell_blank(rest[i + 1])) by {
                assert(rest[i] == s[i + 1] && rest[i + 1] == s[i + 2]);
                assert(!(is_shell_blank(s[i + 1]) && is_shell_blank(s[i + 1 + 1])));
            }
            if s.len() > 1 {
                assert(!(is_shell_blank(s[0]) && is_shell_blank(s[1])));
            }
            assert(r =~= s);
        }
        if !stands_off(s) {
            assert forall|i: int| 0 <= i < rest.len() - 1 implies !(#[trigger] is_shell_blank(
                rest[i],
            ) && closes_up(rest[i + 1])) by {
                assert(rest[i] == s[i + 1] && rest[i + 1] == s[i + 2]);
                assert(!(is_shell_blank(s[i + 1]) && closes_up(s[i + 1 + 1])));
            }
            if s.len() > 1 {
                assert(!(is_shell_blank(s[0]) && closes_up(s[1])));
            }
            if !folds {
                assert forall|i: int| 0 <= i < r.len() - 1 implies !(#[trigger] is_shell_blank(
                    r[i],
                ) && closes_up(r[i + 1])) by {
                    assert(r[i + 1] == c[i]);
                    if i > 0 {
                        assert(r[i] == c[i - 1]);
                        assert(!(is_shell_blank(c[i - 1]) && closes_up(c[i - 1 + 1])));
                    }
                }
            }
        }
    }
}

/// Whether a byte is one that shell normalisation leaves as it is.
pub open spec fn is_shell_plain(b: u8) -> bool {
    !is_shell_noise(b) && spaced(b) == b && lower_byte(b) == b
}

proof fn lemma_lowered_shape(s: Seq<u8>)
    ensures
        ({
            let r = s.map_values(|b: u8| lower_byte(b));
            &&& is_collapsed(s) ==> is_collapsed(r)
            &&& !stands_off(s) ==> !stands_off(r)
        }),
{
    let r = s.map_values(|b: u8| lower_byte(b));
    assert forall|i: int| 0 <= i < r.len() implies #[trigger] is_shell_blank(r[i])
        == is_shell_blank(s[i]) && closes_up(r[i]) == closes_up(s[i]) && (is_shell_blank(s[i])
        ==> r[i] == s[i]) by {}
    if is_collapsed(s) {
        assert forall|i: int| 0 <= i < r.len() - 1 implies !(#[trigger] is_shell_blank(r[i])
            && is_shell_blank(r[i + 1])) by {
            assert(!(is_shell_blank(s[i]) && is_shell_blank(s[i + 1])));
            assert(is_shell_blank(r[i + 1]) == is_shell_blank(s[i + 1]));
        }
    }
    if !stands_off(s) {
        assert forall|i: int| 0 <= i < r.len() - 1 implies !(#[trigger] is_shell_blank(r[i])
            && closes_up(r[i + 1])) by {
            assert(!(is_shell_blank(s[i]) && closes_up(s[i + 1])));
            assert(is_shell_blank(r[i + 1]) == is_shell_blank(s[i + 1]));
        }
    }
}

/// Shell normalisation leaves no byte that a shell ignores, no comma, no
/// semicolon and no capital, no white space but single spaces.
pub proof fn shell_spelling_is_plain(s: Seq<u8>)
    ensures
        forall|i: int| 0 <= i < shell_normal(s).len() ==> is_shell_plain(#[trigger] shell_normal(s)[i]),
        is_collapsed(shell_normal(s)),
{
    let keep = |b: u8| !is_shell_noise(b);
    let clean = |b: u8| !is_shell_noise(b) && spaced(b) == b;
    let kept = s.filter(keep);
    let closed = closed_up(kept);
    let marked = closed.map_values(|b: u8| spaced(b));
    let folded = collapsed(marked);
    lemma_filter_holds(s, keep);
    lemma_closed_up_bytes(kept, keep);
    assert forall|i: int| 0 <= i < marked.len() implies clean(#[trigger] marked[i]) by {
        assert(keep(closed[i]));
    }
    lemma_collapsed_bytes(marked, clean);
    lemma_collapsed_is_collapsed(marked);
    lemma_lowered_shape(folded);
    assert forall|i: int| 0 <= i < shell_normal(s).len() implies is_shell_plain(
        #[trigger] shell_normal(s)[i],
    ) by {
        assert(clean(folded[i]));
    }
}

/// Shell normalisation without commas and semicolons leaves no space before a
/// slash or an opening parenthesis, so `cat /etc/passwd` and `cat/etc/passwd` come
/// out the same.
pub proof fn shell_spelling_closes_up(s: Seq<u8>)
    requires
        !s.contains(',' as u8),
        !s.contains(';' as u8),
    ensures
        !stands_off(shell_normal(s)),
{
    let keep = |b: u8| !is_shell_noise(b);
    let unmarked = |b: u8| spaced(b) == b;
    let kept = s.filter(keep);
    let closed = closed_up(kept);
    let marked = closed.map_values(|b: u8| spaced(b));
    assert forall|i: int| 0 <= i < s.len() implies unmarked(#[trigger] s[i]) by {
        assert(s.contains(s[i]));
    }
    lemma_filter_inherits(s, keep, unmarked);
    lemma_closed_up_bytes(kept, unmarked);
    assert forall|i: int| 0 <= i < closed.len() implies marked[i] == closed[i] by {
        assert(unmarked(closed[i]));
    }
    assert(marked =~= closed);
    lemma_closed_up_closes(kept);
    lemma_collapsed_is_collapsed(marked);
    lemma_lowered_shape(collapsed(marked));
}

proof fn lemma_filter_inherits(
    s: Seq<u8>,
    keep: spec_fn(u8) -> bool,
    holds: spec_fn(u8) -> bool,
)
    requires
        forall|i: int| 0 <= i < s.len() ==> holds(#[trigger] s[i]),
    ensures
        forall|i: int| 0 <= i < s.filter(keep).len() ==> holds(#[trigger] s.filter(keep)[i]),
    decreases s.len(),
{
    reveal(Seq::filter);
    if s.len() > 0 {
        let shorter = s.drop_last();
        assert forall|i: int| 0 <= i < shorter.len() implies holds(#[trigger] shorter[i]) by {
            assert(shorter[i] == s[i]);
        }
        lemma_filter_inherits(shorter, keep, holds);
        assert(holds(s[s.len() - 1]));
        assert forall|i: int| 0 <= i < s.filter(keep).len() implies holds(
            #[trigger] s.filter(keep)[i],
        ) by {
            if i < shorter.filter(keep).len() {
                assert(s.filter(keep)[i] == shorter.filter(keep)[i]);
            }
        }
    }
}

/// Normalising shell spelling again changes nothing, unless a comma or a
/// semicolon has left a space before a slash or an opening parenthesis.
pub proof fn shell_spelling_is_settled(s: Seq<u8>)
    requires
        !stands_off(shell_normal(s)),
    ensures
        shell_normal(shell_normal(s)) == shell_normal(s),
{
    let keep = |b: u8| !is_shell_noise(b);
    let r = shell_normal(s);
    shell_spelling_is_plain(s);
    assert forall|i: int| 0 <= i < r.len() implies keep(#[trigger] r[i]) by {
        assert(is_shell_plain(r[i]));
    }
    lemma_filter_keeps_all(r, keep);
    lemma_closed_up_closes(r);
    let marked = r.map_values(|b: u8| spaced(b));
    assert forall|i: int| 0 <= i < r.len() implies marked[i] == r[i] && lower_byte(r[i])
        == r[i] by {
        assert(is_shell_plain(r[i]));
    }
    assert(marked =~= r);
    lemma_collapsed_is_collapsed(r);
    assert(r.map_values(|b: u8| lower_byte(b)) =~= r);
}

/// No comment opener is left where comments were replaced, so a payload cannot
/// hide behind one.
pub proof fn no_comment_is_left(s: Seq<u8>)
    ensures
        forall|i: int|
            0 <= i < comments_replaced(s).len() - 1 ==> !(#[trigger] comments_replaced(s)[i]
                == '/' as u8 && comments_replaced(s)[i + 1] == '*' as u8),
    decreases s.len(),
{
    if s.len() > 0 {
        let starts = s.len() >= 2 && s[0] == '/' as u8 && s[1] == '*' as u8;
        if starts {
            lemma_comment_rest(s.skip(2));
        }
        let n = if starts {
            2 + comment_rest(s.skip(2))
        } else {
            1
        };
        let rest = s.skip(n);
        let first = if starts {
            ' ' as u8
        } else {
            s[0]
        };
        let r = comments_replaced(s);
        let tail = comments_replaced(rest);
        no_comment_is_left(rest);
        assert(r =~= seq![first] + tail);
        assert forall|i: int| 0 <= i < r.len() - 1 implies !(#[trigger] r[i] == '/' as u8 && r[i + 1]
            == '*' as u8) by {
            if i == 0 {
                if r[0] == '/' as u8 {
                    assert(rest.len() > 0);
                    if rest.len() >= 2 && rest[0] == '/' as u8 && rest[1] == '*' as u8 {
                        lemma_comment_rest(rest.skip(2));
                        assert(tail[0] == ' ' as u8);
                    } else {
                        assert(tail[0] == rest[0]);
                        assert(rest[0] == s[1]);
                    }
                }
            } else {
                assert(r[i] == tail[i - 1]);
                assert(r[i + 1] == tail[i]);
            }
        }
    }
}

/// Hexadecimal encoding can be read back: the digits at each place are those of
/// the byte there.
pub proof fn hex_encoding_reads_back(s: Seq<u8>, i: int)
    requires
        0 <= i < s.len(),
    ensures
        hex_encoded(s).len() == 2 * s.len(),
        has_hex_pair(hex_encoded(s).skip(2 * i)),
        hex_pair(hex_encoded(s).skip(2 * i)) == s[i],
{
    let pair = hex_encoded(s).skip(2 * i);
    assert(pair[0] == hex_digit((s[i] / 16) as nat));
    assert(pair[1] == hex_digit((s[i] % 16) as nat));
}

/// Whether a comment opens somewhere.
pub open spec fn opens_a_comment(s: Seq<u8>) -> bool {
    exists|i: int|
        0 <= i < s.len() - 1 && #[trigger] s[i] == '/' as u8 && s[i + 1] == '*' as u8
}

/// Whether a comment closes somewhere.
pub open spec fn closes_a_comment(s: Seq<u8>) -> bool {
    exists|i: int|
        0 <= i < s.len() - 1 && #[trigger] s[i] == '*' as u8 && s[i + 1] == '/' as u8
}

/// Text in which no comment opens is left as it is.
pub proof fn text_without_comments_is_kept(s: Seq<u8>)
    requires
        !opens_a_comment(s),
    ensures
        comments_replaced(s) == s,
    decreases s.len(),
{
    if s.len() > 0 {
        let rest = s.skip(1);
        assert forall|i: int| 0 <= i < rest.len() - 1 implies !(#[trigger] rest[i] == '/' as u8
            && rest[i + 1] == '*' as u8) by {
            assert(rest[i] == s[i + 1]);
            assert(!(s[i + 1] == '/' as u8 && s[i + 1 + 1] == '*' as u8));
        }
        text_without_comments_is_kept(rest);
        assert(!(s.len() >= 2 && s[0] == '/' as u8 && s[1] == '*' as u8));
        assert(seq![s[0]] + rest =~= s);
    }
}

/// Replacing comments twice is replacing them once.
pub proof fn replacing_comments_is_idempotent(s: Seq<u8>)
    ensures
        comments_replaced(comments_replaced(s)) == comments_replaced(s),
{
    no_comment_is_left(s);
    text_without_comments_is_kept(comments_replaced(s));
}

/// Replacing comments makes text no longer.
pub proof fn replacing_comments_does_not_grow(s: Seq<u8>)
    ensures
        comments_replaced(s).len() <= s.len(),
    decreases s.len(),
{
    if s.len() > 0 {
        if s.len() >= 2 && s[0] == '/' as u8 && s[1] == '*' as u8 {
            lemma_comment_rest(s.skip(2));
            replacing_comments_does_not_grow(s.skip(2 + comment_rest(s.skip(2))));
        } else {
            replacing_comments_does_not_grow(s.skip(1));
        }
    }
}

/// A comment that is never closed ends the text with one space.
pub proof fn an_open_comment_ends_the_text(before: Seq<u8>, inside: Seq<u8>)
    requires
        !opens_a_comment(before),
        !closes_a_comment(inside),
    ensures
        comments_replaced(before + seq!['/' as u8, '*' as u8] + inside) == before.push(' ' as u8),
    decreases before.len(),
{
    let s = before + seq!['/' as u8, '*' as u8] + inside;
    if before.len() == 0 {
        assert(s.skip(2) =~= inside);
        lemma_open_comment(inside);
        assert(s.skip(2 + comment_rest(s.skip(2))) =~= seq![]);
        reveal_with_fuel(comments_replaced, 2);
        assert(s[0] == '/' as u8 && s[1] == '*' as u8);
        assert(comments_replaced(s) =~= before.push(' ' as u8));
    } else {
        let rest = before.drop_first();
        assert forall|i: int| 0 <= i < rest.len() - 1 implies !(#[trigger] rest[i] == '/' as u8
            && rest[i + 1] == '*' as u8) by {
            assert(rest[i] == before[i + 1]);
            assert(!(before[i + 1] == '/' as u8 && before[i + 1 + 1] == '*' as u8));
        }
        an_open_comment_ends_the_text(rest, inside);
        assert(s.skip(1) =~= rest + seq!['/' as u8, '*' as u8] + inside);
        assert(s[0] == before[0]);
        assert(!(s[0] == '/' as u8 && s[1] == '*' as u8)) by {
            if before.len() > 1 {
                assert(s[1] == before[1]);
                assert(!(before[0] == '/' as u8 && before[1] == '*' as u8));
            } else {
                assert(s[1] == '/' as u8);
            }
        }
        assert(seq![s[0]] + rest.push(' ' as u8) =~= before.push(' ' as u8));
    }
}

proof fn lemma_open_comment(s: Seq<u8>)
    requires
        !closes_a_comment(s),
    ensures
        comment_rest(s) == s.len(),
    decreases s.len(),
{
    if s.len() >= 2 {
        let rest = s.drop_first();
        assert(!(s[0] == '*' as u8 && s[1] == '/' as u8));
        assert forall|i: int| 0 <= i < rest.len() - 1 implies !(#[trigger] rest[i] == '*' as u8
            && rest[i + 1] == '/' as u8) by {
            assert(rest[i] == s[i + 1]);
            assert(!(s[i + 1] == '*' as u8 && s[i + 1 + 1] == '/' as u8));
        }
        lemma_open_comment(rest);
    }
}

} // verus!
