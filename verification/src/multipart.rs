//! Parsing `multipart/form-data` bodies.
//!
//! Multipart is where WAF bypasses live, because servers disagree about
//! malformed input: a filename with an embedded quote, a header the parser
//! skips, a boundary that does not quite match. The Core Rule Set dedicates a
//! whole rule file to it (`REQUEST-922-MULTIPART-ATTACK`) and 920120 exists
//! specifically to catch filenames crafted to slip past a lenient parser.
//!
//! This parser is therefore deliberately literal: it reports what is actually
//! in the bytes, including the raw header lines, rather than normalising them
//! away. Rules cannot flag what the parser has already tidied up.

use crate::bytes::bytes_at;
use crate::bytes::bytes_before;
use crate::bytes::bytes_from;
use crate::bytes::bytes_of;
use crate::bytes::lemma_encode_nonempty;
use crate::bytes::lossy_text;
use crate::bytes::occurs_at;
use crate::bytes::occurs_in;
use crate::bytes::split_bytes;
use crate::bytes::utf8_lossy;
use crate::collections::pairs_view;
use crate::collections::Entries;
use crate::text::before;
use crate::text::chars_of;
use crate::text::eq_ignore_case;
use crate::text::find_byte;
use crate::text::find_char;
use crate::text::from;
use crate::text::joined;
use crate::text::lemma_position;
use crate::text::position;
use crate::text::same_chars;
use crate::text::same_ignoring_case;
use crate::text::split;
use crate::text::split_chars;
use crate::text::string_of;
use crate::text::trim;
use crate::text::trimmed;
use crate::text::views;
use vstd::prelude::*;
use vstd::slice::slice_subrange;
use vstd::slice::slice_to_vec;
use vstd::utf8::encode_utf8;

verus! {

/// One part of a multipart body.
#[derive(Debug, Clone)]
pub struct Part {
    /// The `name` parameter of `Content-Disposition`, if present.
    pub name: Option<String>,
    /// The `filename` parameter, present on file uploads.
    pub filename: Option<String>,
    /// The part's headers as raw `name: value` lines, in order.
    pub header_lines: Vec<(String, Vec<u8>)>,
    /// The part's body.
    pub content: Vec<u8>,
}

/// The view of a [`Part`].
#[verifier::ext_equal]
pub struct PartView {
    pub name: Option<Seq<char>>,
    pub filename: Option<Seq<char>>,
    pub header_lines: Entries,
    pub content: Seq<u8>,
}

impl DeepView for Part {
    type V = PartView;

    open spec fn deep_view(&self) -> PartView {
        PartView {
            name: self.name.deep_view(),
            filename: self.filename.deep_view(),
            header_lines: pairs_view(self.header_lines@),
            content: self.content@,
        }
    }
}

/// A part that holds nothing.
pub open spec fn no_part() -> PartView {
    PartView { name: None, filename: None, header_lines: seq![], content: seq![] }
}

impl Default for Part {
    fn default() -> (r: Self)
        ensures
            r.deep_view() == no_part(),
    {
        let r = Part {
            name: None,
            filename: None,
            header_lines: Vec::new(),
            content: Vec::new(),
        };
        assert(r.deep_view() =~= no_part());
        r
    }
}

/// Everything a multipart body yields.
#[derive(Debug)]
pub struct Multipart {
    /// The parts, in order.
    pub parts: Vec<Part>,
}

impl Default for Multipart {
    fn default() -> (r: Self)
        ensures
            r.parts@.len() == 0,
    {
        Multipart { parts: Vec::new() }
    }
}

// ---------------------------------------------------------------------------
// Boundaries

/// Text without the quotes around it, where there are two.
pub open spec fn unquoted(s: Seq<char>) -> Seq<char> {
    if s.len() >= 2 && s[0] == '"' && s.last() == '"' {
        s.subrange(1, s.len() - 1)
    } else {
        s
    }
}

/// The boundary that the parameters of a `Content-Type` give. A parameter
/// without `=` ends the search, as does an empty boundary.
pub open spec fn boundary_in(params: Seq<Seq<char>>) -> Option<Seq<char>>
    decreases params.len(),
{
    if params.len() == 0 {
        None
    } else {
        let param = trimmed(params[0]);
        let p = position(param, '=');
        if p >= param.len() {
            None
        } else if same_ignoring_case(trimmed(param.take(p)), "boundary"@) {
            let value = unquoted(trimmed(param.skip(p + 1)));
            if value.len() == 0 {
                None
            } else {
                Some(value)
            }
        } else {
            boundary_in(params.drop_first())
        }
    }
}

fn unquote(s: &[char]) -> (r: &[char])
    ensures
        r@ == unquoted(s@),
{
    if s.len() >= 2 && s[0] == '"' && s[s.len() - 1] == '"' {
        slice_subrange(s, 1, s.len() - 1)
    } else {
        s
    }
}

/// Pull the boundary out of a `Content-Type` header value.
pub fn boundary_of(content_type: &str) -> (r: Option<String>)
    ensures
        (match r {
            Some(boundary) => boundary_in(split(content_type@, ';').drop_first()) == Some(
                boundary@,
            ),
            None => boundary_in(split(content_type@, ';').drop_first()) is None,
        }),
{
    let chars = chars_of(content_type);
    let key_chars = chars_of("boundary");
    let params = split_chars(chars.as_slice(), ';');
    let ghost all = split(content_type@, ';').drop_first();
    let mut i: usize = 1;
    assert(all.skip(0) =~= all);
    while i < params.len()
        invariant
            1 <= i <= params@.len(),
            key_chars@ == "boundary"@,
            all == views(params@).drop_first(),
            all == split(content_type@, ';').drop_first(),
            boundary_in(all) == boundary_in(all.skip(i - 1)),
        decreases params@.len() - i,
    {
        assert(all.skip(i - 1)[0] == params@[i as int]@);
        assert(all.skip(i - 1).drop_first() =~= all.skip(i as int));
        let param = trim(params[i]);
        let p = find_char(param, '=');
        if p >= param.len() {
            return None;
        }
        if eq_ignore_case(trim(before(param, p)), key_chars.as_slice()) {
            let value = unquote(trim(from(param, p + 1)));
            if value.len() == 0 {
                return None;
            }
            return Some(string_of(value));
        }
        i += 1;
    }
    None
}

// ---------------------------------------------------------------------------
// Searching

/// Where `part` next stands in `s`, from a position on.
pub open spec fn next_at<T>(s: Seq<T>, part: Seq<T>, at: int) -> Option<int>
    decreases s.len() + 1 - at,
{
    if at < 0 || at > s.len() {
        None
    } else if occurs_at(s, part, at) {
        Some(at)
    } else {
        next_at(s, part, at + 1)
    }
}

/// Where `part` stands in `s`, from a position on, without overlaps.
pub open spec fn all_at(s: Seq<u8>, part: Seq<u8>, at: int) -> Seq<int>
    decreases s.len() - at,
{
    proof {
        lemma_next_at(s, part, at);
    }
    match next_at(s, part, at) {
        Some(p) => if part.len() == 0 {
            seq![]
        } else {
            seq![p] + all_at(s, part, p + part.len())
        },
        None => seq![],
    }
}

pub proof fn lemma_next_at<T>(s: Seq<T>, part: Seq<T>, at: int)
    ensures
        next_at(s, part, at) matches Some(p) ==> 0 <= at <= p && occurs_at(s, part, p) && p
            + part.len() <= s.len(),
        forall|k: int|
            0 <= at <= k && (next_at(s, part, at) matches Some(p) ==> k < p)
                ==> !#[trigger] occurs_at(s, part, k),
    decreases s.len() + 1 - at,
{
    if 0 <= at && at <= s.len() && !occurs_at(s, part, at) {
        lemma_next_at(s, part, at + 1);
    }
}

fn find_bytes(s: &[u8], part: &[u8], at: usize) -> (r: Option<usize>)
    requires
        at <= s@.len(),
    ensures
        (match r {
            Some(p) => next_at(s@, part@, at as int) == Some(p as int) && p + part@.len()
                <= s@.len() <= usize::MAX,
            None => next_at(s@, part@, at as int) is None,
        }),
{
    let n: usize = s.len();
    let mut i: usize = at;
    loop
        invariant
            at <= i <= n,
            n == s@.len(),
            next_at(s@, part@, at as int) == next_at(s@, part@, i as int),
        decreases s@.len() - i,
    {
        if bytes_at(s, part, i) {
            return Some(i);
        }
        if i >= n {
            assert(next_at(s@, part@, i + 1) is None);
            return None;
        }
        i += 1;
    }
}

fn find_chars(s: &[char], part: &[char], at: usize) -> (r: Option<usize>)
    requires
        at <= s@.len(),
    ensures
        (match r {
            Some(p) => next_at(s@, part@, at as int) == Some(p as int) && p + part@.len()
                <= s@.len() <= usize::MAX,
            None => next_at(s@, part@, at as int) is None,
        }),
{
    let n: usize = s.len();
    let mut i: usize = at;
    loop
        invariant
            at <= i <= n,
            n == s@.len(),
            next_at(s@, part@, at as int) == next_at(s@, part@, i as int),
        decreases s@.len() - i,
    {
        if n - i >= part.len() && same_chars(slice_subrange(s, i, i + part.len()), part) {
            return Some(i);
        }
        if i >= n {
            assert(next_at(s@, part@, i + 1) is None);
            return None;
        }
        i += 1;
    }
}

/// Positions as integers.
pub open spec fn as_ints(positions: Seq<usize>) -> Seq<int> {
    Seq::new(positions.len(), |i: int| positions[i] as int)
}

fn find_all(s: &[u8], part: &[u8]) -> (r: Vec<usize>)
    requires
        part@.len() > 0,
    ensures
        as_ints(r@) == all_at(s@, part@, 0),
        forall|i: int| 0 <= i < r@.len() ==> #[trigger] r@[i] + part@.len() <= s@.len(),
{
    let mut out: Vec<usize> = Vec::new();
    let mut at: usize = 0;
    assert(as_ints(out@) + all_at(s@, part@, 0) =~= all_at(s@, part@, 0));
    loop
        invariant
            at <= s@.len(),
            part@.len() > 0,
            as_ints(out@) + all_at(s@, part@, at as int) == all_at(s@, part@, 0),
            forall|i: int| 0 <= i < out@.len() ==> #[trigger] out@[i] + part@.len() <= s@.len(),
        decreases s@.len() - at,
    {
        proof {
            lemma_next_at(s@, part@, at as int);
        }
        match find_bytes(s, part, at) {
            Some(p) => {
                let ghost done = as_ints(out@);
                out.push(p);
                at = p + part.len();
                assert(as_ints(out@) =~= done + seq![p as int]);
                assert(done + (seq![p as int] + all_at(s@, part@, at as int)) =~= as_ints(out@)
                    + all_at(s@, part@, at as int));
            },
            None => {
                assert(as_ints(out@) =~= all_at(s@, part@, 0));
                return out;
            },
        }
    }
}

// ---------------------------------------------------------------------------
// Parameters

/// Whether a parameter may start behind a character. It must be a separator, so
/// that `filename` is not read inside `xfilename`.
pub open spec fn is_separator(c: char) -> bool {
    c == ';' || c == ' ' || c == '\t' || c == '*' || c == '"'
}

/// Where an unquoted value ends.
pub open spec fn bare_end(rest: Seq<char>) -> int
    decreases rest.len(),
{
    if rest.len() == 0 || rest[0] == ';' || rest[0] == '\r' || rest[0] == '\n' {
        0
    } else {
        1 + bare_end(rest.drop_first())
    }
}

/// The value at the start of some text: up to the closing quote where it is
/// quoted, with no unescaping, else up to the next separator. Where the quote is
/// not closed, all that is there.
pub open spec fn parameter_value(rest: Seq<char>) -> Seq<char> {
    if rest.len() > 0 && rest[0] == '"' {
        rest.skip(1).take(position(rest.skip(1), '"'))
    } else {
        trimmed(rest.take(bare_end(rest)))
    }
}

/// The value behind the first occurrence of `needle` that stands behind a
/// separator or at the start.
pub open spec fn parameter_from(header: Seq<char>, needle: Seq<char>, at: int) -> Option<Seq<char>>
    decreases header.len() + 1 - at,
{
    proof {
        lemma_next_at(header, needle, at);
    }
    match next_at(header, needle, at) {
        None => None,
        Some(p) => if needle.len() == 0 {
            None
        } else if p == 0 || is_separator(header[p - 1]) {
            Some(parameter_value(header.skip(p + needle.len())))
        } else {
            parameter_from(header, needle, p + needle.len())
        },
    }
}

/// The value of a `key="value"` parameter in a header line.
pub open spec fn parameter_in(header: Seq<char>, key: Seq<char>) -> Option<Seq<char>> {
    parameter_from(header, key + "="@, 0)
}

fn value_at(rest: &[char]) -> (r: String)
    ensures
        r@ == parameter_value(rest@),
{
    if rest.len() > 0 && rest[0] == '"' {
        let quoted = from(rest, 1);
        let p = find_char(quoted, '"');
        string_of(before(quoted, p))
    } else {
        let mut i: usize = 0;
        assert(rest@.skip(0) =~= rest@);
        while i < rest.len() && rest[i] != ';' && rest[i] != '\r' && rest[i] != '\n'
            invariant
                i <= rest@.len(),
                bare_end(rest@) == i + bare_end(rest@.skip(i as int)),
            decreases rest@.len() - i,
        {
            assert(rest@.skip(i as int)[0] == rest@[i as int]);
            assert(rest@.skip(i as int).drop_first() =~= rest@.skip(i + 1));
            i += 1;
        }
        assert(bare_end(rest@.skip(i as int)) == 0) by {
            if i < rest@.len() {
                assert(rest@.skip(i as int)[0] == rest@[i as int]);
            }
        }
        string_of(trim(before(rest, i)))
    }
}

/// Extract a `key="value"` parameter from a header line.
///
/// Deliberately literal about quoting: the value is taken up to the closing
/// quote with no unescaping, because a filename containing a quote or a
/// backslash is precisely what rule 920120 is looking for, and normalising it
/// here would hide it.
fn parameter_of(header: &[char], key: &str) -> (r: Option<String>)
    ensures
        (match r {
            Some(value) => parameter_in(header@, key@) == Some(value@),
            None => parameter_in(header@, key@) is None,
        }),
{
    let text = joined(key, "=");
    let needle_chars = chars_of(text.as_str());
    let needle = needle_chars.as_slice();
    proof {
        reveal_strlit("=");
        assert((key@ + "="@).len() > 0);
    }
    let mut at: usize = 0;
    loop
        invariant
            at <= header@.len(),
            needle@.len() > 0,
            needle@ == key@ + "="@,
            parameter_in(header@, key@) == parameter_from(header@, needle@, at as int),
        decreases header@.len() - at,
    {
        proof {
            lemma_next_at(header@, needle@, at as int);
        }
        match find_chars(header, needle, at) {
            None => {
                return None;
            },
            Some(p) => {
                if p == 0 || is_separating(header[p - 1]) {
                    return Some(value_at(from(header, p + needle.len())));
                }
                at = p + needle.len();
            },
        }
    }
}

fn is_separating(c: char) -> (r: bool)
    ensures
        r == is_separator(c),
{
    c == ';' || c == ' ' || c == '\t' || c == '*' || c == '"'
}

// ---------------------------------------------------------------------------
// Parts

/// A line without the carriage return at its end.
pub open spec fn without_return(line: Seq<u8>) -> Seq<u8> {
    if line.len() > 0 && line.last() == '\r' as u8 {
        line.drop_last()
    } else {
        line
    }
}

/// Where the headers of a part end and where its body starts: around the first
/// blank line, which is two CRLF or two LF in a row. A part with no blank line has
/// no body.
pub open spec fn header_and_body(raw: Seq<u8>) -> (int, int) {
    let long = next_at(raw, seq!['\r' as u8, '\n' as u8, '\r' as u8, '\n' as u8], 0);
    let short = next_at(raw, seq!['\n' as u8, '\n' as u8], 0);
    match (long, short) {
        (Some(i), Some(j)) => if i < j {
            (i, i + 4)
        } else {
            (j, j + 2)
        },
        (Some(i), None) => (i, i + 4),
        (None, Some(j)) => (j, j + 2),
        (None, None) => (raw.len() as int, raw.len() as int),
    }
}

/// The name of a header line. A line with no colon has an empty name.
pub open spec fn header_name(line: Seq<u8>) -> Seq<char> {
    let p = position(line, ':' as u8);
    if p >= line.len() {
        seq![]
    } else {
        trimmed(lossy_text(line.take(p)))
    }
}

/// A part with one more header line; an empty one does not count. The value is
/// the whole line, so the name stays in it.
pub open spec fn with_header_line(part: PartView, line: Seq<u8>) -> PartView {
    if line.len() == 0 {
        part
    } else {
        let name = header_name(line);
        let listed = PartView { header_lines: part.header_lines.push((name, line)), ..part };
        if same_ignoring_case(name, "content-disposition"@) {
            PartView {
                name: parameter_in(lossy_text(line), "name"@),
                filename: parameter_in(lossy_text(line), "filename"@),
                ..listed
            }
        } else {
            listed
        }
    }
}

/// A part with some header lines, which may still end in a carriage return.
pub open spec fn with_header_lines(lines: Seq<Seq<u8>>) -> PartView
    decreases lines.len(),
{
    if lines.len() == 0 {
        no_part()
    } else {
        with_header_line(with_header_lines(lines.drop_last()), without_return(lines.last()))
    }
}

/// The part that some bytes between two delimiters are.
pub open spec fn part_of(raw: Seq<u8>) -> PartView {
    let (header_end, body_start) = header_and_body(raw);
    PartView {
        content: raw.skip(body_start),
        ..with_header_lines(split(raw.take(header_end), '\n' as u8))
    }
}

fn add_header_line(part: &mut Part, line: &[u8])
    ensures
        final(part).deep_view() == with_header_line(old(part).deep_view(), line@),
{
    if line.len() == 0 {
        return;
    }
    let ghost start = part.deep_view();
    let p = find_byte(line, ':' as u8);
    let name: Vec<char> = if p < line.len() {
        let text = utf8_lossy(bytes_before(line, p));
        let chars = chars_of(text.as_str());
        slice_to_vec(trim(chars.as_slice()))
    } else {
        Vec::new()
    };
    assert(name@ =~= header_name(line@));
    part.header_lines.push((string_of(name.as_slice()), slice_to_vec(line)));
    assert(pairs_view(part.header_lines@) =~= start.header_lines.push((name@, line@)));
    let disposition = chars_of("content-disposition");
    if eq_ignore_case(name.as_slice(), disposition.as_slice()) {
        let value = chars_of(utf8_lossy(line).as_str());
        part.name = parameter_of(value.as_slice(), "name");
        part.filename = parameter_of(value.as_slice(), "filename");
    }
    assert(part.deep_view() =~= with_header_line(start, line@));
}

fn strip_return(line: &[u8]) -> (r: &[u8])
    ensures
        r@ == without_return(line@),
{
    if line.len() > 0 && line[line.len() - 1] == '\r' as u8 {
        let r = bytes_before(line, line.len() - 1);
        assert(r@ =~= line@.drop_last());
        r
    } else {
        line
    }
}

fn split_part(raw: &[u8]) -> (r: (usize, usize))
    ensures
        (r.0 as int, r.1 as int) == header_and_body(raw@),
        r.0 <= r.1 <= raw@.len(),
{
    let blank: [u8; 4] = ['\r' as u8, '\n' as u8, '\r' as u8, '\n' as u8];
    let short: [u8; 2] = ['\n' as u8, '\n' as u8];
    assert(blank@ =~= seq!['\r' as u8, '\n' as u8, '\r' as u8, '\n' as u8]);
    assert(short@ =~= seq!['\n' as u8, '\n' as u8]);
    match (find_bytes(raw, blank.as_slice(), 0), find_bytes(raw, short.as_slice(), 0)) {
        (Some(i), Some(j)) => if i < j {
            (i, i + 4)
        } else {
            (j, j + 2)
        },
        (Some(i), None) => (i, i + 4),
        (None, Some(j)) => (j, j + 2),
        (None, None) => (raw.len(), raw.len()),
    }
}

fn parse_part(raw: &[u8]) -> (r: Part)
    ensures
        r.deep_view() == part_of(raw@),
{
    let (header_end, body_start) = split_part(raw);
    let lines = split_bytes(bytes_before(raw, header_end), '\n' as u8);
    let ghost all = views(lines@);
    let mut part = Part::default();
    let mut i: usize = 0;
    assert(all.take(0) =~= seq![]);
    while i < lines.len()
        invariant
            i <= lines@.len(),
            all == views(lines@),
            part.deep_view() == with_header_lines(all.take(i as int)),
            body_start <= raw@.len(),
            (header_end as int, body_start as int) == header_and_body(raw@),
        decreases lines@.len() - i,
    {
        assert(all.take(i + 1).drop_last() =~= all.take(i as int));
        assert(all.take(i + 1).last() == lines@[i as int]@);
        add_header_line(&mut part, strip_return(lines[i]));
        i += 1;
    }
    assert(all.take(i as int) =~= all);
    let ghost headed = part.deep_view();
    part.content = slice_to_vec(bytes_from(raw, body_start));
    assert(part.deep_view() =~= (PartView {
        content: raw@.skip(body_start as int),
        ..headed
    }));
    part
}

// ---------------------------------------------------------------------------
// Bodies

/// Where the line break that must follow a delimiter ends.
pub open spec fn line_break_end(body: Seq<u8>, at: int) -> Option<int> {
    if occurs_at(body, seq!['\r' as u8, '\n' as u8], at) {
        Some(at + 2)
    } else if occurs_at(body, seq!['\n' as u8], at) {
        Some(at + 1)
    } else {
        None
    }
}

/// Where the content before a delimiter ends: without the line break between.
pub open spec fn content_end(body: Seq<u8>, next: int) -> int {
    if occurs_at(body, seq!['\r' as u8, '\n' as u8], next - 2) {
        next - 2
    } else if occurs_at(body, seq!['\n' as u8], next - 1) {
        next - 1
    } else {
        next
    }
}

/// The parts behind delimiters at some positions. `--` behind a delimiter closes
/// the body, and a delimiter not followed by a line break is not a real one.
pub open spec fn parts_at(body: Seq<u8>, positions: Seq<int>, length: int) -> Seq<PartView>
    decreases positions.len(),
{
    if positions.len() == 0 {
        seq![]
    } else {
        let after = positions[0] + length;
        let rest = parts_at(body, positions.drop_first(), length);
        let end = if positions.len() > 1 {
            content_end(body, positions[1])
        } else {
            body.len() as int
        };
        if occurs_at(body, seq!['-' as u8, '-' as u8], after) {
            seq![]
        } else {
            match line_break_end(body, after) {
                Some(start) => if end < start {
                    rest
                } else {
                    seq![part_of(body.subrange(start, end))] + rest
                },
                None => rest,
            }
        }
    }
}

/// The delimiter of a boundary.
pub open spec fn delimiter(boundary: Seq<char>) -> Seq<u8> {
    encode_utf8("--"@ + boundary)
}

/// What a multipart body yields: its parts, or why it has no usable structure.
pub open spec fn parsed(body: Seq<u8>, boundary: Seq<char>) -> Result<Seq<PartView>, Seq<char>> {
    let mark = delimiter(boundary);
    let positions = all_at(body, mark, 0);
    let parts = parts_at(body, positions, mark.len() as int);
    if positions.len() == 0 {
        Err("no boundary found in multipart body"@)
    } else if parts.len() == 0 {
        Err("multipart body contains no parts"@)
    } else {
        Ok(parts)
    }
}

/// Skip the CRLF or LF that must follow a boundary delimiter.
fn skip_line_break(body: &[u8], at: usize) -> (r: Option<usize>)
    requires
        at <= body@.len(),
    ensures
        (match r {
            Some(end) => line_break_end(body@, at as int) == Some(end as int) && at < end
                <= body@.len(),
            None => line_break_end(body@, at as int) is None,
        }),
{
    let long: [u8; 2] = ['\r' as u8, '\n' as u8];
    let short: [u8; 1] = ['\n' as u8];
    assert(long@ =~= seq!['\r' as u8, '\n' as u8]);
    assert(short@ =~= seq!['\n' as u8]);
    let n: usize = body.len();
    if bytes_at(body, long.as_slice(), at) {
        Some(at + 2)
    } else if bytes_at(body, short.as_slice(), at) {
        Some(at + 1)
    } else {
        None
    }
}

/// A part's content excludes the line break that precedes the next boundary.
fn trim_trailing_break(body: &[u8], next: usize) -> (r: usize)
    requires
        next <= body@.len(),
    ensures
        r as int == content_end(body@, next as int),
        r <= next,
{
    let long: [u8; 2] = ['\r' as u8, '\n' as u8];
    let short: [u8; 1] = ['\n' as u8];
    assert(long@ =~= seq!['\r' as u8, '\n' as u8]);
    assert(short@ =~= seq!['\n' as u8]);
    if next >= 2 && bytes_at(body, long.as_slice(), next - 2) {
        next - 2
    } else if next >= 1 && bytes_at(body, short.as_slice(), next - 1) {
        next - 1
    } else {
        next
    }
}

/// Parse a multipart body.
///
/// Returns an error when the body has no usable structure, which the caller
/// surfaces as `REQBODY_ERROR`. A body that cannot be split into parts must
/// not be reported as clean.
pub fn parse(body: &[u8], boundary: &str) -> (r: Result<Multipart, String>)
    ensures
        (match r {
            Ok(m) => parsed(body@, boundary@) == Ok::<Seq<PartView>, Seq<char>>(
                m.parts.deep_view(),
            ),
            Err(e) => parsed(body@, boundary@) == Err::<Seq<PartView>, Seq<char>>(e@),
        }),
{
    let mark = bytes_of(joined("--", boundary).as_str());
    proof {
        reveal_strlit("--");
        lemma_encode_nonempty("--"@ + boundary@);
    }
    let positions = find_all(body, mark.as_slice());
    let ghost all = as_ints(positions@);
    let length: usize = mark.len();
    if positions.len() == 0 {
        return Err("no boundary found in multipart body".to_string());
    }
    let close: [u8; 2] = ['-' as u8, '-' as u8];
    assert(close@ =~= seq!['-' as u8, '-' as u8]);
    let mut out = Multipart::default();
    let mut i: usize = 0;
    assert(all.skip(0) =~= all);
    assert(out.parts.deep_view() + parts_at(body@, all, length as int) =~= parts_at(
        body@,
        all,
        length as int,
    ));
    while i < positions.len()
        invariant_except_break
            out.parts.deep_view() + parts_at(body@, all.skip(i as int), length as int) == parts_at(
                body@,
                all,
                length as int,
            ),
        invariant
            i <= positions@.len(),
            all == as_ints(positions@),
            close@ == seq!['-' as u8, '-' as u8],
            forall|k: int|
                0 <= k < positions@.len() ==> #[trigger] positions@[k] + length <= body@.len(),
        ensures
            out.parts.deep_view() == parts_at(body@, all, length as int),
        decreases positions@.len() - i,
    {
        let ghost done = out.parts.deep_view();
        let ghost rest = all.skip(i as int);
        assert(rest[0] == all[i as int]);
        assert(rest.drop_first() =~= all.skip(i + 1));
        assert(positions@[i as int] + length <= body@.len());
        let n: usize = body.len();
        let after: usize = positions[i] + length;
        if bytes_at(body, close.as_slice(), after) {
            assert(out.parts.deep_view() =~= parts_at(body@, all, length as int));
            break;
        }
        if let Some(start) = skip_line_break(body, after) {
            let end = if i + 1 < positions.len() {
                assert(rest[1] == all[i + 1]);
                assert(positions@[i + 1] + length <= body@.len());
                trim_trailing_break(body, positions[i + 1])
            } else {
                n
            };
            if end >= start {
                let part = parse_part(slice_subrange(body, start, end));
                let ghost shown = part.deep_view();
                out.parts.push(part);
                assert(out.parts.deep_view() =~= done + seq![shown]);
                assert(done + (seq![shown] + parts_at(body@, all.skip(i + 1), length as int))
                    =~= out.parts.deep_view() + parts_at(body@, all.skip(i + 1), length as int));
            }
        }
        i += 1;
        assert(i == positions@.len() ==> out.parts.deep_view() =~= parts_at(
            body@,
            all,
            length as int,
        ));
    }
    if out.parts.len() == 0 {
        return Err("multipart body contains no parts".to_string());
    }
    Ok(out)
}

// ---------------------------------------------------------------------------
// Laws

/// Whether bytes stand somewhere in a range of a body.
pub open spec fn stands_within(body: Seq<u8>, piece: Seq<u8>, start: int, end: int) -> bool {
    exists|at: int|
        start <= at && at + piece.len() <= end && #[trigger] occurs_at(body, piece, at)
}

/// Whether a part holds only bytes of a range of a body: its content and each of
/// its header lines stand there as they are.
pub open spec fn is_literal(body: Seq<u8>, part: PartView, start: int, end: int) -> bool {
    &&& stands_within(body, part.content, start, end)
    &&& forall|k: int|
        0 <= k < part.header_lines.len() ==> stands_within(
            body,
            (#[trigger] part.header_lines[k]).1,
            start,
            end,
        )
}

proof fn lemma_piece_stands(body: Seq<u8>, start: int, end: int, from_: int, to: int)
    requires
        0 <= start <= end <= body.len(),
        0 <= from_ <= to <= end - start,
    ensures
        stands_within(body, body.subrange(start, end).subrange(from_, to), start, end),
{
    let piece = body.subrange(start, end).subrange(from_, to);
    assert(piece =~= body.subrange(start + from_, start + to));
    assert(occurs_at(body, piece, start + from_));
}

/// Whether bytes stand in others, from a position on.
spec fn stands_from(s: Seq<u8>, piece: Seq<u8>, base: int) -> bool {
    exists|at: int| base <= at && #[trigger] occurs_at(s, piece, at)
}

/// Whether every line in a list stands in some bytes, from a position on.
spec fn lines_stand(s: Seq<u8>, lines: Seq<Seq<u8>>, base: int) -> bool {
    forall|k: int| 0 <= k < lines.len() ==> stands_from(s, #[trigger] lines[k], base)
}

proof fn lemma_split_stands(s: Seq<u8>, base: int, b: u8)
    requires
        0 <= base <= s.len(),
    ensures
        lines_stand(s, split(s.skip(base), b), base),
    decreases s.len() - base,
{
    let rest = s.skip(base);
    lemma_position(rest, b);
    let p = position(rest, b);
    let pieces = split(rest, b);
    if p >= rest.len() {
        assert(s.subrange(base, base + rest.len()) =~= rest);
        assert(occurs_at(s, rest, base));
        assert(pieces =~= seq![rest]);
    } else {
        let more = split(rest.skip(p + 1), b);
        assert(rest.skip(p + 1) =~= s.skip(base + p + 1));
        lemma_split_stands(s, base + p + 1, b);
        assert(s.subrange(base, base + p) =~= rest.take(p));
        assert(occurs_at(s, rest.take(p), base));
        assert forall|k: int| 0 <= k < pieces.len() implies stands_from(
            s,
            #[trigger] pieces[k],
            base,
        ) by {
            if k == 0 {
                assert(pieces[0] == rest.take(p));
            } else {
                assert(pieces[k] == more[k - 1]);
                assert(stands_from(s, more[k - 1], base + p + 1));
            }
        }
    }
}

proof fn lemma_header_lines_stand(raw: Seq<u8>, lines: Seq<Seq<u8>>)
    requires
        lines_stand(raw, lines, 0),
    ensures
        forall|k: int|
            0 <= k < with_header_lines(lines).header_lines.len() ==> stands_from(
                raw,
                (#[trigger] with_header_lines(lines).header_lines[k]).1,
                0,
            ),
    decreases lines.len(),
{
    if lines.len() > 0 {
        let shorter = lines.drop_last();
        assert forall|k: int| 0 <= k < shorter.len() implies stands_from(
            raw,
            #[trigger] shorter[k],
            0,
        ) by {
            assert(shorter[k] == lines[k]);
        }
        lemma_header_lines_stand(raw, shorter);
        let earlier = with_header_lines(shorter).header_lines;
        let all = with_header_lines(lines).header_lines;
        let last = lines[lines.len() - 1];
        let line = without_return(last);
        assert(stands_from(raw, last, 0));
        let at = choose|at: int| 0 <= at && #[trigger] occurs_at(raw, last, at);
        assert(raw.subrange(at, at + line.len()) =~= last.subrange(0, line.len() as int));
        assert(last.subrange(0, line.len() as int) =~= line);
        assert(occurs_at(raw, line, at));
        assert forall|k: int| 0 <= k < all.len() implies stands_from(
            raw,
            (#[trigger] all[k]).1,
            0,
        ) by {
            if k < earlier.len() {
                assert(all[k] == earlier[k]);
            } else {
                assert(all[k].1 == line);
            }
        }
    }
}

proof fn lemma_part_is_literal(body: Seq<u8>, start: int, end: int)
    requires
        0 <= start <= end <= body.len(),
    ensures
        is_literal(body, part_of(body.subrange(start, end)), start, end),
{
    let raw = body.subrange(start, end);
    let (header_end, body_start) = header_and_body(raw);
    lemma_next_at(raw, seq!['\r' as u8, '\n' as u8, '\r' as u8, '\n' as u8], 0);
    lemma_next_at(raw, seq!['\n' as u8, '\n' as u8], 0);
    assert(raw.skip(body_start) =~= raw.subrange(body_start, end - start));
    lemma_piece_stands(body, start, end, body_start, end - start);
    let head = raw.take(header_end);
    let lines = split(head, '\n' as u8);
    assert(head.skip(0) =~= head);
    lemma_split_stands(head, 0, '\n' as u8);
    assert(lines_stand(raw, lines, 0)) by {
        assert forall|k: int| 0 <= k < lines.len() implies stands_from(
            raw,
            #[trigger] lines[k],
            0,
        ) by {
            assert(stands_from(head, lines[k], 0));
            let at = choose|at: int| 0 <= at && #[trigger] occurs_at(head, lines[k], at);
            assert(raw.subrange(at, at + lines[k].len()) =~= head.subrange(
                at,
                at + lines[k].len(),
            ));
            assert(occurs_at(raw, lines[k], at));
        }
    }
    lemma_header_lines_stand(raw, lines);
    let part = part_of(raw);
    assert forall|k: int| 0 <= k < part.header_lines.len() implies stands_within(
        body,
        (#[trigger] part.header_lines[k]).1,
        start,
        end,
    ) by {
        let line = with_header_lines(lines).header_lines[k].1;
        assert(stands_from(raw, line, 0));
        let at = choose|at: int| 0 <= at && #[trigger] occurs_at(raw, line, at);
        assert(raw.subrange(at, at + line.len()) =~= line);
        lemma_piece_stands(body, start, end, at, at + line.len());
    }
}

/// Whether a range of a body holds no delimiter.
pub open spec fn holds_none(body: Seq<u8>, mark: Seq<u8>, start: int, end: int) -> bool {
    forall|k: int| start <= k && k + mark.len() <= end ==> !#[trigger] occurs_at(body, mark, k)
}

/// Whether a part is literal in a range of a body that holds no delimiter.
pub open spec fn is_between_delimiters(body: Seq<u8>, mark: Seq<u8>, part: PartView) -> bool {
    exists|start: int, end: int|
        0 <= start <= end <= body.len() && #[trigger] is_literal(body, part, start, end)
            && holds_none(body, mark, start, end)
}

/// What the positions of delimiters are: each holds one, and none stands between
/// two of them, nor behind the last.
spec fn are_delimiters(body: Seq<u8>, mark: Seq<u8>, positions: Seq<int>) -> bool {
    forall|i: int|
        0 <= i < positions.len() ==> 0 <= #[trigger] positions[i] && positions[i] + mark.len()
            <= body.len() && holds_none(
            body,
            mark,
            positions[i] + mark.len(),
            if i + 1 < positions.len() {
                positions[i + 1]
            } else {
                body.len() as int
            },
        ) && (i + 1 < positions.len() ==> positions[i] + mark.len() <= positions[i + 1])
}

proof fn lemma_all_at(body: Seq<u8>, mark: Seq<u8>, at: int)
    requires
        0 <= at,
        mark.len() > 0,
    ensures
        are_delimiters(body, mark, all_at(body, mark, at)),
        all_at(body, mark, at).len() > 0 ==> all_at(body, mark, at)[0] >= at,
        holds_none(
            body,
            mark,
            at,
            if all_at(body, mark, at).len() > 0 {
                all_at(body, mark, at)[0]
            } else {
                body.len() as int
            },
        ),
    decreases body.len() - at,
{
    lemma_next_at(body, mark, at);
    let all = all_at(body, mark, at);
    if let Some(p) = next_at(body, mark, at) {
        let rest = all_at(body, mark, p + mark.len());
        lemma_all_at(body, mark, p + mark.len());
        assert forall|i: int| 0 <= i < all.len() implies 0 <= #[trigger] all[i] && all[i]
            + mark.len() <= body.len() && holds_none(
            body,
            mark,
            all[i] + mark.len(),
            if i + 1 < all.len() {
                all[i + 1]
            } else {
                body.len() as int
            },
        ) && (i + 1 < all.len() ==> all[i] + mark.len() <= all[i + 1]) by {
            if i == 0 {
                assert(all[0] == p);
                if all.len() > 1 {
                    assert(all[1] == rest[0]);
                }
            } else {
                assert(all[i] == rest[i - 1]);
                if i + 1 < all.len() {
                    assert(all[i + 1] == rest[i]);
                }
            }
        }
    }
}

proof fn lemma_parts_between(body: Seq<u8>, mark: Seq<u8>, positions: Seq<int>)
    requires
        mark.len() > 0,
        are_delimiters(body, mark, positions),
    ensures
        ({
            let parts = parts_at(body, positions, mark.len() as int);
            forall|k: int|
                0 <= k < parts.len() ==> is_between_delimiters(body, mark, #[trigger] parts[k])
        }),
    decreases positions.len(),
{
    if positions.len() > 0 {
        let shorter = positions.drop_first();
        assert(are_delimiters(body, mark, shorter)) by {
            assert forall|i: int| 0 <= i < shorter.len() implies 0 <= #[trigger] shorter[i]
                && shorter[i] + mark.len() <= body.len() && holds_none(
                body,
                mark,
                shorter[i] + mark.len(),
                if i + 1 < shorter.len() {
                    shorter[i + 1]
                } else {
                    body.len() as int
                },
            ) && (i + 1 < shorter.len() ==> shorter[i] + mark.len() <= shorter[i + 1]) by {
                assert(shorter[i] == positions[i + 1]);
                if i + 1 < shorter.len() {
                    assert(shorter[i + 1] == positions[i + 2]);
                }
            }
        }
        lemma_parts_between(body, mark, shorter);
        let length = mark.len() as int;
        let parts = parts_at(body, positions, length);
        let rest = parts_at(body, shorter, length);
        let after = positions[0] + length;
        let end = if positions.len() > 1 {
            content_end(body, positions[1])
        } else {
            body.len() as int
        };
        assert(positions[0] + mark.len() <= body.len());
        if positions.len() > 1 {
            assert(0 <= positions[1] <= body.len());
        }
        assert forall|k: int| 0 <= k < parts.len() implies is_between_delimiters(
            body,
            mark,
            #[trigger] parts[k],
        ) by {
            if let Some(start) = line_break_end(body, after) {
                if end >= start && k == 0 {
                    lemma_part_is_literal(body, start, end);
                    assert(parts[0] == part_of(body.subrange(start, end)));
                    assert(holds_none(body, mark, start, end));
                    assert(is_literal(body, parts[0], start, end));
                } else if end >= start {
                    assert(parts[k] == rest[k - 1]);
                } else {
                    assert(parts[k] == rest[k]);
                }
            } else {
                assert(parts[k] == rest[k]);
            }
        }
    }
}

/// The parser is literal: the content and the header lines of a part stand in the
/// body as they are, in a stretch of it that holds no delimiter.
pub proof fn parts_are_literal(body: Seq<u8>, boundary: Seq<char>, k: int)
    requires
        parsed(body, boundary) is Ok,
        0 <= k < parsed(body, boundary)->Ok_0.len(),
    ensures
        is_between_delimiters(body, delimiter(boundary), parsed(body, boundary)->Ok_0[k]),
{
    reveal_strlit("--");
    lemma_encode_nonempty("--"@ + boundary);
    lemma_all_at(body, delimiter(boundary), 0);
    lemma_parts_between(body, delimiter(boundary), all_at(body, delimiter(boundary), 0));
}

/// A body in which the delimiter does not occur is an error, never a body without
/// parts.
pub proof fn a_body_without_delimiter_is_refused(body: Seq<u8>, boundary: Seq<char>)
    requires
        !occurs_in(body, delimiter(boundary)),
    ensures
        parsed(body, boundary) == Err::<Seq<PartView>, Seq<char>>(
            "no boundary found in multipart body"@,
        ),
{
    lemma_next_at(body, delimiter(boundary), 0);
}

proof fn lemma_same_bytes_occur(head: Seq<u8>, tail: Seq<u8>, part: Seq<u8>, at: int)
    requires
        at + part.len() <= head.len(),
    ensures
        occurs_at(head, part, at) == occurs_at(head + tail, part, at),
{
    if 0 <= at {
        assert((head + tail).subrange(at, at + part.len()) =~= head.subrange(
            at,
            at + part.len(),
        ));
    }
}

proof fn lemma_same_next(head: Seq<u8>, tail: Seq<u8>, mark: Seq<u8>, at: int)
    requires
        next_at(head, mark, at) is Some,
    ensures
        next_at(head + tail, mark, at) == next_at(head, mark, at),
    decreases head.len() + 1 - at,
{
    lemma_next_at(head, mark, at);
    let p = next_at(head, mark, at)->0;
    lemma_same_bytes_occur(head, tail, mark, at);
    if p != at {
        lemma_same_next(head, tail, mark, at + 1);
    }
}

proof fn lemma_same_part(head: Seq<u8>, tail: Seq<u8>, after: int, next: int)
    requires
        0 <= after <= next,
        next + 2 <= head.len(),
    ensures
        ({
            let whole = head + tail;
            let close = seq!['-' as u8, '-' as u8];
            &&& occurs_at(head, close, after) == occurs_at(whole, close, after)
            &&& line_break_end(head, after) == line_break_end(whole, after)
            &&& content_end(head, next) == content_end(whole, next)
            &&& content_end(head, next) <= next
        }),
{
    lemma_same_bytes_occur(head, tail, seq!['-' as u8, '-' as u8], after);
    lemma_same_bytes_occur(head, tail, seq!['\r' as u8, '\n' as u8], after);
    lemma_same_bytes_occur(head, tail, seq!['\n' as u8], after);
    lemma_same_bytes_occur(head, tail, seq!['\r' as u8, '\n' as u8], next - 2);
    lemma_same_bytes_occur(head, tail, seq!['\n' as u8], next - 1);
}

proof fn lemma_epilogue(head: Seq<u8>, tail: Seq<u8>, mark: Seq<u8>, at: int)
    requires
        0 <= at,
        mark.len() > 0,
        head.len() >= mark.len() + 2,
        occurs_at(head, seq!['-' as u8, '-' as u8], head.len() - 2),
        all_at(head, mark, at).contains(head.len() - 2 - mark.len()),
    ensures
        parts_at(head, all_at(head, mark, at), mark.len() as int) == parts_at(
            head + tail,
            all_at(head + tail, mark, at),
            mark.len() as int,
        ),
        all_at(head + tail, mark, at).len() > 0,
    decreases head.len() - at,
{
    let whole = head + tail;
    let length = mark.len() as int;
    let close = head.len() - 2 - length;
    lemma_next_at(head, mark, at);
    lemma_same_next(head, tail, mark, at);
    let q = next_at(head, mark, at)->0;
    let one = all_at(head, mark, at);
    let two = all_at(whole, mark, at);
    let rest = all_at(head, mark, q + length);
    let later = all_at(whole, mark, q + length);
    lemma_next_at(whole, mark, at);
    assert(one =~= seq![q] + rest);
    assert(two =~= seq![q] + later);
    assert(one.drop_first() =~= rest);
    assert(two.drop_first() =~= later);
    if q == close {
        lemma_same_bytes_occur(head, tail, seq!['-' as u8, '-' as u8], head.len() - 2);
    } else {
        let k = choose|k: int| 0 <= k < one.len() && one[k] == close;
        assert(rest[k - 1] == close);
        assert(rest.contains(close));
        lemma_epilogue(head, tail, mark, q + length);
        lemma_next_at(head, mark, q + length);
        lemma_same_next(head, tail, mark, q + length);
        let next = next_at(head, mark, q + length)->0;
        assert(rest[0] == next);
        assert(later[0] == next);
        assert(one[1] == next && two[1] == next);
        lemma_all_at(head, mark, q + length);
        lemma_ascending(head, mark, rest, k - 1);
        lemma_same_part(head, tail, q + length, next);
        let end = content_end(head, next);
        if let Some(start) = line_break_end(head, q + length) {
            if start <= end {
                assert(whole.subrange(start, end) =~= head.subrange(start, end));
            }
        }
    }
}

proof fn lemma_ascending(body: Seq<u8>, mark: Seq<u8>, positions: Seq<int>, k: int)
    requires
        are_delimiters(body, mark, positions),
        0 <= k < positions.len(),
    ensures
        positions[0] <= positions[k],
    decreases k,
{
    if k > 0 {
        lemma_ascending(body, mark, positions, k - 1);
        assert(positions[k - 1] + mark.len() <= positions[k - 1 + 1]);
    }
}

/// What follows the closing delimiter yields no part: a body that ends with it
/// parses the same with anything behind it.
pub proof fn the_epilogue_is_ignored(head: Seq<u8>, tail: Seq<u8>, boundary: Seq<char>)
    requires
        occurs_at(head, seq!['-' as u8, '-' as u8], head.len() - 2),
        all_at(head, delimiter(boundary), 0).contains(head.len() - 2 - delimiter(boundary).len()),
    ensures
        parsed(head + tail, boundary) == parsed(head, boundary),
{
    reveal_strlit("--");
    lemma_encode_nonempty("--"@ + boundary);
    let mark = delimiter(boundary);
    let positions = all_at(head, mark, 0);
    let k = choose|k: int| 0 <= k < positions.len() && positions[k] == head.len() - 2 - mark.len();
    lemma_all_at(head, mark, 0);
    assert(0 <= positions[k]);
    lemma_epilogue(head, tail, mark, 0);
}

} // verus!
