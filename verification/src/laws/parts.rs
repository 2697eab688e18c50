//! What a multipart body is taken apart into: its parts in order, each with its
//! headers and its content as they are.

use crate::bytes::lossy_text;
use crate::bytes::occurs_at;
use crate::multipart::all_at;
use crate::multipart::bare_end;
use crate::multipart::boundary_in;
use crate::multipart::content_end;
use crate::multipart::delimiter;
use crate::multipart::lemma_next_at;
use crate::multipart::line_break_end;
use crate::multipart::next_at;
use crate::multipart::parameter_in;
use crate::multipart::parsed;
use crate::multipart::part_of;
use crate::multipart::parts_at;
use crate::multipart::with_header_lines;
use crate::multipart::PartView;
use crate::laws::phases::lemma_untrimmed;
use crate::laws::targets::names_are_compared_by_their_letters;
use crate::laws::targets::reads_the_same;
use crate::text::is_white;
use crate::text::lemma_position_is;
use crate::text::split;
use crate::text::trimmed;
use vstd::prelude::*;
use vstd::utf8::encode_utf8;

verus! {

/// A line break.
pub open spec fn line_break() -> Seq<u8> {
    seq![0x0du8, 0x0au8]
}

/// Whether some bytes are a line break, with or without its carriage return.
pub open spec fn is_break(s: Seq<u8>) -> bool {
    s == line_break() || s == seq![0x0au8]
}

proof fn lemma_occurs_shift<T>(pre: Seq<T>, s: Seq<T>, part: Seq<T>, k: int)
    requires
        k >= 0,
    ensures
        occurs_at(pre + s, part, pre.len() + k) == occurs_at(s, part, k),
{
    if k + part.len() <= s.len() {
        assert((pre + s).subrange(pre.len() + k, pre.len() + k + part.len()) =~= s.subrange(
            k,
            k + part.len(),
        ));
    }
}

proof fn lemma_next_shift<T>(pre: Seq<T>, s: Seq<T>, part: Seq<T>, at: int)
    requires
        at >= 0,
    ensures
        next_at(pre + s, part, pre.len() + at) == match next_at(s, part, at) {
            Some(p) => Some(pre.len() + p),
            None => None,
        },
    decreases s.len() + 1 - at,
{
    if at <= s.len() {
        lemma_occurs_shift(pre, s, part, at);
        if !occurs_at(s, part, at) {
            lemma_next_shift(pre, s, part, at + 1);
            assert(pre.len() + at + 1 == pre.len() + (at + 1));
        }
    }
}

spec fn shifted(positions: Seq<int>, n: int) -> Seq<int> {
    Seq::new(positions.len(), |i: int| positions[i] + n)
}

proof fn lemma_all_shift(pre: Seq<u8>, s: Seq<u8>, part: Seq<u8>, at: int)
    requires
        at >= 0,
        part.len() > 0,
    ensures
        all_at(pre + s, part, pre.len() + at) == shifted(all_at(s, part, at), pre.len() as int),
    decreases s.len() - at,
{
    lemma_next_shift(pre, s, part, at);
    lemma_next_at(s, part, at);
    match next_at(s, part, at) {
        Some(p) => {
            lemma_all_shift(pre, s, part, p + part.len());
            assert(pre.len() + p + part.len() == pre.len() + (p + part.len()));
            assert(all_at(pre + s, part, pre.len() + at) =~= shifted(
                all_at(s, part, at),
                pre.len() as int,
            ));
        },
        None => {
            assert(all_at(pre + s, part, pre.len() + at) =~= shifted(
                all_at(s, part, at),
                pre.len() as int,
            ));
        },
    }
}

proof fn lemma_positions(s: Seq<u8>, part: Seq<u8>, at: int)
    requires
        at >= 0,
        part.len() > 0,
    ensures
        forall|i: int|
            0 <= i < all_at(s, part, at).len() ==> at <= #[trigger] all_at(s, part, at)[i] && all_at(
                s,
                part,
                at,
            )[i] + part.len() <= s.len() && (i > 0 ==> all_at(s, part, at)[i] >= part.len()),
    decreases s.len() - at,
{
    lemma_next_at(s, part, at);
    if let Some(p) = next_at(s, part, at) {
        let rest = all_at(s, part, p + part.len());
        lemma_positions(s, part, p + part.len());
        assert forall|i: int|
            0 <= i < all_at(s, part, at).len() implies at <= #[trigger] all_at(s, part, at)[i]
            && all_at(s, part, at)[i] + part.len() <= s.len() && (i > 0 ==> all_at(s, part, at)[i]
            >= part.len()) by {
            if i > 0 {
                assert(all_at(s, part, at)[i] == rest[i - 1]);
            }
        }
    }
}

proof fn lemma_parts_shift(pre: Seq<u8>, s: Seq<u8>, positions: Seq<int>, length: int)
    requires
        length >= 2,
        forall|i: int|
            0 <= i < positions.len() ==> 0 <= #[trigger] positions[i] && positions[i] + length
                <= s.len() && (i > 0 ==> positions[i] >= length),
    ensures
        parts_at(pre + s, shifted(positions, pre.len() as int), length) == parts_at(
            s,
            positions,
            length,
        ),
    decreases positions.len(),
{
    let n = pre.len() as int;
    let moved = shifted(positions, n);
    let whole = pre + s;
    if positions.len() > 0 {
        let rest = positions.drop_first();
        assert(moved.drop_first() =~= shifted(rest, n));
        assert forall|i: int| 0 <= i < rest.len() implies 0 <= #[trigger] rest[i] && rest[i] + length
            <= s.len() && (i > 0 ==> rest[i] >= length) by {
            assert(rest[i] == positions[i + 1]);
        }
        lemma_parts_shift(pre, s, rest, length);
        let after = positions[0] + length;
        assert(moved[0] + length == n + after);
        lemma_occurs_shift(pre, s, seq!['-' as u8, '-' as u8], after);
        lemma_occurs_shift(pre, s, seq!['\r' as u8, '\n' as u8], after);
        lemma_occurs_shift(pre, s, seq!['\n' as u8], after);
        let end = if positions.len() > 1 {
            content_end(s, positions[1])
        } else {
            s.len() as int
        };
        let moved_end = if moved.len() > 1 {
            content_end(whole, moved[1])
        } else {
            whole.len() as int
        };
        if positions.len() > 1 {
            assert(moved[1] == n + positions[1]);
            lemma_occurs_shift(pre, s, seq!['\r' as u8, '\n' as u8], positions[1] - 2);
            lemma_occurs_shift(pre, s, seq!['\n' as u8], positions[1] - 1);
            assert(moved[1] - 2 == n + (positions[1] - 2));
            assert(moved[1] - 1 == n + (positions[1] - 1));
        }
        assert(moved_end == n + end);
        if let Some(start) = line_break_end(s, after) {
            assert(line_break_end(whole, n + after) == Some(n + start));
            if end >= start {
                assert(whole.subrange(n + start, n + end) =~= s.subrange(start, end));
            }
        }
    }
}

/// The parts of a body, or none where it has no usable structure.
pub open spec fn parts_in(body: Seq<u8>, boundary: Seq<char>) -> Seq<PartView> {
    match parsed(body, boundary) {
        Ok(parts) => parts,
        Err(_) => Seq::<PartView>::empty(),
    }
}

/// What a boundary is written as between parts.
pub open spec fn mark_of(boundary: Seq<char>) -> Seq<u8> {
    encode_utf8(seq!['-', '-'] + boundary)
}

proof fn lemma_mark(boundary: Seq<char>)
    ensures
        delimiter(boundary) == mark_of(boundary),
        mark_of(boundary).len() >= 2,
{
    reveal_strlit("--");
    assert("--"@ =~= seq!['-', '-']);
    crate::bytes::lemma_encode_nonempty(seq!['-', '-'] + boundary);
}

/// What stands between two delimiters is one part, without the line breaks next to
/// them, which may lack their carriage return; the parts behind it follow in order. A delimiter with `--` behind it closes
/// the body.
pub proof fn parts_stand_between_delimiters(
    boundary: Seq<char>,
    first: Seq<u8>,
    raw: Seq<u8>,
    last: Seq<u8>,
    tail: Seq<u8>,
)
    requires
        is_break(first),
        is_break(last),
        last.len() == 1 && raw.len() > 0 ==> raw.last() != 0x0d,
        ({
            let mark = mark_of(boundary);
            let body = mark + first + raw + last + mark + tail;
            // The boundary stands nowhere within the part.
            forall|k: int|
                0 < k < mark.len() + first.len() + raw.len() + last.len() ==> !#[trigger] occurs_at(
                    body,
                    mark,
                    k,
                )
        }),
    ensures
        ({
            let mark = mark_of(boundary);
            let body = mark + first + raw + last + mark + tail;
            parts_in(body, boundary) == seq![part_of(raw)] + parts_in(mark + tail, boundary)
        }),
        parts_in(mark_of(boundary) + seq![0x2du8, 0x2du8] + tail, boundary).len() == 0,
{
    let mark = mark_of(boundary);
    lemma_mark(boundary);
    let m = mark.len() as int;
    let pre = mark + first + raw + last;
    let rest = mark + tail;
    let body = mark + first + raw + last + mark + tail;
    let n = pre.len() as int;
    assert(body =~= pre + rest);
    assert(body.subrange(0, m) =~= mark);
    assert(occurs_at(body, mark, 0));
    assert(rest.subrange(0, m) =~= mark);
    assert(occurs_at(rest, mark, 0));
    lemma_next_at(body, mark, m);
    lemma_occurs_shift(pre, rest, mark, 0);
    assert(n == m + first.len() + raw.len() + last.len());
    assert(next_at(body, mark, m) == Some(n)) by {
        assert(occurs_at(body, mark, n));
        if let Some(p) = next_at(body, mark, m) {
            if p < n {
                assert(!occurs_at(body, mark, p));
            }
        }
    }
    lemma_all_shift(pre, rest, mark, 0);
    let tail_positions = all_at(rest, mark, 0);
    let moved = shifted(tail_positions, n);
    lemma_positions(rest, mark, 0);
    assert(all_at(body, mark, m) == all_at(body, mark, n)) by {
        assert(next_at(body, mark, n) == Some(n));
    }
    let positions = all_at(body, mark, 0);
    assert(positions =~= seq![0int] + moved);
    assert(positions.drop_first() =~= moved);
    lemma_parts_shift(pre, rest, tail_positions, m);
    assert(tail_positions.len() > 0 && tail_positions[0] == 0);
    assert(positions[1] == n);
    // The line breaks around the part.
    let start = m + first.len();
    let end = n - last.len();
    assert(body.subrange(m, start) =~= first);
    assert(body.subrange(end, n) =~= last);
    lemma_break_behind(body, first, m);
    assert(forall|i: int| 0 <= i < raw.len() ==> body[start + i] == raw[i]);
    lemma_break_before(body, last, n);
    assert(body.subrange(start, end) =~= raw);
    assert(parts_at(body, positions, m) == seq![part_of(raw)] + parts_at(
        rest,
        tail_positions,
        m,
    ));
    // The closing delimiter.
    let closed = mark + seq![0x2du8, 0x2du8] + tail;
    assert(closed.subrange(0, m) =~= mark);
    assert(occurs_at(closed, mark, 0));
    assert(closed.subrange(m, m + 2) =~= seq!['-' as u8, '-' as u8]);
    assert(occurs_at(closed, seq!['-' as u8, '-' as u8], m));
    assert(all_at(closed, mark, 0)[0] == 0);
    assert(parts_in(rest, boundary) == parts_at(rest, tail_positions, m)) by {
        if parts_at(rest, tail_positions, m).len() == 0 {
            assert(parts_at(rest, tail_positions, m) =~= seq![]);
        }
    }
}

proof fn lemma_break_behind(body: Seq<u8>, first: Seq<u8>, at: int)
    requires
        is_break(first),
        0 <= at && at + first.len() <= body.len(),
        body.subrange(at, at + first.len()) == first,
    ensures
        line_break_end(body, at) == Some(at + first.len()),
        !occurs_at(body, seq!['-' as u8, '-' as u8], at),
{
    let long = seq!['\r' as u8, '\n' as u8];
    let short = seq!['\n' as u8];
    assert(body.subrange(at, at + first.len())[0] == body[at]);
    if occurs_at(body, seq!['-' as u8, '-' as u8], at) {
        assert(body.subrange(at, at + 2)[0] == body[at]);
    }
    if first.len() == 2 {
        assert(first =~= long);
    } else {
        assert(first =~= short);
        if occurs_at(body, long, at) {
            assert(body.subrange(at, at + 2)[0] == body[at]);
        }
    }
}

proof fn lemma_break_before(body: Seq<u8>, last: Seq<u8>, at: int)
    requires
        is_break(last),
        2 <= at <= body.len(),
        body.subrange(at - last.len(), at) == last,
        last.len() == 1 ==> body[at - 2] != 0x0d,
    ensures
        content_end(body, at) == at - last.len(),
{
    let long = seq!['\r' as u8, '\n' as u8];
    let short = seq!['\n' as u8];
    if last.len() == 2 {
        assert(last =~= long);
    } else {
        assert(last =~= short);
        if occurs_at(body, long, at - 2) {
            assert(body.subrange(at - 2, at)[0] == body[at - 2]);
        }
    }
}

/// A part is its headers, up to the first blank line, and behind it its content,
/// byte for byte.
pub proof fn parts_are_headers_and_content(headers: Seq<u8>, content: Seq<u8>)
    requires
        headers.len() > 0,
        headers.last() != 0x0a,
        forall|k: int|
            0 <= k < headers.len() - 1 ==> !(#[trigger] headers[k] == 0x0a && headers[k + 1] == 0x0a),
        forall|k: int|
            0 <= k < headers.len() - 3 ==> !(#[trigger] headers[k] == 0x0d && headers[k + 1] == 0x0a
                && headers[k + 2] == 0x0d && headers[k + 3] == 0x0a),
    ensures
        part_of(headers + line_break() + line_break() + content) == (PartView {
            content,
            ..with_header_lines(split(headers, 0x0au8))
        }),
{
    let raw = headers + line_break() + line_break() + content;
    let h = headers.len() as int;
    let long = seq!['\r' as u8, '\n' as u8, '\r' as u8, '\n' as u8];
    let short = seq!['\n' as u8, '\n' as u8];
    assert(raw.subrange(h, h + 4) =~= long);
    assert(occurs_at(raw, long, h));
    lemma_next_at(raw, long, 0);
    lemma_next_at(raw, short, 0);
    assert forall|k: int| 0 <= k < h implies !#[trigger] occurs_at(raw, long, k) by {
        if occurs_at(raw, long, k) {
            let w = raw.subrange(k, k + 4);
            assert(w[0] == raw[k] && w[1] == raw[k + 1] && w[2] == raw[k + 2] && w[3] == raw[k + 3]);
            if k + 3 < h {
                assert(headers[k] == 0x0d);
            } else {
                assert(raw[h] == 0x0d && raw[h + 1] == 0x0a && raw[h + 2] == 0x0d);
                assert(raw[h - 1] == headers.last());
            }
        }
    }
    assert forall|k: int| 0 <= k < h + 3 implies !#[trigger] occurs_at(raw, short, k) by {
        if occurs_at(raw, short, k) {
            let w = raw.subrange(k, k + 2);
            assert(w[0] == raw[k] && w[1] == raw[k + 1]);
            if k + 1 < h {
                assert(headers[k] == 0x0a);
            } else {
                assert(raw[h] == 0x0d && raw[h + 1] == 0x0a && raw[h + 2] == 0x0d && raw[h + 3]
                    == 0x0a);
            }
        }
    }
    assert(next_at(raw, long, 0) == Some(h)) by {
        if let Some(p) = next_at(raw, long, 0) {
            if p < h {
                assert(!occurs_at(raw, long, p));
            }
        }
    }
    if let Some(p) = next_at(raw, short, 0) {
        if p < h + 3 {
            assert(!occurs_at(raw, short, p));
        }
    }
    assert(raw.take(h) =~= headers);
    assert(raw.skip(h + 4) =~= content);
}

/// A part without a blank line has headers and no content.
pub proof fn parts_without_a_blank_line_have_no_content(headers: Seq<u8>)
    requires
        forall|k: int|
            0 <= k < headers.len() - 1 ==> !(#[trigger] headers[k] == 0x0a && headers[k + 1] == 0x0a),
        forall|k: int|
            0 <= k < headers.len() - 3 ==> !(#[trigger] headers[k] == 0x0d && headers[k + 1] == 0x0a
                && headers[k + 2] == 0x0d && headers[k + 3] == 0x0a),
    ensures
        part_of(headers) == (PartView {
            content: seq![],
            ..with_header_lines(split(headers, 0x0au8))
        }),
{
    let long = seq!['\r' as u8, '\n' as u8, '\r' as u8, '\n' as u8];
    let short = seq!['\n' as u8, '\n' as u8];
    lemma_next_at(headers, long, 0);
    lemma_next_at(headers, short, 0);
    if let Some(k) = next_at(headers, long, 0) {
        let w = headers.subrange(k, k + 4);
        assert(w[0] == headers[k] && w[1] == headers[k + 1] && w[2] == headers[k + 2] && w[3]
            == headers[k + 3]);
    }
    if let Some(k) = next_at(headers, short, 0) {
        let w = headers.subrange(k, k + 2);
        assert(w[0] == headers[k] && w[1] == headers[k + 1]);
    }
    assert(headers.take(headers.len() as int) =~= headers);
    assert(headers.skip(headers.len() as int) =~= seq![]);
}

/// A blank line may lack its carriage returns.
pub proof fn blank_lines_may_lack_carriage_returns(headers: Seq<u8>, content: Seq<u8>)
    requires
        headers.len() == 0 || headers.last() != 0x0a,
        forall|k: int|
            0 <= k < headers.len() - 1 ==> !(#[trigger] headers[k] == 0x0a && headers[k + 1] == 0x0a),
        forall|k: int|
            0 <= k < headers.len() - 3 ==> !(#[trigger] headers[k] == 0x0d && headers[k + 1] == 0x0a
                && headers[k + 2] == 0x0d && headers[k + 3] == 0x0a),
        forall|k: int|
            0 <= k == headers.len() - 3 ==> !(#[trigger] headers[k] == 0x0d && headers[k + 1]
                == 0x0a && headers[k + 2] == 0x0d),
    ensures
        part_of(headers + seq![0x0au8, 0x0au8] + content) == (PartView {
            content,
            ..with_header_lines(split(headers, 0x0au8))
        }),
{
    let raw = headers + seq![0x0au8, 0x0au8] + content;
    let h = headers.len() as int;
    let long = seq!['\r' as u8, '\n' as u8, '\r' as u8, '\n' as u8];
    let short = seq!['\n' as u8, '\n' as u8];
    assert(raw.subrange(h, h + 2) =~= short);
    assert(occurs_at(raw, short, h));
    lemma_next_at(raw, long, 0);
    lemma_next_at(raw, short, 0);
    assert forall|k: int| 0 <= k < h implies !#[trigger] occurs_at(raw, short, k) by {
        if occurs_at(raw, short, k) {
            let w = raw.subrange(k, k + 2);
            assert(w[0] == raw[k] && w[1] == raw[k + 1]);
            assert(headers[k] == 0x0a);
        }
    }
    assert forall|k: int| 0 <= k < h implies !#[trigger] occurs_at(raw, long, k) by {
        if occurs_at(raw, long, k) {
            let w = raw.subrange(k, k + 4);
            assert(w[0] == raw[k] && w[1] == raw[k + 1] && w[2] == raw[k + 2] && w[3] == raw[k + 3]);
            assert(raw[h] == 0x0a && raw[h + 1] == 0x0a);
            assert(headers[k] == 0x0d);
        }
    }
    assert(next_at(raw, short, 0) == Some(h)) by {
        if let Some(p) = next_at(raw, short, 0) {
            if p < h {
                assert(!occurs_at(raw, short, p));
            }
        }
    }
    if let Some(p) = next_at(raw, long, 0) {
        if p < h {
            assert(!occurs_at(raw, long, p));
        } else if p == h {
            assert(raw.subrange(h, h + 4)[0] == raw[h]);
        }
    }
    assert(raw.take(h) =~= headers);
    assert(raw.skip(h + 2) =~= content);
}

/// The header lines of a part are kept in order, each whole under its name; a
/// `Content-Disposition`, in either case, gives the part its name and file name.
pub proof fn header_lines_are_kept(
    before: Seq<Seq<u8>>,
    name: Seq<u8>,
    value: Seq<u8>,
)
    requires
        !name.contains(0x3a),
        (name + seq![0x3au8] + value).last() != 0x0d,
    ensures
        ({
            let line = name + seq![0x3au8] + value;
            let start = with_header_lines(before);
            let after = with_header_lines(before + seq![line]);
            let title = trimmed(lossy_text(name));
            let text = lossy_text(line);
            &&& after == with_header_lines(before + seq![line.push(0x0d)])
            &&& after.header_lines == start.header_lines + seq![(title, line)]
            &&& after.content == start.content
            &&& reads_the_same(title, "content-disposition"@) ==> after.name == parameter_in(
                text,
                "name"@,
            ) && after.filename == parameter_in(text, "filename"@)
            &&& !reads_the_same(title, "content-disposition"@) ==> after.name == start.name
                && after.filename == start.filename
        }),
{
    let line = name + seq![0x3au8] + value;
    let a = before + seq![line];
    let b = before + seq![line.push(0x0d)];
    assert(a.drop_last() =~= before && a.last() == line);
    assert(b.drop_last() =~= before && b.last() == line.push(0x0d));
    assert(line.push(0x0d).drop_last() =~= line);
    assert forall|j: int| 0 <= j < name.len() implies line[j] != 0x3a by {
        assert(name.contains(name[j]));
    }
    lemma_position_is(line, 0x3au8, name.len() as int);
    assert(line.take(name.len() as int) =~= name);
    let title = trimmed(lossy_text(name));
    names_are_compared_by_their_letters(title, "content-disposition"@);
    let start = with_header_lines(before);
    assert(start.header_lines.push((title, line)) =~= start.header_lines + seq![(title, line)]);
}

/// The value of a parameter is what stands between quotes behind `key=`, at the
/// start or behind a semicolon, a blank, a star or a quote; without quotes it goes up
/// to the next semicolon.
pub proof fn parameters_are_read(
    before: Seq<char>,
    key: Seq<char>,
    value: Seq<char>,
    rest: Seq<char>,
)
    requires
        before.len() == 0 || before.last() == ';' || before.last() == ' ' || before.last() == '\t'
            || before.last() == '*' || before.last() == '"',
        !value.contains('"'),
    ensures
        ({
            let quoted = before + (key + seq!['=']) + (seq!['"'] + value + seq!['"'] + rest);
            (forall|k: int|
                0 <= k < before.len() ==> !#[trigger] occurs_at(quoted, key + seq!['='], k))
                ==> parameter_in(quoted, key) == Some(value)
        }),
        ({
            let bare = before + (key + seq!['=']) + (value + seq![';'] + rest);
            (forall|k: int|
                0 <= k < before.len() ==> !#[trigger] occurs_at(bare, key + seq!['='], k))
                && value.len() > 0 && !is_white(value[0]) && !is_white(value.last())
                && !value.contains(';') && !value.contains('\r') && !value.contains('\n')
                ==> parameter_in(bare, key) == Some(value)
        }),
{
    reveal_strlit("=");
    assert("="@ =~= seq!['=']);
    let needle = key + seq!['='];
    let p = before.len() as int;
    let quoted = before + needle + (seq!['"'] + value + seq!['"'] + rest);
    assert(quoted.subrange(p, p + needle.len()) =~= needle);
    assert(occurs_at(quoted, needle, p));
    lemma_next_at(quoted, needle, 0);
    if forall|k: int| 0 <= k < before.len() ==> !#[trigger] occurs_at(quoted, needle, k) {
        assert(next_at(quoted, needle, 0) == Some(p)) by {
            if let Some(q) = next_at(quoted, needle, 0) {
                if q < p {
                    assert(!occurs_at(quoted, needle, q));
                }
            }
        }
        let tail = quoted.skip(p + needle.len());
        assert(tail =~= seq!['"'] + value + seq!['"'] + rest);
        assert(tail.skip(1) =~= value + seq!['"'] + rest);
        assert forall|j: int| 0 <= j < value.len() implies tail.skip(1)[j] != '"' by {
            assert(value.contains(value[j]));
        }
        lemma_position_is(tail.skip(1), '"', value.len() as int);
        assert(tail.skip(1).take(value.len() as int) =~= value);
        if p > 0 {
            assert(quoted[p - 1] == before.last());
        }
    }
    let bare = before + needle + (value + seq![';'] + rest);
    assert(bare.subrange(p, p + needle.len()) =~= needle);
    assert(occurs_at(bare, needle, p));
    lemma_next_at(bare, needle, 0);
    if (forall|k: int| 0 <= k < before.len() ==> !#[trigger] occurs_at(bare, needle, k))
        && value.len() > 0 && !is_white(value[0]) && !is_white(value.last()) && !value.contains(';')
        && !value.contains('\r') && !value.contains('\n') {
        assert(next_at(bare, needle, 0) == Some(p)) by {
            if let Some(q) = next_at(bare, needle, 0) {
                if q < p {
                    assert(!occurs_at(bare, needle, q));
                }
            }
        }
        let tail = bare.skip(p + needle.len());
        assert(tail =~= value + (seq![';'] + rest));
        lemma_bare(value, seq![';'] + rest);
        assert(tail.take(value.len() as int) =~= value);
        assert(tail[0] == value[0] && value.contains(value[0]));
        lemma_untrimmed(value);
        if p > 0 {
            assert(bare[p - 1] == before.last());
        }
    }
}

proof fn lemma_bare(value: Seq<char>, rest: Seq<char>)
    requires
        !value.contains(';') && !value.contains('\r') && !value.contains('\n'),
        rest.len() > 0 && rest[0] == ';',
    ensures
        bare_end(value + rest) == value.len(),
    decreases value.len(),
{
    let s = value + rest;
    if value.len() == 0 {
        assert(s[0] == rest[0]);
    } else {
        assert(s[0] == value[0] && value.contains(value[0]));
        assert(s.drop_first() =~= value.drop_first() + rest);
        assert forall|i: int| 0 <= i < value.drop_first().len() implies value.drop_first()[i] != ';'
            && value.drop_first()[i] != '\r' && value.drop_first()[i] != '\n' by {
            assert(value.contains(value[i + 1]));
        }
        lemma_bare(value.drop_first(), rest);
    }
}

/// The boundary is the value of the `boundary` parameter, in either case, without
/// the quotes around it; other parameters are passed over.
pub proof fn boundaries_are_read(key: Seq<char>, value: Seq<char>, rest: Seq<Seq<char>>)
    requires
        key.len() > 0 && !is_white(key[0]) && !is_white(key.last()) && !key.contains('='),
        value.len() > 0 && !is_white(value[0]) && !is_white(value.last()),
        value[0] != '"' && value.last() != '"',
    ensures
        ({
            let plain = boundary_in(seq![key + seq!['='] + value] + rest);
            let quoted = boundary_in(seq![key + seq!['='] + (seq!['"'] + value + seq!['"'])] + rest);
            &&& reads_the_same(key, "boundary"@) ==> plain == Some(value) && quoted == Some(value)
            &&& !reads_the_same(key, "boundary"@) ==> plain == boundary_in(rest) && quoted
                == boundary_in(rest)
        }),
        boundary_in(Seq::<Seq<char>>::empty()) is None,
{
    names_are_compared_by_their_letters(key, "boundary"@);
    lemma_untrimmed(key);
    lemma_untrimmed(value);
    let wrapped = seq!['"'] + value + seq!['"'];
    assert(wrapped[0] == '"' && wrapped.last() == '"');
    lemma_untrimmed(wrapped);
    assert(wrapped.subrange(1, wrapped.len() - 1) =~= value);
    lemma_pair(key, value);
    lemma_pair(key, wrapped);
    let a = seq![key + seq!['='] + value] + rest;
    let b = seq![key + seq!['='] + wrapped] + rest;
    assert(a.drop_first() =~= rest && b.drop_first() =~= rest);
    assert(a[0] == key + seq!['='] + value && b[0] == key + seq!['='] + wrapped);
}

proof fn lemma_pair(key: Seq<char>, value: Seq<char>)
    requires
        key.len() > 0 && !is_white(key[0]) && !key.contains('='),
        value.len() > 0 && !is_white(value.last()),
    ensures
        ({
            let s = key + seq!['='] + value;
            let p = crate::text::position(s, '=');
            &&& trimmed(s) == s
            &&& p == key.len() && p < s.len()
            &&& s.take(p) == key
            &&& s.skip(p + 1) == value
        }),
{
    let s = key + seq!['='] + value;
    assert(s[0] == key[0] && s.last() == value.last());
    lemma_untrimmed(s);
    assert forall|j: int| 0 <= j < key.len() implies s[j] != '=' by {
        assert(key.contains(key[j]));
    }
    lemma_position_is(s, '=', key.len() as int);
    assert(s.take(key.len() as int) =~= key);
    assert(s.skip(key.len() as int + 1) =~= value);
}

} // verus!
