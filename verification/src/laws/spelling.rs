//! White space, lines and numbers in text.

use crate::text::decimal;
use crate::text::is_digit;
use crate::text::is_white;
use crate::text::lemma_decimal_digits;
use crate::text::lemma_position_is;
use crate::text::lines;
use crate::text::signed_number;
use crate::text::stripped;
use crate::text::stripped_end;
use crate::text::stripped_start;
use crate::text::trimmed;
use crate::text::trimmed_end;
use crate::text::trimmed_start;
use crate::text::unsigned_number;
use vstd::prelude::*;

verus! {

/// The characters that are white space, first and last of each run.
pub open spec fn white_runs() -> Seq<(int, int)> {
    seq![
        (0x09int, 0x0dint),
        (0x20, 0x20),
        (0x85, 0x85),
        (0xa0, 0xa0),
        (0x1680, 0x1680),
        (0x2000, 0x200a),
        (0x2028, 0x2029),
        (0x202f, 0x202f),
        (0x205f, 0x205f),
        (0x3000, 0x3000),
    ]
}

/// White space is what Unicode calls so.
pub proof fn white_space_is_unicode_white_space(c: char)
    ensures
        is_white(c) <==> exists|k: int|
            0 <= k < white_runs().len() && (#[trigger] white_runs()[k]).0 <= c as int
                <= white_runs()[k].1,
{
    let r = white_runs();
    assert(r[0] == (0x09int, 0x0dint) && r[1] == (0x20int, 0x20int) && r[2] == (0x85int, 0x85int)
        && r[3] == (0xa0int, 0xa0int) && r[4] == (0x1680int, 0x1680int) && r[5] == (
        0x2000int,
        0x200aint,
    ) && r[6] == (0x2028int, 0x2029int) && r[7] == (0x202fint, 0x202fint) && r[8] == (
        0x205fint,
        0x205fint,
    ) && r[9] == (0x3000int, 0x3000int));
}

/// Whether a text is white space throughout.
pub open spec fn all_white(s: Seq<char>) -> bool {
    forall|i: int| 0 <= i < s.len() ==> is_white(#[trigger] s[i])
}

proof fn lemma_start(a: Seq<char>, s: Seq<char>)
    requires
        all_white(a),
        s.len() == 0 || !is_white(s[0]),
    ensures
        trimmed_start(a + s) == s,
    decreases a.len(),
{
    if a.len() == 0 {
        assert(a + s =~= s);
    } else {
        assert(is_white(a[0]) && (a + s)[0] == a[0]);
        assert((a + s).drop_first() =~= a.drop_first() + s);
        assert forall|i: int| 0 <= i < a.drop_first().len() implies is_white(
            #[trigger] a.drop_first()[i],
        ) by {
            assert(is_white(a[i + 1]));
        }
        lemma_start(a.drop_first(), s);
    }
}

proof fn lemma_end(s: Seq<char>, b: Seq<char>)
    requires
        all_white(b),
        s.len() == 0 || !is_white(s.last()),
    ensures
        trimmed_end(s + b) == s,
    decreases b.len(),
{
    if b.len() == 0 {
        assert(s + b =~= s);
    } else {
        assert(is_white(b[b.len() - 1]) && (s + b).last() == b.last());
        assert((s + b).drop_last() =~= s + b.drop_last());
        assert forall|i: int| 0 <= i < b.drop_last().len() implies is_white(
            #[trigger] b.drop_last()[i],
        ) by {
            assert(is_white(b[i]));
        }
        lemma_end(s, b.drop_last());
    }
}

/// Trimming takes off the white space around a text, all of it, and nothing else.
pub proof fn white_space_around_is_taken_off(a: Seq<char>, s: Seq<char>, b: Seq<char>)
    requires
        all_white(a),
        all_white(b),
        s.len() > 0 ==> !is_white(s[0]) && !is_white(s.last()),
    ensures
        trimmed(a + s + b) == s,
        s.len() > 0 ==> trimmed_start(a + s + b) == s + b,
        trimmed_end(a + s) == (if s.len() > 0 {
            a + s
        } else {
            Seq::<char>::empty()
        }),
{
    assert(a + s + b =~= a + (s + b));
    let none = Seq::<char>::empty();
    if s.len() > 0 {
        lemma_start(a, s + b);
        lemma_end(s, b);
        lemma_end(a + s, none);
        assert((a + s) + none =~= a + s);
        assert((a + s).last() == s.last());
    } else {
        let all = a + s + b;
        assert forall|i: int| 0 <= i < all.len() implies is_white(#[trigger] all[i]) by {
            if i < a.len() {
                assert(is_white(a[i]));
            } else {
                assert(is_white(b[i - a.len()]));
            }
        }
        lemma_start(all, none);
        assert(all + none =~= all);
        lemma_end(none, none);
        assert(none + none =~= none);
        lemma_end(none, a);
        assert(none + a =~= a + s);
        assert(s =~= none);
    }
}

/// A line ends at a line feed, and the carriage return before it goes with it; the
/// last line may end with the text.
pub proof fn lines_end_at_line_feeds(line: Seq<char>, rest: Seq<char>)
    requires
        !line.contains('\n'),
    ensures
        lines(Seq::<char>::empty()).len() == 0,
        line.len() > 0 ==> lines(line) == seq![line],
        line.len() == 0 || line.last() != '\r' ==> lines(line + seq!['\n'] + rest) == seq![line]
            + lines(rest),
        lines(line + seq!['\r', '\n'] + rest) == seq![line] + lines(rest),
{
    assert forall|j: int| 0 <= j < line.len() implies line[j] != '\n' by {
        assert(line.contains(line[j]));
    }
    lemma_position_is(line, '\n', line.len() as int);
    let s = line + seq!['\n'] + rest;
    lemma_position_is(s, '\n', line.len() as int);
    assert(s.take(line.len() as int) =~= line);
    assert(s.skip(line.len() as int + 1) =~= rest);
    let r = line + seq!['\r', '\n'] + rest;
    let n = line.len() as int + 1;
    lemma_position_is(r, '\n', n);
    assert(r.take(n) =~= line.push('\r'));
    assert(line.push('\r').drop_last() =~= line);
    assert(r.skip(n + 1) =~= rest);
}

/// A number is read from its decimal digits, behind a plus where one is written, and
/// with a minus where a sign may stand; anything else among the digits makes it none.
pub proof fn numbers_are_decimal(n: nat, s: Seq<char>, i: int)
    ensures
        unsigned_number(decimal(n)) == Some(n),
        unsigned_number(seq!['+'] + decimal(n)) == Some(n),
        signed_number(decimal(n)) == Some(n as int),
        signed_number(seq!['-'] + decimal(n)) == Some(-(n as int)),
        signed_number(seq!['+'] + decimal(n)) == Some(n as int),
        unsigned_number(Seq::<char>::empty()) is None,
        0 < i < s.len() && !('0' <= s[i] <= '9') ==> unsigned_number(s) is None && signed_number(s)
            is None,
{
    let d = decimal(n);
    lemma_decimal_digits(n);
    assert(is_digit(d[0]));
    assert((seq!['+'] + d).skip(1) =~= d);
    assert((seq!['-'] + d).skip(1) =~= d);
    if 0 < i < s.len() && !('0' <= s[i] <= '9') {
        assert(!is_digit(s[i]));
        assert(s.skip(1)[i - 1] == s[i]);
    }
}

/// Decimal digits follow each other from the highest, each worth ten of the next.
pub proof fn decimal_digits_follow_each_other(n: nat, last: nat)
    requires
        last < 10,
    ensures
        n > 0 ==> decimal(10 * n + last) == decimal(n) + decimal(last),
        decimal(last) == seq![(0x30 + last) as char],
{
    if n > 0 {
        assert((10 * n + last) / 10 == n);
        assert((10 * n + last) % 10 == last);
        assert(decimal(n).push(crate::text::digit(last)) =~= decimal(n) + decimal(last));
    }
}

/// Stripping takes a character off both ends, as often as it stands there.
pub proof fn characters_are_stripped(s: Seq<char>, c: char)
    ensures
        stripped(seq![c] + s, c) == stripped(s, c),
        s.len() > 0 && s[0] != c && s.last() != c ==> stripped(s, c) == s && stripped(
            s.push(c),
            c,
        ) == s,
{
    assert((seq![c] + s).drop_first() =~= s);
    if s.len() > 0 && s[0] != c && s.last() != c {
        assert(stripped_start(s, c) == s);
        let t = s.push(c);
        assert(t[0] == s[0]);
        assert(stripped_start(t, c) == t);
        assert(t.drop_last() =~= s);
        assert(stripped_end(t, c) == stripped_end(s, c));
    }
}

} // verus!
