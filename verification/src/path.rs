//! Path normalisation: `.` and `..` segments, repeated and trailing slashes.

use crate::bytes::same_bytes;
use crate::text::find_byte;
use crate::text::lemma_position;
use crate::text::lemma_position_is;
use crate::text::position;
use crate::text::push_bytes;
use crate::text::split;
use crate::text::views;
use std::borrow::Cow;
use vstd::prelude::*;
use vstd::slice::slice_subrange;

verus! {

pub open spec fn slash() -> u8 {
    '/' as u8
}

/// The segment `.`.
pub open spec fn dot() -> Seq<u8> {
    seq!['.' as u8]
}

/// The segment `..`.
pub open spec fn dot_dot() -> Seq<u8> {
    seq!['.' as u8, '.' as u8]
}

/// The segments kept so far, after one more. An empty segment and `.` change
/// nothing; `..` removes the segment before it. A `..` with nothing to remove
/// is dropped above the root, and kept above a relative path, where it is
/// significant.
pub open spec fn resolve_one(kept: Seq<Seq<u8>>, segment: Seq<u8>, absolute: bool) -> Seq<
    Seq<u8>,
> {
    if segment.len() == 0 || segment == dot() {
        kept
    } else if segment == dot_dot() {
        if kept.len() > 0 && kept.last() != dot_dot() {
            kept.drop_last()
        } else if absolute {
            kept
        } else {
            kept.push(segment)
        }
    } else {
        kept.push(segment)
    }
}

/// The segments kept of a list.
pub open spec fn resolved(segments: Seq<Seq<u8>>, kept: Seq<Seq<u8>>, absolute: bool) -> Seq<
    Seq<u8>,
>
    decreases segments.len(),
{
    if segments.len() == 0 {
        kept
    } else {
        resolved(segments.drop_first(), resolve_one(kept, segments[0], absolute), absolute)
    }
}

/// Segments with a slash between each two.
pub open spec fn slashed(segments: Seq<Seq<u8>>) -> Seq<u8>
    decreases segments.len(),
{
    if segments.len() == 0 {
        seq![]
    } else if segments.len() == 1 {
        segments[0]
    } else {
        slashed(segments.drop_last()).push(slash()) + segments.last()
    }
}

pub open spec fn is_absolute(s: Seq<u8>) -> bool {
    s.len() > 0 && s[0] == slash()
}

pub open spec fn has_trailing_slash(s: Seq<u8>) -> bool {
    s.len() > 1 && s.last() == slash()
}

/// The path that kept segments write.
pub open spec fn path_of(kept: Seq<Seq<u8>>, absolute: bool, trailing: bool) -> Seq<u8> {
    let body = if absolute {
        seq![slash()] + slashed(kept)
    } else {
        slashed(kept)
    };
    if trailing && body.len() > 0 && body != seq![slash()] {
        body.push(slash())
    } else {
        body
    }
}

/// The segments that a path keeps.
pub open spec fn kept_segments(s: Seq<u8>) -> Seq<Seq<u8>> {
    resolved(split(s, slash()), seq![], is_absolute(s))
}

/// A path with its `.` and `..` segments resolved and repeated slashes
/// collapsed.
pub open spec fn normalized_path(s: Seq<u8>) -> Seq<u8> {
    if s.len() == 0 {
        s
    } else {
        path_of(kept_segments(s), is_absolute(s), has_trailing_slash(s))
    }
}

fn is_dot(s: &[u8]) -> (r: bool)
    ensures
        r == (s@ == dot()),
{
    let r = s.len() == 1 && s[0] == '.' as u8;
    assert(r ==> s@ =~= dot());
    r
}

fn is_dot_dot(s: &[u8]) -> (r: bool)
    ensures
        r == (s@ == dot_dot()),
{
    let r = s.len() == 2 && s[0] == '.' as u8 && s[1] == '.' as u8;
    assert(r ==> s@ =~= dot_dot());
    r
}

fn split_slashes(s: &[u8]) -> (r: Vec<&[u8]>)
    ensures
        views(r@) == split(s@, slash()),
{
    let mut out: Vec<&[u8]> = Vec::new();
    let mut rest: &[u8] = s;
    assert(views(out@) + split(rest@, slash()) =~= split(s@, slash()));
    loop
        invariant
            views(out@) + split(rest@, slash()) == split(s@, slash()),
        decreases rest@.len(),
    {
        let p = find_byte(rest, '/' as u8);
        let ghost done = views(out@);
        let ghost whole = rest@;
        if p >= rest.len() {
            out.push(rest);
            assert(views(out@) =~= done + seq![rest@]);
            return out;
        }
        out.push(slice_subrange(rest, 0, p));
        rest = slice_subrange(rest, p + 1, rest.len());
        assert(whole.subrange(0, p as int) =~= whole.take(p as int));
        assert(rest@ =~= whole.skip(p + 1));
        assert(views(out@) =~= done + seq![whole.take(p as int)]);
        assert(done + (seq![whole.take(p as int)] + split(rest@, slash())) =~= views(out@) + split(
            rest@,
            slash(),
        ));
    }
}

fn resolve<'a>(segments: &Vec<&'a [u8]>, absolute: bool) -> (r: Vec<&'a [u8]>)
    ensures
        views(r@) == resolved(views(segments@), seq![], absolute),
{
    let mut stack: Vec<&'a [u8]> = Vec::new();
    let ghost all = views(segments@);
    let mut i: usize = 0;
    assert(all.skip(0) =~= all);
    assert(views(stack@) =~= seq![]);
    while i < segments.len()
        invariant
            i <= segments@.len(),
            all == views(segments@),
            resolved(all, seq![], absolute) == resolved(
                all.skip(i as int),
                views(stack@),
                absolute,
            ),
        decreases segments@.len() - i,
    {
        let segment = segments[i];
        let ghost before = views(stack@);
        assert(all.skip(i as int)[0] == segment@);
        assert(all.skip(i as int).drop_first() =~= all.skip(i + 1));
        if segment.len() == 0 || is_dot(segment) {
            assert(resolve_one(before, segment@, absolute) == before);
        } else if is_dot_dot(segment) {
            if stack.len() > 0 && !is_dot_dot(stack[stack.len() - 1]) {
                assert(before.last() == stack@.last()@);
                stack.pop();
                assert(views(stack@) =~= before.drop_last());
            } else {
                if stack.len() > 0 {
                    assert(before.last() == stack@.last()@);
                }
                // A `..` above the root is dropped; above a relative path it
                // is significant and kept.
                if !absolute {
                    stack.push(segment);
                    assert(views(stack@) =~= before.push(segment@));
                }
            }
        } else {
            stack.push(segment);
            assert(views(stack@) =~= before.push(segment@));
        }
        i += 1;
    }
    stack
}

/// Resolve `.` and `..` segments and collapse repeated slashes.
pub fn normalize_path(input: &[u8]) -> (r: Cow<'_, [u8]>)
    ensures
        r@ == normalized_path(input@),
        r is Borrowed <==> normalized_path(input@) == input@,
{
    if input.len() == 0 {
        return Cow::Borrowed(input);
    }
    let absolute = input[0] == '/' as u8;
    let trailing = input.len() > 1 && input[input.len() - 1] == '/' as u8;
    let segments = split_slashes(input);
    let stack = resolve(&segments, absolute);
    let ghost kept = views(stack@);
    let mut out: Vec<u8> = Vec::new();
    if absolute {
        out.push('/' as u8);
    }
    let ghost front = out@;
    let mut i: usize = 0;
    assert(kept.take(0) =~= seq![]);
    assert(front + slashed(seq![]) =~= front);
    while i < stack.len()
        invariant
            i <= stack@.len(),
            kept == views(stack@),
            out@ == front + slashed(kept.take(i as int)),
        decreases stack@.len() - i,
    {
        let ghost grown = kept.take(i + 1);
        let ghost start = out@;
        assert(grown.drop_last() =~= kept.take(i as int));
        assert(grown.last() == stack@[i as int]@);
        if i > 0 {
            out.push('/' as u8);
        }
        push_bytes(&mut out, stack[i]);
        proof {
            if i == 0 {
                assert(slashed(grown) == grown[0]);
                assert(out@ =~= front + slashed(grown));
            } else {
                assert(out@ =~= front + (slashed(kept.take(i as int)).push(slash())
                    + grown.last()));
            }
        }
        i += 1;
    }
    assert(kept.take(i as int) =~= kept);
    proof {
        if absolute {
            assert(front =~= seq![slash()]);
        } else {
            assert(front + slashed(kept) =~= slashed(kept));
        }
    }
    let alone = out.len() == 1 && out[0] == '/' as u8;
    assert(alone == (out@ == seq![slash()])) by {
        if alone {
            assert(out@ =~= seq![slash()]);
        }
    }
    if trailing && out.len() > 0 && !alone {
        out.push('/' as u8);
    }
    if same_bytes(out.as_slice(), input) {
        Cow::Borrowed(input)
    } else {
        Cow::Owned(out)
    }
}

// ---------------------------------------------------------------------------
// Laws

/// Whether segments are in normal form: none is empty or `.`, and a `..` stands
/// only in front of a relative path.
pub open spec fn is_resolved(kept: Seq<Seq<u8>>, absolute: bool) -> bool {
    forall|i: int|
        #![trigger kept[i]]
        0 <= i < kept.len() ==> {
            &&& kept[i].len() > 0
            &&& kept[i] != dot()
            &&& !kept[i].contains(slash())
            &&& kept[i] == dot_dot() ==> !absolute && (i > 0 ==> kept[i - 1] == dot_dot())
        }
}

spec fn no_slashes(segments: Seq<Seq<u8>>) -> bool {
    forall|i: int| 0 <= i < segments.len() ==> !(#[trigger] segments[i]).contains(slash())
}

proof fn lemma_split_no_slashes(s: Seq<u8>)
    ensures
        no_slashes(split(s, slash())),
        split(s, slash()).len() > 0,
    decreases s.len(),
{
    let p = position(s, slash());
    lemma_position(s, slash());
    if p >= s.len() {
        assert(!s.contains(slash()));
    } else {
        lemma_split_no_slashes(s.skip(p + 1));
        assert(!s.take(p).contains(slash()));
    }
}

proof fn lemma_resolved(segments: Seq<Seq<u8>>, kept: Seq<Seq<u8>>, absolute: bool)
    requires
        no_slashes(segments),
        is_resolved(kept, absolute),
    ensures
        is_resolved(resolved(segments, kept, absolute), absolute),
    decreases segments.len(),
{
    if segments.len() > 0 {
        let next = resolve_one(kept, segments[0], absolute);
        assert(!segments[0].contains(slash()));
        assert forall|i: int| #![trigger next[i]] 0 <= i < next.len() implies {
            &&& next[i].len() > 0
            &&& next[i] != dot()
            &&& !next[i].contains(slash())
            &&& next[i] == dot_dot() ==> !absolute && (i > 0 ==> next[i - 1] == dot_dot())
        } by {
            if i < kept.len() {
                assert(next[i] == kept[i]);
            }
            if 0 < i && i - 1 < kept.len() {
                assert(next[i - 1] == kept[i - 1]);
            }
        }
        assert forall|i: int| 0 <= i < segments.drop_first().len() implies !(
        #[trigger] segments.drop_first()[i]).contains(slash()) by {
            assert(!segments[i + 1].contains(slash()));
        }
        lemma_resolved(segments.drop_first(), next, absolute);
    }
}

/// The segments that a path keeps are in normal form. In particular a path from
/// the root keeps no `..`: it cannot climb out.
pub proof fn kept_segments_are_resolved(s: Seq<u8>)
    ensures
        is_resolved(kept_segments(s), is_absolute(s)),
{
    lemma_split_no_slashes(s);
    lemma_resolved(split(s, slash()), seq![], is_absolute(s));
}

pub proof fn lemma_split_at(x: Seq<u8>, y: Seq<u8>)
    ensures
        split(x.push(slash()) + y, slash()) == split(x, slash()) + split(y, slash()),
    decreases x.len(),
{
    let c = slash();
    let whole = x.push(c) + y;
    let p = position(x, c);
    lemma_position(x, c);
    if p >= x.len() {
        lemma_position_is(whole, c, x.len() as int);
        assert(whole.take(x.len() as int) =~= x);
        assert(whole.skip(x.len() as int + 1) =~= y);
    } else {
        lemma_position_is(whole, c, p);
        assert(whole.take(p) =~= x.take(p));
        assert(whole.skip(p + 1) =~= x.skip(p + 1).push(c) + y);
        lemma_split_at(x.skip(p + 1), y);
        assert(seq![x.take(p)] + (split(x.skip(p + 1), c) + split(y, c)) =~= seq![x.take(p)]
            + split(x.skip(p + 1), c) + split(y, c));
    }
}

pub proof fn lemma_split_one(s: Seq<u8>)
    requires
        !s.contains(slash()),
    ensures
        split(s, slash()) == seq![s],
{
    lemma_position(s, slash());
}

pub proof fn lemma_split_slashed(kept: Seq<Seq<u8>>, absolute: bool)
    requires
        is_resolved(kept, absolute),
        kept.len() > 0,
    ensures
        split(slashed(kept), slash()) == kept,
        slashed(kept).len() > 0,
        slashed(kept)[0] == kept[0][0],
        slashed(kept).last() == kept.last().last(),
    decreases kept.len(),
{
    let last = kept.last();
    lemma_split_one(last);
    if kept.len() == 1 {
        assert(kept =~= seq![last]);
    } else {
        let shorter = kept.drop_last();
        assert forall|i: int| #![trigger shorter[i]] 0 <= i < shorter.len() implies {
            &&& shorter[i].len() > 0
            &&& shorter[i] != dot()
            &&& !shorter[i].contains(slash())
            &&& shorter[i] == dot_dot() ==> !absolute && (i > 0 ==> shorter[i - 1] == dot_dot())
        } by {
            assert(shorter[i] == kept[i]);
            if i > 0 {
                assert(shorter[i - 1] == kept[i - 1]);
            }
        }
        lemma_split_slashed(shorter, absolute);
        lemma_split_at(slashed(shorter), last);
        assert(shorter + seq![last] =~= kept);
    }
}

pub proof fn lemma_resolved_concat(
    a: Seq<Seq<u8>>,
    b: Seq<Seq<u8>>,
    kept: Seq<Seq<u8>>,
    absolute: bool,
)
    ensures
        resolved(a + b, kept, absolute) == resolved(b, resolved(a, kept, absolute), absolute),
    decreases a.len(),
{
    if a.len() == 0 {
        assert(a + b =~= b);
    } else {
        assert((a + b).drop_first() =~= a.drop_first() + b);
        lemma_resolved_concat(
            a.drop_first(),
            b,
            resolve_one(kept, a[0], absolute),
            absolute,
        );
    }
}

proof fn lemma_resolved_again(kept: Seq<Seq<u8>>, n: int, absolute: bool)
    requires
        is_resolved(kept, absolute),
        0 <= n <= kept.len(),
    ensures
        resolved(kept.skip(n), kept.take(n), absolute) == kept,
    decreases kept.len() - n,
{
    if n == kept.len() {
        assert(kept.take(n) =~= kept);
    } else {
        let segment = kept[n];
        assert(kept.skip(n)[0] == segment);
        assert(kept.skip(n).drop_first() =~= kept.skip(n + 1));
        if n > 0 {
            assert(kept.take(n).last() == kept[n - 1]);
        }
        assert(resolve_one(kept.take(n), segment, absolute) =~= kept.take(n + 1));
        lemma_resolved_again(kept, n + 1, absolute);
    }
}

pub proof fn lemma_resolved_with_empties(kept: Seq<Seq<u8>>, absolute: bool)
    requires
        is_resolved(kept, absolute),
    ensures
        resolved(kept, seq![], absolute) == kept,
        resolved(seq![seq![]] + kept, seq![], absolute) == kept,
        resolved(kept.push(seq![]), seq![], absolute) == kept,
        resolved((seq![seq![]] + kept).push(seq![]), seq![], absolute) == kept,
{
    let empty: Seq<Seq<u8>> = seq![seq![]];
    let nothing: Seq<Seq<u8>> = seq![];
    lemma_resolved_again(kept, 0, absolute);
    assert(kept.skip(0) =~= kept);
    assert(kept.take(0) =~= nothing);
    assert(resolved(empty, nothing, absolute) == nothing && resolved(empty, kept, absolute) == kept)
        by {
        reveal_with_fuel(resolved, 2);
        assert(empty.drop_first() =~= nothing);
    }
    lemma_resolved_concat(empty, kept, nothing, absolute);
    assert(kept.push(seq![]) =~= kept + empty);
    lemma_resolved_concat(kept, empty, nothing, absolute);
    assert((empty + kept).push(seq![]) =~= (empty + kept) + empty);
    lemma_resolved_concat(empty + kept, empty, nothing, absolute);
}

/// An empty segment, where there is one.
spec fn empty_if(there: bool) -> Seq<Seq<u8>> {
    if there {
        seq![seq![]]
    } else {
        seq![]
    }
}

/// Whether a normalised path ends in a slash.
spec fn ends_in_slash(s: Seq<u8>) -> bool {
    s.len() > 0 && s.last() == slash()
}

/// The segments of a normalised path are those it keeps, between the empty ones
/// that a slash at its start or its end makes.
proof fn lemma_normalized_segments(s: Seq<u8>)
    requires
        s.len() > 0,
        normalized_path(s).len() > 0,
    ensures
        ({
            let r = normalized_path(s);
            &&& is_absolute(r) == is_absolute(s)
            &&& split(r, slash()) == empty_if(is_absolute(s)) + kept_segments(s) + empty_if(
                ends_in_slash(r),
            )
            &&& kept_segments(s).len() > 0 ==> has_trailing_slash(r) == has_trailing_slash(s)
                && has_trailing_slash(r) == ends_in_slash(r)
            &&& kept_segments(s).len() == 0 ==> r == seq![slash()] && is_absolute(s)
        }),
{
    let c = slash();
    let absolute = is_absolute(s);
    let kept = kept_segments(s);
    let n = normalized_path(s);
    let body = if absolute {
        seq![c] + slashed(kept)
    } else {
        slashed(kept)
    };
    let nothing: Seq<u8> = seq![];
    let empty: Seq<Seq<u8>> = seq![nothing];
    kept_segments_are_resolved(s);
    lemma_split_one(nothing);
    if kept.len() == 0 {
        assert(slashed(kept) =~= nothing);
        assert(body =~= seq![c]);
        assert(n =~= seq![c]);
        assert(nothing.push(c) + nothing =~= n);
        lemma_split_at(nothing, nothing);
        assert(empty + kept + empty =~= empty + empty);
    } else {
        lemma_split_slashed(kept, absolute);
        let first = kept[0];
        assert(first.contains(first[0]));
        assert(kept.last().contains(kept.last().last()));
        assert(body.len() > 0);
        if absolute {
            assert(nothing.push(c) + slashed(kept) =~= body);
            lemma_split_at(nothing, slashed(kept));
            assert(split(body, c) =~= empty + kept);
            assert(body.len() > 1);
        } else {
            assert(split(body, c) =~= empty_if(false) + kept);
        }
        assert(body.last() == kept.last().last());
        assert(body != seq![c]) by {
            assert(seq![c].last() == c);
        }
        if has_trailing_slash(s) {
            assert(n == body.push(c));
            assert(body.push(c) + nothing =~= n);
            lemma_split_at(body, nothing);
            assert(split(n, c) =~= split(body, c).push(nothing));
            assert(n[0] == body[0]);
            assert(split(n, c) =~= empty_if(absolute) + kept + empty_if(true));
        } else {
            assert(n == body);
            assert(split(n, c) =~= empty_if(absolute) + kept + empty_if(false));
        }
    }
}

/// Normalising a path twice is normalising it once.
pub proof fn normalizing_is_idempotent(s: Seq<u8>)
    ensures
        normalized_path(normalized_path(s)) == normalized_path(s),
{
    let n = normalized_path(s);
    if n.len() > 0 {
        let absolute = is_absolute(s);
        let kept = kept_segments(s);
        let nothing: Seq<u8> = seq![];
        lemma_normalized_segments(s);
        kept_segments_are_resolved(s);
        lemma_resolved_with_empties(kept, absolute);
        assert(empty_if(false) + kept + empty_if(false) =~= kept);
        assert(empty_if(true) + kept + empty_if(false) =~= seq![nothing] + kept);
        assert(empty_if(false) + kept + empty_if(true) =~= kept.push(nothing));
        assert(empty_if(true) + kept + empty_if(true) =~= (seq![nothing] + kept).push(nothing));
        assert(kept_segments(n) == kept);
        if kept.len() == 0 {
            assert(slashed(kept) =~= nothing);
            assert(seq![slash()] + slashed(kept) =~= seq![slash()]);
        }
    }
}

proof fn lemma_double_slash(s: Seq<u8>, i: int)
    requires
        0 <= i < s.len() - 1,
        s[i] == slash(),
        s[i + 1] == slash(),
    ensures
        exists|k: int|
            0 < k < split(s, slash()).len() - 1 && (#[trigger] split(s, slash())[k]).len() == 0,
{
    let c = slash();
    let nothing: Seq<u8> = seq![];
    let x = s.take(i);
    let y = s.skip(i + 1);
    let z = s.skip(i + 2);
    assert(x.push(c) + y =~= s);
    assert(nothing.push(c) + z =~= y);
    lemma_split_at(x, y);
    lemma_split_at(nothing, z);
    lemma_split_one(nothing);
    lemma_split_no_slashes(x);
    lemma_split_no_slashes(z);
    let k = split(x, c).len() as int;
    assert(split(s, c)[k] == split(y, c)[0]);
    assert(split(y, c)[0] == nothing);
}

/// A normalised path is clean: it is absolute exactly where the path was, holds
/// no `//` and no `.` segment, and `..` only as a run in front of a relative path;
/// and it ends in a slash where it is the root, or where the path did and anything
/// is left of it.
pub proof fn normalized_paths_are_clean(s: Seq<u8>)
    ensures
        ({
            let r = normalized_path(s);
            let segments = split(r, slash());
            &&& is_absolute(r) == is_absolute(s)
            &&& forall|i: int|
                0 <= i < r.len() - 1 ==> !(#[trigger] r[i] == slash() && r[i + 1] == slash())
            &&& forall|i: int| 0 <= i < segments.len() ==> #[trigger] segments[i] != dot()
            &&& forall|i: int, j: int|
                0 <= j <= i < segments.len() && #[trigger] segments[i] == dot_dot()
                    ==> !is_absolute(s) && #[trigger] segments[j] == dot_dot()
            &&& (r.len() > 0 && r.last() == slash()) <==> (r == seq![slash()] || (s.len() > 0
                && s.last() == slash() && r.len() > 0))
        }),
{
    let r = normalized_path(s);
    let c = slash();
    let nothing: Seq<u8> = seq![];
    if r.len() == 0 {
        lemma_split_one(nothing);
        assert(r =~= nothing);
        assert(split(r, c) =~= seq![nothing]);
        assert(nothing != dot() && nothing != dot_dot()) by {
            assert(dot().len() == 1 && dot_dot().len() == 2);
        }
        if is_absolute(s) {
            assert((seq![c] + slashed(kept_segments(s))).len() > 0);
        }
    } else {
        let kept = kept_segments(s);
        let segments = split(r, c);
        lemma_normalized_segments(s);
        kept_segments_are_resolved(s);
        let front = empty_if(is_absolute(s)).len() as int;
        assert forall|i: int| 0 <= i < segments.len() implies #[trigger] segments[i] == (if front
            <= i < front + kept.len() {
            kept[i - front]
        } else {
            nothing
        }) by {}
        assert forall|i: int| 0 <= i < r.len() - 1 implies !(#[trigger] r[i] == c && r[i + 1]
            == c) by {
            if r[i] == c && r[i + 1] == c {
                lemma_double_slash(r, i);
                let k = choose|k: int|
                    0 < k < segments.len() - 1 && (#[trigger] segments[k]).len() == 0;
                assert(segments[k] == kept[k - front]);
            }
        }
        assert forall|i: int| 0 <= i < segments.len() implies #[trigger] segments[i] != dot() by {
            assert(dot().len() == 1);
        }
        assert forall|i: int, j: int|
            0 <= j <= i < segments.len() && #[trigger] segments[i]
                == dot_dot() implies !is_absolute(s) && #[trigger] segments[j] == dot_dot() by {
            assert(dot_dot().len() == 2);
            assert(segments[i] == kept[i - front]);
            lemma_dots_lead(kept, is_absolute(s), i - front, j - front);
        }
        if kept.len() > 0 {
            assert(r != seq![c]) by {
                if r == seq![c] {
                    assert(nothing.push(c) + nothing =~= r);
                    lemma_split_at(nothing, nothing);
                    lemma_split_one(nothing);
                    assert(split(r, c) =~= seq![nothing, nothing]);
                    assert(is_absolute(s));
                    assert(segments[1] == kept[0]);
                }
            }
            if s.len() == 1 && s[0] == c {
                assert(nothing.push(c) + nothing =~= s);
                lemma_split_at(nothing, nothing);
                lemma_split_one(nothing);
                reveal_with_fuel(resolved, 3);
                assert(split(s, c) =~= seq![nothing, nothing]);
                assert(split(s, c).drop_first() =~= seq![nothing]);
                assert(split(s, c).drop_first().drop_first() =~= seq![]);
                assert(kept =~= seq![]);
            }
        } else {
            assert(s[0] == c);
        }
    }
}

proof fn lemma_dots_lead(kept: Seq<Seq<u8>>, absolute: bool, i: int, j: int)
    requires
        is_resolved(kept, absolute),
        0 <= i < kept.len(),
        j <= i,
        kept[i] == dot_dot(),
    ensures
        !absolute,
        0 <= j ==> kept[j] == dot_dot(),
    decreases i - j,
{
    if 0 <= j < i {
        assert(kept[i - 1] == dot_dot());
        lemma_dots_lead(kept, absolute, i - 1, j);
    }
}

} // verus!
