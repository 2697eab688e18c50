//! What path normalisation makes of a path: which segments cancel, and that a path
//! with nothing to cancel is kept.

use crate::action::Transformation;
use crate::path::dot;
use crate::path::dot_dot;
use crate::path::has_trailing_slash;
use crate::path::is_absolute;
use crate::path::is_resolved;
use crate::path::kept_segments;
use crate::path::lemma_resolved_concat;
use crate::path::lemma_split_at;
use crate::path::lemma_split_one;
use crate::path::lemma_split_slashed;
use crate::path::normalized_path;
use crate::path::resolve_one;
use crate::path::resolved;
use crate::path::slash;
use crate::path::slashed;
use crate::text::split;
use crate::transform::transformed;
use vstd::prelude::*;

verus! {

/// What `normalizePath` makes of a path.
pub open spec fn normal(s: Seq<u8>) -> Seq<u8> {
    transformed(Transformation::NormalizePath, s)
}

/// The segments `.` and `..`.
pub open spec fn one_dot() -> Seq<u8> {
    seq![0x2eu8]
}

pub open spec fn two_dots() -> Seq<u8> {
    seq![0x2eu8, 0x2eu8]
}

/// Whether a segment is an ordinary name.
pub open spec fn is_name(s: Seq<u8>) -> bool {
    s.len() > 0 && s != one_dot() && s != two_dots() && !s.contains(0x2f)
}

/// Whether a prefix of a path is whole segments: nothing, or something that ends in
/// a slash.
pub open spec fn is_front(p: Seq<u8>) -> bool {
    p.len() == 0 || p.last() == 0x2f
}

proof fn lemma_segments(p: Seq<u8>, s: Seq<u8>, b: Seq<u8>)
    requires
        is_front(p),
        !s.contains(0x2f),
    ensures
        ({
            let front = if p.len() == 0 {
                Seq::<Seq<u8>>::empty()
            } else {
                split(p.drop_last(), slash())
            };
            &&& split(p + s.push(0x2f) + b, slash()) == front + seq![s] + split(b, slash())
            &&& split(p + b, slash()) == front + split(b, slash())
            &&& split(p + s, slash()) == front + seq![s]
        }),
{
    let c = slash();
    lemma_split_one(s);
    lemma_split_at(s, b);
    let tail = s.push(c) + b;
    if p.len() == 0 {
        assert(p + s.push(0x2f) + b =~= tail);
        assert(p + b =~= b);
        assert(p + s =~= s);
        let front = Seq::<Seq<u8>>::empty();
        assert(front + seq![s] + split(b, c) =~= seq![s] + split(b, c));
        assert(front + split(b, c) =~= split(b, c));
        assert(front + seq![s] =~= seq![s]);
    } else {
        let q = p.drop_last();
        assert(p =~= q.push(c));
        assert(p + s.push(0x2f) + b =~= q.push(c) + tail);
        lemma_split_at(q, tail);
        lemma_split_at(q, b);
        lemma_split_at(q, s);
        assert(split(q, c) + seq![s] + split(b, c) =~= split(q, c) + (seq![s] + split(b, c)));
    }
}

proof fn lemma_same_kept(s: Seq<u8>, t: Seq<u8>)
    requires
        kept_segments(s) == kept_segments(t),
        is_absolute(s) == is_absolute(t),
        has_trailing_slash(s) == has_trailing_slash(t) || kept_segments(s).len() == 0,
        s.len() > 0,
    ensures
        normalized_path(s) == normalized_path(t),
{
    let kept = kept_segments(s);
    if kept.len() == 0 {
        assert(slashed(kept) =~= seq![]);
        assert(seq![slash()] + slashed(kept) =~= seq![slash()]);
        if t.len() == 0 {
            assert(normalized_path(s) =~= t);
        }
    } else if t.len() == 0 {
        let nothing: Seq<u8> = seq![];
        assert(t =~= nothing);
        lemma_split_one(nothing);
        reveal_with_fuel(resolved, 2);
        assert(split(t, slash()).drop_first() =~= seq![]);
        assert(kept_segments(t) =~= seq![]);
    }
}

proof fn lemma_two(a: Seq<u8>, b: Seq<u8>, kept: Seq<Seq<u8>>, absolute: bool)
    ensures
        resolved(seq![a], kept, absolute) == resolve_one(kept, a, absolute),
        resolved(seq![a, b], kept, absolute) == resolve_one(
            resolve_one(kept, a, absolute),
            b,
            absolute,
        ),
{
    reveal_with_fuel(resolved, 3);
    assert(seq![a].drop_first() =~= seq![]);
    assert(seq![a, b].drop_first() =~= seq![b]);
    assert(seq![a, b].drop_first().drop_first() =~= seq![]);
}

/// A `.` and an empty segment say nothing: a path is the same without them.
pub proof fn empty_and_single_dot_segments_go(p: Seq<u8>, s: Seq<u8>, b: Seq<u8>)
    requires
        is_front(p),
        s == one_dot() || s.len() == 0 && p.len() > 0,
        p.len() > 0 || b.len() == 0 || b[0] != 0x2f,
    ensures
        normal(p + s.push(0x2f) + b) == normal(p + b),
{
    let whole = p + s.push(0x2f) + b;
    let without = p + b;
    let nothing: Seq<Seq<u8>> = seq![];
    assert(!s.contains(0x2f));
    lemma_segments(p, s, b);
    let front = if p.len() == 0 {
        nothing
    } else {
        split(p.drop_last(), slash())
    };
    let absolute = is_absolute(whole);
    assert(is_absolute(whole) == is_absolute(without)) by {
        if p.len() > 0 {
            assert(whole[0] == p[0] && without[0] == p[0]);
        } else {
            assert(whole[0] == s[0]);
            if b.len() > 0 {
                assert(without[0] == b[0]);
            }
        }
    }
    lemma_resolved_concat(front + seq![s], split(b, slash()), nothing, absolute);
    lemma_resolved_concat(front, seq![s], nothing, absolute);
    lemma_resolved_concat(front, split(b, slash()), nothing, absolute);
    lemma_two(s, s, resolved(front, nothing, absolute), absolute);
    lemma_trailing(whole, without, p, b);
    lemma_same_kept(whole, without);
}

/// A name and the `..` behind it cancel.
pub proof fn a_name_and_double_dots_cancel(p: Seq<u8>, name: Seq<u8>, b: Seq<u8>)
    requires
        is_front(p),
        is_name(name),
        p.len() > 0 || b.len() == 0 || b[0] != 0x2f,
    ensures
        normal(p + name.push(0x2f) + two_dots().push(0x2f) + b) == normal(p + b),
{
    let dd = two_dots();
    let inner = p + name.push(0x2f);
    let whole = inner + dd.push(0x2f) + b;
    let without = p + b;
    let nothing: Seq<Seq<u8>> = seq![];
    assert(!dd.contains(0x2f));
    assert(dd =~= dot_dot());
    lemma_segments(p, name, b);
    lemma_segments(inner, dd, b);
    let front = if p.len() == 0 {
        nothing
    } else {
        split(p.drop_last(), slash())
    };
    assert(inner.drop_last() =~= p + name);
    lemma_segments(p, name, b);
    let absolute = is_absolute(whole);
    assert(is_absolute(whole) == is_absolute(without)) by {
        if p.len() > 0 {
            assert(whole[0] == p[0] && without[0] == p[0]);
        } else {
            assert(whole[0] == name[0]);
            assert(name.contains(name[0]));
            if b.len() > 0 {
                assert(without[0] == b[0]);
            }
        }
    }
    assert(split(whole, slash()) == front + seq![name] + seq![dd] + split(b, slash()));
    assert(front + seq![name] + seq![dd] =~= front + seq![name, dd]);
    lemma_resolved_concat(front + seq![name, dd], split(b, slash()), nothing, absolute);
    lemma_resolved_concat(front, seq![name, dd], nothing, absolute);
    lemma_resolved_concat(front, split(b, slash()), nothing, absolute);
    let kept = resolved(front, nothing, absolute);
    lemma_two(name, dd, kept, absolute);
    assert(one_dot() =~= dot());
    assert(kept.push(name).drop_last() =~= kept);
    assert(resolve_one(resolve_one(kept, name, absolute), dd, absolute) == kept);
    lemma_trailing(whole, without, p, b);
    lemma_same_kept(whole, without);
}

proof fn lemma_trailing(whole: Seq<u8>, without: Seq<u8>, p: Seq<u8>, b: Seq<u8>)
    requires
        is_front(p),
        without == p + b,
        whole.len() > without.len(),
        whole.len() >= 2,
        b.len() > 0 ==> whole.last() == b.last(),
        b.len() == 0 ==> whole.last() == 0x2f,
    ensures
        has_trailing_slash(whole) == has_trailing_slash(without) || kept_segments(without).len()
            == 0,
{
    if b.len() > 0 {
        assert(without.last() == b.last());
        if without.len() == 1 && b.last() == 0x2f {
            assert(p.len() == 0);
            assert(without =~= seq![0x2fu8]);
            lemma_root(without);
        }
    } else {
        assert(without =~= p);
        if p.len() == 0 {
            let nothing: Seq<u8> = seq![];
            assert(without =~= nothing);
            lemma_split_one(nothing);
            reveal_with_fuel(resolved, 2);
            assert(split(without, slash()).drop_first() =~= seq![]);
            assert(kept_segments(without) =~= seq![]);
        } else if p.len() == 1 {
            assert(without =~= seq![0x2fu8]);
            lemma_root(without);
        }
    }
}

proof fn lemma_root(s: Seq<u8>)
    requires
        s == seq![0x2fu8],
    ensures
        kept_segments(s).len() == 0,
{
    let nothing: Seq<u8> = seq![];
    assert(nothing.push(slash()) + nothing =~= s);
    lemma_split_at(nothing, nothing);
    lemma_split_one(nothing);
    lemma_two(nothing, nothing, seq![], true);
    assert(split(s, slash()) =~= seq![nothing, nothing]);
}

/// A `..` at the end cancels the name before it, as a `.` in its place would.
pub proof fn double_dots_at_the_end_cancel(p: Seq<u8>, name: Seq<u8>)
    requires
        is_front(p),
        is_name(name),
    ensures
        normal(p + name.push(0x2f) + two_dots()) == normal(p + one_dot()),
{
    let dd = two_dots();
    let d = one_dot();
    let inner = p + name.push(0x2f);
    let whole = inner + dd;
    let without = p + d;
    let nothing: Seq<Seq<u8>> = seq![];
    assert(!dd.contains(0x2f) && !d.contains(0x2f));
    assert(dd =~= dot_dot() && d =~= dot());
    lemma_segments(p, name, nothing_bytes());
    lemma_segments(p, d, nothing_bytes());
    lemma_segments(inner, dd, nothing_bytes());
    assert(inner.drop_last() =~= p + name);
    let front = if p.len() == 0 {
        nothing
    } else {
        split(p.drop_last(), slash())
    };
    let absolute = is_absolute(whole);
    assert(is_absolute(whole) == is_absolute(without)) by {
        if p.len() > 0 {
            assert(whole[0] == p[0] && without[0] == p[0]);
        } else {
            assert(whole[0] == name[0]);
            assert(name.contains(name[0]));
            assert(without[0] == 0x2e);
        }
    }
    assert(front + seq![name] + seq![dd] =~= front + seq![name, dd]);
    lemma_resolved_concat(front, seq![name, dd], nothing, absolute);
    lemma_resolved_concat(front, seq![d], nothing, absolute);
    let kept = resolved(front, nothing, absolute);
    lemma_two(name, dd, kept, absolute);
    lemma_two(d, d, kept, absolute);
    assert(kept.push(name).drop_last() =~= kept);
    assert(resolve_one(resolve_one(kept, name, absolute), dd, absolute) == kept);
    assert(whole.last() == 0x2e && without.last() == 0x2e);
    lemma_same_kept(whole, without);
}

spec fn nothing_bytes() -> Seq<u8> {
    seq![]
}

/// A `.` at the end says nothing: the path is the one before its slash.
pub proof fn a_dot_at_the_end_goes(q: Seq<u8>)
    requires
        q.len() > 0,
        q.last() != 0x2f,
    ensures
        normal(q.push(0x2f) + one_dot()) == normal(q),
{
    let d = one_dot();
    let whole = q.push(0x2f) + d;
    let nothing: Seq<Seq<u8>> = seq![];
    assert(!d.contains(0x2f));
    assert(d =~= dot());
    lemma_split_at(q, d);
    lemma_split_one(d);
    let absolute = is_absolute(whole);
    assert(whole[0] == q[0]);
    lemma_resolved_concat(split(q, slash()), seq![d], nothing, absolute);
    lemma_two(d, d, resolved(split(q, slash()), nothing, absolute), absolute);
    assert(whole.last() == 0x2e);
    lemma_same_kept(whole, q);
}

/// A path from the root cannot climb above it: a leading `..` goes.
pub proof fn the_root_has_nothing_above_it(b: Seq<u8>)
    ensures
        normal(seq![0x2fu8] + two_dots().push(0x2f) + b) == normal(seq![0x2fu8] + b),
{
    let p = seq![0x2fu8];
    let dd = two_dots();
    let whole = p + dd.push(0x2f) + b;
    let without = p + b;
    let nothing: Seq<Seq<u8>> = seq![];
    assert(!dd.contains(0x2f));
    assert(dd =~= dot_dot());
    lemma_segments(p, dd, b);
    let none: Seq<u8> = seq![];
    assert(p.drop_last() =~= none);
    lemma_split_one(none);
    let front = split(p.drop_last(), slash());
    assert(whole[0] == 0x2f && without[0] == 0x2f);
    lemma_resolved_concat(front + seq![dd], split(b, slash()), nothing, true);
    lemma_resolved_concat(front, seq![dd], nothing, true);
    lemma_resolved_concat(front, split(b, slash()), nothing, true);
    lemma_two(none, none, nothing, true);
    lemma_two(dd, dd, nothing, true);
    assert(resolve_one(nothing, dd, true) == nothing);
    assert(b.len() > 0 ==> whole.last() == b.last());
    lemma_trailing(whole, without, p, b);
    lemma_same_kept(whole, without);
}

/// Segments with a slash between each two.
pub open spec fn joined(segments: Seq<Seq<u8>>) -> Seq<u8>
    decreases segments.len(),
{
    if segments.len() == 0 {
        seq![]
    } else if segments.len() == 1 {
        segments[0]
    } else {
        segments[0] + seq![0x2fu8] + joined(segments.drop_first())
    }
}

proof fn lemma_joined(segments: Seq<Seq<u8>>)
    ensures
        slashed(segments) == joined(segments),
    decreases segments.len(),
{
    if segments.len() == 2 {
        reveal_with_fuel(slashed, 3);
        reveal_with_fuel(joined, 3);
        assert(segments.drop_last()[0] == segments[0]);
        assert(segments.drop_first()[0] == segments[1]);
        assert(segments[0].push(slash()) + segments[1] =~= segments[0] + seq![0x2fu8]
            + segments[1]);
    } else if segments.len() > 2 {
        let a = segments.drop_last();
        let b = segments.drop_first();
        let m = a.drop_first();
        lemma_joined(a);
        lemma_joined(b);
        lemma_joined(m);
        assert(m =~= b.drop_last());
        assert(a[0] == segments[0] && b.last() == segments.last());
        assert((segments[0] + seq![0x2fu8] + joined(m)).push(slash()) + segments.last()
            =~= segments[0] + seq![0x2fu8] + (joined(m).push(slash()) + segments.last()));
    }
}

/// Whether segments are as a normalised path has them: names, behind `..`s where the
/// path is relative.
pub open spec fn are_normal(segments: Seq<Seq<u8>>, absolute: bool) -> bool {
    exists|n: int|
        0 <= n <= segments.len() && (absolute ==> n == 0) && #[trigger] dots_then_names(segments, n)
}

/// Whether the first `n` segments are `..` and the others names.
pub open spec fn dots_then_names(segments: Seq<Seq<u8>>, n: int) -> bool {
    forall|i: int|
        0 <= i < segments.len() ==> if i < n {
            #[trigger] segments[i] == two_dots()
        } else {
            is_name(segments[i])
        }
}

/// A path with nothing to cancel is kept as it is.
pub proof fn normal_paths_are_kept(segments: Seq<Seq<u8>>, absolute: bool, trailing: bool)
    requires
        segments.len() > 0,
        are_normal(segments, absolute),
    ensures
        ({
            let path = (if absolute {
                seq![0x2fu8]
            } else {
                Seq::<u8>::empty()
            }) + joined(segments) + (if trailing {
                seq![0x2fu8]
            } else {
                Seq::<u8>::empty()
            });
            normal(path) == path
        }),
{
    let n = choose|n: int|
        0 <= n <= segments.len() && (absolute ==> n == 0) && #[trigger] dots_then_names(segments, n);
    assert(two_dots() =~= dot_dot() && one_dot() =~= dot());
    assert(dot_dot().len() == 2 && dot().len() == 1);
    assert forall|i: int| #![trigger segments[i]] 0 <= i < segments.len() implies {
        &&& segments[i].len() > 0
        &&& segments[i] != dot()
        &&& !segments[i].contains(slash())
        &&& segments[i] == dot_dot() ==> !absolute && (i > 0 ==> segments[i - 1] == dot_dot())
    } by {
        if i > 0 {
            assert(segments[i - 1] == segments[i - 1]);
        }
        assert(!dot_dot().contains(slash()));
    }
    assert(is_resolved(segments, absolute));
    lemma_joined(segments);
    lemma_split_slashed(segments, absolute);
    let body = slashed(segments);
    let c = slash();
    let none: Seq<u8> = seq![];
    let empty: Seq<Seq<u8>> = seq![none];
    let front: Seq<u8> = if absolute {
        seq![c]
    } else {
        none
    };
    let end: Seq<u8> = if trailing {
        seq![c]
    } else {
        none
    };
    let path = front + body + end;
    lemma_split_one(none);
    lemma_split_at(none, body);
    assert(none.push(c) + body =~= seq![c] + body);
    let headed = front + body;
    assert(none + body =~= body);
    assert(split(headed, c) == if absolute {
        empty + segments
    } else {
        segments
    });
    lemma_split_at(headed, none);
    assert(headed.push(c) + none =~= headed + seq![c]);
    assert(headed + none =~= headed);
    assert(segments[0].contains(segments[0][0]));
    assert(segments.last().contains(segments.last().last()));
    assert(path[0] == if absolute {
        c
    } else {
        segments[0][0]
    });
    assert(headed.last() == segments.last().last());
    assert(is_absolute(path) == absolute);
    assert(has_trailing_slash(path) == trailing);
    crate::path::lemma_resolved_with_empties(segments, absolute);
    assert((empty + segments) + empty =~= (empty + segments).push(none));
    assert(segments + empty =~= segments.push(none));
    assert(kept_segments(path) == segments);
    assert(headed != seq![c]) by {
        assert(seq![c].last() == c);
    }
    if trailing {
        assert(path =~= headed.push(c));
    } else {
        assert(path =~= headed);
    }
    assert(absolute || headed =~= body);
}

/// `normalizePathWin` is the same, with each backslash read as a slash.
pub proof fn backslashes_are_slashes(s: Seq<u8>, t: Seq<u8>)
    requires
        s.len() == t.len(),
        forall|i: int|
            0 <= i < s.len() ==> #[trigger] t[i] == if s[i] == 0x5c {
                0x2fu8
            } else {
                s[i]
            },
    ensures
        transformed(Transformation::NormalizePathWin, s) == normal(t),
{
    assert(crate::transform::forward_slashed(s) =~= t);
}

/// Nothing becomes nothing, but for its length and its digest.
pub proof fn nothing_stays_nothing(t: Transformation)
    requires
        t != Transformation::Length,
        t != Transformation::Sha1,
    ensures
        transformed(t, Seq::<u8>::empty()) == Seq::<u8>::empty(),
{
    let none = Seq::<u8>::empty();
    reveal(Seq::filter);
    assert(crate::transform::forward_slashed(none) =~= none);
    assert(crate::transform::hex_encoded(none) =~= none);
    assert(crate::bytes::lower_bytes(none) =~= none);
    assert(none.filter(|b: u8| !crate::transform::is_shell_noise(b)) =~= none);
    assert(crate::transform::closed_up(none) =~= none);
    assert(none.map_values(|b: u8| crate::transform::spaced(b)) =~= none);
    assert(crate::transform::collapsed(none) =~= none);
    assert(none.map_values(|b: u8| crate::bytes::lower_byte(b)) =~= none);
    assert(crate::decode::sextets(none) =~= none);
    assert(crate::decode::packed(none) =~= none);
}

} // verus!
