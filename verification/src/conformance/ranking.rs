//! Where the remaining work is: counts, the largest first.

use crate::conformance::stages::files_view;
use crate::text::is_less;
use crate::text::text_less;
use crate::text::text_order_is_transitive;
use crate::text::texts_are_ordered;
use vstd::prelude::*;
use vstd::seq_lib::to_multiset_insert;

verus! {

/// Whether a count by id is listed no later than another: the larger first, and
/// of equal ones that of the smaller id.
pub open spec fn id_ranks_before(a: (u32, usize), b: (u32, usize)) -> bool {
    a.1 > b.1 || (a.1 == b.1 && a.0 <= b.0)
}

/// Whether a count by name is listed no later than another: the larger first,
/// and of equal ones that of the name that comes first.
pub open spec fn name_ranks_before(a: (Seq<char>, usize), b: (Seq<char>, usize)) -> bool {
    a.1 > b.1 || (a.1 == b.1 && !text_less(b.0, a.0))
}

/// Whether counts by id stand in their order.
pub open spec fn ids_ranked(counts: Seq<(u32, usize)>) -> bool {
    forall|i: int, j: int|
        0 <= i < j < counts.len() ==> id_ranks_before(#[trigger] counts[i], #[trigger] counts[j])
}

/// Whether counts by name stand in their order.
pub open spec fn names_ranked(counts: Seq<(Seq<char>, usize)>) -> bool {
    forall|i: int, j: int|
        0 <= i < j < counts.len() ==> name_ranks_before(#[trigger] counts[i], #[trigger] counts[j])
}

/// Counts by id, the largest first.
pub fn rank_ids(counts: &Vec<(u32, usize)>) -> (r: Vec<(u32, usize)>)
    ensures
        ids_ranked(r@),
        r@.to_multiset() == counts@.to_multiset(),
{
    let mut out: Vec<(u32, usize)> = Vec::new();
    let mut i: usize = 0;
    assert(out@ =~= counts@.take(0));
    while i < counts.len()
        invariant
            i <= counts@.len(),
            ids_ranked(out@),
            out@.to_multiset() == counts@.take(i as int).to_multiset(),
        decreases counts@.len() - i,
    {
        let one = counts[i];
        let mut at: usize = 0;
        while at < out.len() && (out[at].1 > one.1 || (out[at].1 == one.1 && out[at].0 <= one.0))
            invariant
                at <= out@.len(),
                forall|k: int| 0 <= k < at ==> id_ranks_before(#[trigger] out@[k], one),
            decreases out@.len() - at,
        {
            at += 1;
        }
        proof {
            to_multiset_insert(out@, at as int, one);
            to_multiset_insert(counts@.take(i as int), i as int, one);
            assert(counts@.take(i as int).insert(i as int, one) =~= counts@.take(i + 1));
        }
        out.insert(at, one);
        i += 1;
    }
    assert(counts@.take(i as int) =~= counts@);
    out
}

proof fn lemma_name_rank(
    a: (Seq<char>, usize),
    b: (Seq<char>, usize),
    c: (Seq<char>, usize),
)
    requires
        !name_ranks_before(b, a),
        name_ranks_before(b, c),
    ensures
        name_ranks_before(a, c),
        name_ranks_before(a, b),
{
    texts_are_ordered(a.0, b.0);
    texts_are_ordered(b.0, c.0);
    texts_are_ordered(a.0, c.0);
    if a.1 == b.1 && b.1 == c.1 && text_less(c.0, a.0) {
        text_order_is_transitive(c.0, a.0, b.0);
    }
}

/// Counts by name, the largest first.
pub fn rank_names(counts: Vec<(String, usize)>) -> (r: Vec<(String, usize)>)
    ensures
        names_ranked(files_view(r@)),
        files_view(r@).to_multiset() == files_view(counts@).to_multiset(),
{
    let ghost all = files_view(counts@);
    let mut out: Vec<(String, usize)> = Vec::new();
    let mut i: usize = 0;
    assert(files_view(out@) =~= all.take(0));
    while i < counts.len()
        invariant
            i <= counts@.len(),
            all == files_view(counts@),
            names_ranked(files_view(out@)),
            files_view(out@).to_multiset() == all.take(i as int).to_multiset(),
        decreases counts@.len() - i,
    {
        let name = counts[i].0.as_str();
        let count: usize = counts[i].1;
        let ghost one = (name@, count);
        let ghost done = files_view(out@);
        let mut at: usize = 0;
        while at < out.len() && (out[at].1 > count || (out[at].1 == count && !is_less(
            name,
            out[at].0.as_str(),
        )))
            invariant
                at <= out@.len(),
                done == files_view(out@),
                one == (name@, count),
                forall|k: int| 0 <= k < at ==> name_ranks_before(#[trigger] done[k], one),
            decreases out@.len() - at,
        {
            assert(done[at as int] == (out@[at as int].0@, out@[at as int].1));
            at += 1;
        }
        let ghost next = done.insert(at as int, one);
        proof {
            if at < done.len() {
                let b = done[at as int];
                assert(b == (out@[at as int].0@, out@[at as int].1));
                texts_are_ordered(b.0, b.0);
                assert forall|k: int| at <= k < done.len() implies name_ranks_before(
                    one,
                    #[trigger] done[k],
                ) by {
                    lemma_name_rank(one, b, done[k]);
                }
            }
            assert(names_ranked(next));
            to_multiset_insert(done, at as int, one);
            to_multiset_insert(all.take(i as int), i as int, one);
            assert(all.take(i as int).insert(i as int, one) =~= all.take(i + 1));
        }
        out.insert(at, (name.to_string(), count));
        assert(files_view(out@) =~= next);
        i += 1;
    }
    assert(all.take(i as int) =~= all);
    out
}

} // verus!
