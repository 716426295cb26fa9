//! What a full summary accounts for: every frame and every sample of the
//! tree, once.
use vstd::prelude::*;

use crate::arena::{
    is_ancestor,
    lemma_ancestor_bounds,
    lemma_root_is_ancestor,
    sat,
    FlameTree,
};
use crate::subtree::{
    lemma_ancestor_trans,
    lemma_child_listed,
    lemma_child_on_path,
    lemma_siblings_apart,
    lemma_subtree_sum_split,
    subtrees_sum,
};
use crate::summarize::{
    insertion_point,
    lemma_insertion_point,
    lemma_ordered_children_distinct,
    lemma_ordered_children_range,
    lemma_sort_by_total,
    ordered_children,
    preorder,
    preorder_list,
    sort_by_total,
    summary_order,
};

verus! {

broadcast use vstd::seq_lib::to_multiset_contains;

/// The summed own counts of the frames of `rows`.
pub open spec fn rows_self_sum(t: FlameTree, rows: Seq<(int, int)>) -> int
    decreases rows.len(),
{
    if rows.len() == 0 {
        0
    } else {
        t.nodes()[rows[0].0].self_count + rows_self_sum(t, rows.drop_first())
    }
}

proof fn lemma_rows_self_sum_concat(t: FlameTree, a: Seq<(int, int)>, b: Seq<(int, int)>)
    ensures
        rows_self_sum(t, a + b) == rows_self_sum(t, a) + rows_self_sum(t, b),
    decreases a.len(),
{
    if a.len() == 0 {
        assert(a + b =~= b);
    } else {
        lemma_rows_self_sum_concat(t, a.drop_first(), b);
        assert((a + b).drop_first() =~= a.drop_first() + b);
    }
}

proof fn lemma_subtrees_sum_concat(t: FlameTree, a: Seq<int>, b: Seq<int>)
    ensures
        subtrees_sum(t.parents(), t.self_counts(), a + b, t.len() as int) == subtrees_sum(
            t.parents(),
            t.self_counts(),
            a,
            t.len() as int,
        ) + subtrees_sum(t.parents(), t.self_counts(), b, t.len() as int),
    decreases a.len(),
{
    if a.len() == 0 {
        assert(a + b =~= b);
    } else {
        lemma_subtrees_sum_concat(t, a.drop_first(), b);
        assert((a + b).drop_first() =~= a.drop_first() + b);
    }
}

/// Ordering the children by total keeps their summed subtree sums.
proof fn lemma_subtrees_sum_sorted(t: FlameTree, cs: Seq<int>)
    ensures
        subtrees_sum(t.parents(), t.self_counts(), sort_by_total(t.totals(), cs), t.len() as int)
            == subtrees_sum(t.parents(), t.self_counts(), cs, t.len() as int),
    decreases cs.len(),
{
    if cs.len() > 0 {
        let s = sort_by_total(t.totals(), cs.drop_last());
        let x = cs.last();
        let k = insertion_point(t.totals(), x, s);
        lemma_subtrees_sum_sorted(t, cs.drop_last());
        lemma_insertion_point(t.totals(), x, s);
        assert(s.insert(k, x) =~= s.take(k) + (seq![x] + s.skip(k)));
        assert(s =~= s.take(k) + s.skip(k));
        assert(cs =~= cs.drop_last() + seq![x]);
        lemma_subtrees_sum_concat(t, s.take(k), seq![x] + s.skip(k));
        lemma_subtrees_sum_concat(t, seq![x], s.skip(k));
        lemma_subtrees_sum_concat(t, s.take(k), s.skip(k));
        lemma_subtrees_sum_concat(t, cs.drop_last(), seq![x]);
        assert(seq![x].drop_first() =~= Seq::<int>::empty());
        assert(subtrees_sum(t.parents(), t.self_counts(), Seq::<int>::empty(), t.len() as int) == 0);
        assert(sort_by_total(t.totals(), cs) == s.insert(k, x));
    }
}

/// The summary rows of the subtree of `id` hold its samples once each.
proof fn lemma_preorder_self_sum(t: FlameTree, id: int, depth: int)
    requires
        t.wf(),
        0 <= id < t.len(),
    ensures
        rows_self_sum(t, preorder(t, id, depth)) == t.subtree_total(id),
    decreases t.len() - id, 1int, 0int,
{
    t.lemma_wf_parents();
    let cs = ordered_children(t, id);
    lemma_ordered_children_range(t, id);
    lemma_preorder_list_self_sum(t, id, cs, depth + 1);
    let head = seq![(id, depth)];
    let rest = preorder_list(t, id, cs, depth + 1);
    assert(preorder(t, id, depth) == head + rest);
    lemma_rows_self_sum_concat(t, head, rest);
    assert(head.drop_first() =~= Seq::<(int, int)>::empty());
    assert(rows_self_sum(t, Seq::<(int, int)>::empty()) == 0);
    lemma_subtrees_sum_sorted(t, t.children(id));
    lemma_subtree_sum_split(t.parents(), t.self_counts(), id, t.len() as int);
    assert(t.self_counts()[id] == t.nodes()[id].self_count);
}

/// The summary rows of the subtrees of `cs`, children of `p`, hold their
/// samples once each.
proof fn lemma_preorder_list_self_sum(t: FlameTree, p: int, cs: Seq<int>, depth: int)
    requires
        t.wf(),
        0 <= p,
        forall|k: int| 0 <= k < cs.len() ==> p < #[trigger] cs[k] < t.len(),
    ensures
        rows_self_sum(t, preorder_list(t, p, cs, depth)) == subtrees_sum(
            t.parents(),
            t.self_counts(),
            cs,
            t.len() as int,
        ),
    decreases t.len() - p, 0int, cs.len(),
{
    if cs.len() > 0 {
        assert(p < cs[0] < t.len());
        assert forall|k: int| 0 <= k < cs.drop_first().len() implies p < #[trigger] cs.drop_first()[k]
            < t.len() by {
            assert(cs.drop_first()[k] == cs[k + 1]);
        }
        lemma_preorder_self_sum(t, cs[0], depth);
        lemma_preorder_list_self_sum(t, p, cs.drop_first(), depth);
        lemma_rows_self_sum_concat(t, preorder(t, cs[0], depth), preorder_list(t, p, cs.drop_first(), depth));
    }
}

/// A summary that runs to its end accounts for every sample of the tree:
/// the own counts of the frames it lists, with the root's, add up to the
/// samples of the whole tree, which is the root's total unless that total
/// saturated.
pub proof fn lemma_full_summary_counts_all(t: FlameTree)
    requires
        t.wf(),
    ensures
        rows_self_sum(t, summary_order(t)) + t.nodes()[0].self_count == t.subtree_total(0),
        t.nodes()[0].total_count < u64::MAX ==> rows_self_sum(t, summary_order(t))
            + t.nodes()[0].self_count == t.nodes()[0].total_count,
{
    t.lemma_wf_parents();
    lemma_preorder_self_sum(t, 0, 0);
    let head = seq![(0int, 0int)];
    let rest = summary_order(t);
    assert(preorder(t, 0, 0) == head + rest);
    lemma_rows_self_sum_concat(t, head, rest);
    assert(head.drop_first() =~= Seq::<(int, int)>::empty());
    assert(rows_self_sum(t, Seq::<(int, int)>::empty()) == 0);
    t.lemma_total_is_subtree_sum(0);
    crate::arena::lemma_subtree_sum_nonneg(t.parents(), t.self_counts(), 0, t.len() as int);
    assert(sat(t.subtree_total(0)) == t.nodes()[0].total_count);
}

/// How many rows of `rows` list frame `y`.
pub open spec fn listed(rows: Seq<(int, int)>, y: int) -> int
    decreases rows.len(),
{
    if rows.len() == 0 {
        0
    } else {
        (if rows[0].0 == y {
            1int
        } else {
            0int
        }) + listed(rows.drop_first(), y)
    }
}

proof fn lemma_listed_concat(a: Seq<(int, int)>, b: Seq<(int, int)>, y: int)
    ensures
        listed(a + b, y) == listed(a, y) + listed(b, y),
    decreases a.len(),
{
    if a.len() == 0 {
        assert(a + b =~= b);
    } else {
        lemma_listed_concat(a.drop_first(), b, y);
        assert((a + b).drop_first() =~= a.drop_first() + b);
    }
}

/// The summary rows of the subtree of `id` list each frame of the subtree
/// once, and no other frame.
proof fn lemma_preorder_listed(t: FlameTree, id: int, depth: int)
    requires
        t.wf(),
        0 <= id < t.len(),
    ensures
        forall|y: int|
            #[trigger] listed(preorder(t, id, depth), y) == if is_ancestor(t.parents(), id, y) {
                1int
            } else {
                0int
            },
    decreases t.len() - id, 1int, 0int,
{
    t.lemma_wf_parents();
    let cs = ordered_children(t, id);
    lemma_ordered_children_distinct(t, id);
    lemma_preorder_list_listed(t, id, cs, depth + 1);
    let head = seq![(id, depth)];
    let rest = preorder_list(t, id, cs, depth + 1);
    assert(preorder(t, id, depth) == head + rest);
    assert(head.drop_first() =~= Seq::<(int, int)>::empty());
    assert forall|y: int|
        #[trigger] listed(preorder(t, id, depth), y) == if is_ancestor(t.parents(), id, y) {
            1int
        } else {
            0int
        } by {
        lemma_listed_concat(head, rest, y);
        assert(listed(Seq::<(int, int)>::empty(), y) == 0);
        if y == id {
            assert(is_ancestor(t.parents(), id, id));
            if exists|k: int| 0 <= k < cs.len() && is_ancestor(t.parents(), cs[k], y) {
                let k = choose|k: int| 0 <= k < cs.len() && is_ancestor(t.parents(), cs[k], y);
                lemma_ancestor_bounds(t.parents(), cs[k], y);
            }
        } else if is_ancestor(t.parents(), id, y) {
            let c = lemma_child_on_path(t.parents(), id, y);
            lemma_ancestor_bounds(t.parents(), c, y);
            lemma_child_listed(t.parents(), id, c, t.len() as int);
            lemma_sort_by_total(t.totals(), t.children(id));
            assert(t.children(id).to_multiset().count(c) > 0);
            assert(cs.to_multiset().count(c) > 0);
            let k = choose|k: int| 0 <= k < cs.len() && cs[k] == c;
            assert(is_ancestor(t.parents(), cs[k], y));
        } else {
            if exists|k: int| 0 <= k < cs.len() && is_ancestor(t.parents(), cs[k], y) {
                let k = choose|k: int| 0 <= k < cs.len() && is_ancestor(t.parents(), cs[k], y);
                assert(is_ancestor(t.parents(), id, id));
                assert(is_ancestor(t.parents(), id, cs[k]));
                lemma_ancestor_trans(t.parents(), id, cs[k], y);
            }
        }
    }
}

/// The summary rows of the subtrees of the distinct children `cs` of `p`
/// list each frame below one of them once, and no other frame.
proof fn lemma_preorder_list_listed(t: FlameTree, p: int, cs: Seq<int>, depth: int)
    requires
        t.wf(),
        0 <= p,
        cs.no_duplicates(),
        forall|k: int|
            #![trigger cs[k]]
            0 <= k < cs.len() ==> {
                &&& t.parents()[cs[k]] as int == p
                &&& p < cs[k] < t.len()
            },
    ensures
        forall|y: int|
            #[trigger] listed(preorder_list(t, p, cs, depth), y) == if exists|k: int|
                0 <= k < cs.len() && is_ancestor(t.parents(), cs[k], y) {
                1int
            } else {
                0int
            },
    decreases t.len() - p, 0int, cs.len(),
{
    t.lemma_wf_parents();
    if cs.len() == 0 {
        assert forall|y: int| #[trigger] listed(preorder_list(t, p, cs, depth), y) == 0 by {}
    } else {
        let rest = cs.drop_first();
        assert(t.parents()[cs[0]] as int == p && p < cs[0] < t.len());
        assert forall|k: int| #![trigger rest[k]] 0 <= k < rest.len() implies {
            &&& t.parents()[rest[k]] as int == p
            &&& p < rest[k] < t.len()
        } by {
            assert(rest[k] == cs[k + 1]);
        }
        assert(rest.no_duplicates()) by {
            assert forall|i: int, j: int| 0 <= i < rest.len() && 0 <= j < rest.len() && i != j implies rest[i]
                != rest[j] by {
                assert(rest[i] == cs[i + 1]);
                assert(rest[j] == cs[j + 1]);
            }
        }
        lemma_preorder_listed(t, cs[0], depth);
        lemma_preorder_list_listed(t, p, rest, depth);
        let a = preorder(t, cs[0], depth);
        let b = preorder_list(t, p, rest, depth);
        assert(preorder_list(t, p, cs, depth) == a + b);
        assert forall|y: int|
            #[trigger] listed(preorder_list(t, p, cs, depth), y) == if exists|k: int|
                0 <= k < cs.len() && is_ancestor(t.parents(), cs[k], y) {
                1int
            } else {
                0int
            } by {
            lemma_listed_concat(a, b, y);
            if exists|k: int| 0 <= k < rest.len() && is_ancestor(t.parents(), rest[k], y) {
                let k = choose|k: int| 0 <= k < rest.len() && is_ancestor(t.parents(), rest[k], y);
                assert(rest[k] == cs[k + 1]);
                assert(cs[k + 1] != cs[0]);
                lemma_siblings_apart(t.parents(), p, cs[0], cs[k + 1], y);
            }
            if exists|k: int| 0 <= k < cs.len() && is_ancestor(t.parents(), cs[k], y) {
                let k = choose|k: int| 0 <= k < cs.len() && is_ancestor(t.parents(), cs[k], y);
                if k > 0 {
                    assert(rest[k - 1] == cs[k]);
                }
            }
        }
    }
}

/// A summary that runs to its end lists every frame but the root exactly
/// once.
pub proof fn lemma_full_summary_lists_each_frame_once(t: FlameTree, y: int)
    requires
        t.wf(),
    ensures
        listed(summary_order(t), y) == if 0 < y < t.len() {
            1int
        } else {
            0int
        },
{
    t.lemma_wf_parents();
    lemma_preorder_listed(t, 0, 0);
    let head = seq![(0int, 0int)];
    let rest = summary_order(t);
    assert(preorder(t, 0, 0) == head + rest);
    lemma_listed_concat(head, rest, y);
    assert(head.drop_first() =~= Seq::<(int, int)>::empty());
    assert(listed(Seq::<(int, int)>::empty(), y) == 0);
    if 0 <= y < t.len() {
        lemma_root_is_ancestor(t.parents(), y);
    } else if is_ancestor(t.parents(), 0, y) {
        lemma_ancestor_bounds(t.parents(), 0, y);
    }
}

} // verus!
