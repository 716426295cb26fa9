//! How the inclusive counts of a flame tree split over its children.
use vstd::prelude::*;

use crate::arena::{
    children_below,
    is_ancestor,
    lemma_ancestor_bounds,
    lemma_children_in_range,
    lemma_children_suffix,
    lemma_subtree_sum_below,
    lemma_subtree_sum_nonneg,
    parents_wf,
    sat,
    subtree_sum,
    FlameTree,
    NodeId,
};

verus! {

/// The summed inclusive counts of the frames `cs`.
pub open spec fn totals_sum(t: FlameTree, cs: Seq<int>) -> int
    decreases cs.len(),
{
    if cs.len() == 0 {
        0
    } else {
        t.nodes()[cs[0]].total_count + totals_sum(t, cs.drop_first())
    }
}

/// The summed subtree sums of the nodes `cs`, over the nodes below `m`.
pub open spec fn subtrees_sum(parents: Seq<NodeId>, counts: Seq<u64>, cs: Seq<int>, m: int) -> int
    decreases cs.len(),
{
    if cs.len() == 0 {
        0
    } else {
        subtree_sum(parents, counts, cs[0], m) + subtrees_sum(parents, counts, cs.drop_first(), m)
    }
}

pub proof fn lemma_totals_sum_concat(t: FlameTree, a: Seq<int>, b: Seq<int>)
    ensures
        totals_sum(t, a + b) == totals_sum(t, a) + totals_sum(t, b),
    decreases a.len(),
{
    if a.len() == 0 {
        assert(a + b =~= b);
    } else {
        lemma_totals_sum_concat(t, a.drop_first(), b);
        assert((a + b).drop_first() =~= a.drop_first() + b);
    }
}

pub proof fn lemma_totals_sum_nonneg(t: FlameTree, cs: Seq<int>)
    ensures
        totals_sum(t, cs) >= 0,
    decreases cs.len(),
{
    if cs.len() > 0 {
        lemma_totals_sum_nonneg(t, cs.drop_first());
    }
}

/// Two ancestors of one node lie on one line: one is an ancestor of the
/// other.
pub proof fn lemma_ancestors_chain(parents: Seq<NodeId>, x: int, y: int, j: int)
    requires
        is_ancestor(parents, x, j),
        is_ancestor(parents, y, j),
    ensures
        is_ancestor(parents, x, y) || is_ancestor(parents, y, x),
    decreases j,
{
    if x != j && y != j {
        lemma_ancestors_chain(parents, x, y, parents[j] as int);
    }
}

/// An ancestor of an ancestor is an ancestor.
pub proof fn lemma_ancestor_trans(parents: Seq<NodeId>, a: int, b: int, j: int)
    requires
        is_ancestor(parents, a, b),
        is_ancestor(parents, b, j),
    ensures
        is_ancestor(parents, a, j),
    decreases j,
{
    if b != j && a != j {
        lemma_ancestor_trans(parents, a, b, parents[j] as int);
    }
}

/// Below a proper ancestor `a` of `j`, one child of `a` leads to `j`.
pub proof fn lemma_child_on_path(parents: Seq<NodeId>, a: int, j: int) -> (c: int)
    requires
        parents_wf(parents),
        is_ancestor(parents, a, j),
        a != j,
    ensures
        1 <= c <= j,
        parents[c] as int == a,
        is_ancestor(parents, c, j),
    decreases j,
{
    let p = parents[j] as int;
    if p == a {
        j
    } else {
        let c = lemma_child_on_path(parents, a, p);
        lemma_ancestor_bounds(parents, c, p);
        c
    }
}

/// Every child of `p` below `m` is in the list of children.
pub proof fn lemma_child_listed(parents: Seq<NodeId>, p: int, c: int, m: int)
    requires
        m <= parents.len(),
        1 <= c < m,
        parents[c] as int == p,
    ensures
        children_below(parents, p, m).contains(c),
    decreases m,
{
    if c == m - 1 {
        assert(children_below(parents, p, m)[0] == c);
    } else {
        lemma_child_listed(parents, p, c, m - 1);
        let prev = children_below(parents, p, m - 1);
        let k = choose|k: int| 0 <= k < prev.len() && #[trigger] prev[k] == c;
        if parents[m - 1] as int == p {
            assert(children_below(parents, p, m)[k + 1] == c);
        }
    }
}

/// The list of children is strictly decreasing and lists only children.
pub proof fn lemma_children_shape(parents: Seq<NodeId>, p: int, m: int)
    requires
        m <= parents.len(),
    ensures
        forall|k: int|
            0 <= k < children_below(parents, p, m).len() ==> {
                &&& 1 <= #[trigger] children_below(parents, p, m)[k] < m
                &&& parents[children_below(parents, p, m)[k]] as int == p
            },
        forall|i: int, k: int|
            0 <= i < k < children_below(parents, p, m).len() ==> children_below(parents, p, m)[i]
                > children_below(parents, p, m)[k],
    decreases m,
{
    lemma_children_in_range(parents, p, m);
    let cs = children_below(parents, p, m);
    assert forall|k: int| 0 <= k < cs.len() implies parents[#[trigger] cs[k]] as int == p by {
        lemma_children_suffix(parents, p, m, k);
    }
    if m > 1 {
        lemma_children_shape(parents, p, m - 1);
        let rest = children_below(parents, p, m - 1);
        lemma_children_in_range(parents, p, m - 1);
        if parents[m - 1] as int == p {
            assert forall|i: int, k: int| 0 <= i < k < cs.len() implies cs[i] > cs[k] by {
                assert(cs[k] == rest[k - 1]);
                if i > 0 {
                    assert(cs[i] == rest[i - 1]);
                }
            }
        }
    }
}

/// Adding node `m` to the range adds its count to the subtree sum of the
/// one listed sibling `c` that leads to it, and to no other.
proof fn lemma_subtrees_sum_step(parents: Seq<NodeId>, counts: Seq<u64>, cs: Seq<int>, m: int, c: int)
    requires
        forall|i: int, k: int| 0 <= i < k < cs.len() ==> cs[i] > cs[k],
        forall|k: int|
            0 <= k < cs.len() && is_ancestor(parents, #[trigger] cs[k], m) ==> cs[k] == c,
    ensures
        subtrees_sum(parents, counts, cs, m + 1) == subtrees_sum(parents, counts, cs, m) + if cs.contains(c)
            && is_ancestor(parents, c, m) {
            counts[m] as int
        } else {
            0
        },
    decreases cs.len(),
{
    if cs.len() > 0 {
        let rest = cs.drop_first();
        assert forall|i: int, k: int| 0 <= i < k < rest.len() implies rest[i] > rest[k] by {
            assert(rest[i] == cs[i + 1]);
            assert(rest[k] == cs[k + 1]);
        }
        assert forall|k: int| 0 <= k < rest.len() && is_ancestor(parents, #[trigger] rest[k], m) implies rest[k]
            == c by {
            assert(rest[k] == cs[k + 1]);
        }
        lemma_subtrees_sum_step(parents, counts, rest, m, c);
        if cs[0] == c {
            assert(!rest.contains(c)) by {
                if rest.contains(c) {
                    let k = choose|k: int| 0 <= k < rest.len() && rest[k] == c;
                    assert(cs[k + 1] == c);
                }
            }
        } else {
            assert(rest.contains(c) == cs.contains(c)) by {
                if cs.contains(c) {
                    let k = choose|k: int| 0 <= k < cs.len() && cs[k] == c;
                    assert(rest[k - 1] == c);
                }
                if rest.contains(c) {
                    let k = choose|k: int| 0 <= k < rest.len() && rest[k] == c;
                    assert(cs[k + 1] == c);
                }
            }
        }
    }
}

/// The subtree sum of `a` is its own count plus the subtree sums of its
/// children.
pub proof fn lemma_subtree_sum_split(parents: Seq<NodeId>, counts: Seq<u64>, a: int, m: int)
    requires
        parents_wf(parents),
        counts.len() == parents.len(),
        0 <= a < m <= parents.len(),
    ensures
        subtree_sum(parents, counts, a, m) == counts[a] + subtrees_sum(
            parents,
            counts,
            children_below(parents, a, m),
            m,
        ),
    decreases m,
{
    let cs = children_below(parents, a, m);
    lemma_children_shape(parents, a, m);
    assert(is_ancestor(parents, a, a));
    if m == a + 1 {
        lemma_subtree_sum_below(parents, counts, a, a);
        if cs.len() > 0 {
            assert(parents[cs[0]] as int == a);
        }
        assert(cs.len() == 0);
    } else {
        let n = m - 1;
        lemma_subtree_sum_split(parents, counts, a, n);
        let prev = children_below(parents, a, n);
        lemma_children_shape(parents, a, n);
        if parents[n] as int == a {
            assert(cs == seq![n] + prev);
            assert(cs.drop_first() =~= prev);
            lemma_subtree_sum_below(parents, counts, n, n);
            assert forall|k: int| 0 <= k < prev.len() && is_ancestor(parents, #[trigger] prev[k], n) implies prev[k]
                == n by {
                lemma_ancestor_bounds(parents, prev[k], a);
            }
            lemma_subtrees_sum_step(parents, counts, prev, n, n);
            assert(!prev.contains(n));
            assert(is_ancestor(parents, a, n));
            assert(is_ancestor(parents, n, n));
        } else {
            assert(cs == prev);
            if is_ancestor(parents, a, n) {
                let c = lemma_child_on_path(parents, a, n);
                lemma_child_listed(parents, a, c, n);
                assert forall|k: int| 0 <= k < prev.len() && is_ancestor(parents, #[trigger] prev[k], n) implies prev[k]
                    == c by {
                    lemma_ancestors_chain(parents, prev[k], c, n);
                    if prev[k] != c {
                        if is_ancestor(parents, prev[k], c) {
                            lemma_ancestor_bounds(parents, prev[k], a);
                        } else {
                            lemma_ancestor_bounds(parents, c, a);
                        }
                    }
                }
                lemma_subtrees_sum_step(parents, counts, prev, n, c);
            } else {
                assert forall|k: int| 0 <= k < prev.len() && is_ancestor(parents, #[trigger] prev[k], n) implies prev[k]
                    == -1 by {
                    assert(is_ancestor(parents, a, a));
                    assert(is_ancestor(parents, a, prev[k]));
                    lemma_ancestor_trans(parents, a, prev[k], n);
                }
                lemma_subtrees_sum_step(parents, counts, prev, n, -1);
            }
        }
    }
}

/// Each listed subtree sum is at most the summed subtree sums.
proof fn lemma_subtrees_sum_bounds(parents: Seq<NodeId>, counts: Seq<u64>, cs: Seq<int>, m: int)
    ensures
        forall|k: int|
            0 <= k < cs.len() ==> 0 <= #[trigger] subtree_sum(parents, counts, cs[k], m) <= subtrees_sum(
                parents,
                counts,
                cs,
                m,
            ),
        subtrees_sum(parents, counts, cs, m) >= 0,
    decreases cs.len(),
{
    if cs.len() > 0 {
        lemma_subtrees_sum_bounds(parents, counts, cs.drop_first(), m);
        lemma_subtree_sum_nonneg(parents, counts, cs[0], m);
        assert forall|k: int| 0 < k < cs.len() implies 0 <= #[trigger] subtree_sum(parents, counts, cs[k], m)
            <= subtrees_sum(parents, counts, cs, m) by {
            assert(cs[k] == cs.drop_first()[k - 1]);
        }
    }
}

/// Where each listed total is its exact subtree sum, the summed totals are
/// the summed subtree sums.
proof fn lemma_totals_are_subtrees(t: FlameTree, cs: Seq<int>)
    requires
        forall|k: int|
            0 <= k < cs.len() ==> t.nodes()[#[trigger] cs[k]].total_count as int == t.subtree_total(cs[k]),
    ensures
        totals_sum(t, cs) == subtrees_sum(t.parents(), t.self_counts(), cs, t.len() as int),
    decreases cs.len(),
{
    if cs.len() > 0 {
        assert forall|k: int| 0 <= k < cs.drop_first().len() implies t.nodes()[#[trigger] cs.drop_first()[k]].total_count
            as int == t.subtree_total(cs.drop_first()[k]) by {
            assert(cs.drop_first()[k] == cs[k + 1]);
        }
        lemma_totals_are_subtrees(t, cs.drop_first());
        assert(t.nodes()[cs[0]].total_count as int == t.subtree_total(cs[0]));
    }
}

/// Each listed total is at most the summed totals.
proof fn lemma_totals_sum_bounds(t: FlameTree, cs: Seq<int>)
    ensures
        forall|k: int| 0 <= k < cs.len() ==> t.nodes()[#[trigger] cs[k]].total_count <= totals_sum(t, cs),
    decreases cs.len(),
{
    if cs.len() > 0 {
        lemma_totals_sum_bounds(t, cs.drop_first());
        lemma_totals_sum_nonneg(t, cs.drop_first());
        assert forall|k: int| 0 < k < cs.len() implies t.nodes()[#[trigger] cs[k]].total_count <= totals_sum(
            t,
            cs,
        ) by {
            assert(cs[k] == cs.drop_first()[k - 1]);
        }
    }
}

/// A frame's inclusive count is its own count plus the inclusive counts of
/// its children, added with saturation at `u64::MAX`; where that sum fits in
/// a `u64` (`u64::MAX` itself included), the count is the sum exactly.
pub proof fn lemma_total_splits(t: FlameTree, i: int)
    requires
        t.wf(),
        0 <= i < t.len(),
    ensures
        t.nodes()[i].total_count == sat(t.nodes()[i].self_count + totals_sum(t, t.children(i))),
        t.nodes()[i].self_count + totals_sum(t, t.children(i)) <= u64::MAX ==> t.nodes()[i].total_count
            == t.nodes()[i].self_count + totals_sum(t, t.children(i)),
        t.nodes()[i].total_count < u64::MAX ==> t.nodes()[i].total_count == t.nodes()[i].self_count
            + totals_sum(t, t.children(i)),
{
    t.lemma_wf_parents();
    t.lemma_total_is_subtree_sum(i);
    let n = t.len() as int;
    let cs = t.children(i);
    lemma_subtree_sum_nonneg(t.parents(), t.self_counts(), i, n);
    lemma_subtree_sum_split(t.parents(), t.self_counts(), i, n);
    lemma_subtrees_sum_bounds(t.parents(), t.self_counts(), cs, n);
    lemma_children_shape(t.parents(), i, n);
    lemma_totals_sum_nonneg(t, cs);
    assert(t.self_counts()[i] == t.nodes()[i].self_count);
    if exists|k: int| 0 <= k < cs.len() && t.subtree_total(#[trigger] cs[k]) > u64::MAX {
        let k = choose|k: int| 0 <= k < cs.len() && t.subtree_total(#[trigger] cs[k]) > u64::MAX;
        t.lemma_total_is_subtree_sum(cs[k]);
        lemma_totals_sum_bounds(t, cs);
        assert(t.nodes()[cs[k]].total_count == u64::MAX);
        assert(subtree_sum(t.parents(), t.self_counts(), cs[k], n) <= subtrees_sum(t.parents(), t.self_counts(), cs, n));
    } else {
        assert forall|k: int| 0 <= k < cs.len() implies t.nodes()[#[trigger] cs[k]].total_count as int
            == t.subtree_total(cs[k]) by {
            t.lemma_total_is_subtree_sum(cs[k]);
            assert(0 <= subtree_sum(t.parents(), t.self_counts(), cs[k], n));
        }
        lemma_totals_are_subtrees(t, cs);
    }
}

/// Two distinct children of one frame lead to no common frame.
pub proof fn lemma_siblings_apart(parents: Seq<NodeId>, p: int, c1: int, c2: int, y: int)
    requires
        parents_wf(parents),
        c1 != c2,
        p < c1 < parents.len(),
        p < c2 < parents.len(),
        parents[c1] as int == p,
        parents[c2] as int == p,
    ensures
        !(is_ancestor(parents, c1, y) && is_ancestor(parents, c2, y)),
{
    if is_ancestor(parents, c1, y) && is_ancestor(parents, c2, y) {
        lemma_ancestors_chain(parents, c1, c2, y);
        if is_ancestor(parents, c1, c2) {
            lemma_ancestor_bounds(parents, c1, p);
        } else {
            lemma_ancestor_bounds(parents, c2, p);
        }
    }
}

} // verus!
