//! Sums over the rows of the tree view, one level at a time.
use vstd::prelude::*;

use crate::arena::{sat, FlameTree};
use crate::subtree::{lemma_totals_sum_concat, lemma_totals_sum_nonneg, totals_sum};
use crate::summarize::{insertion_point, lemma_insertion_point, lemma_ordered_children_range, ordered_children, sort_by_total};
use crate::viewer::spark_tree_view::{
    node_row,
    other_row,
    sat_sum,
    shown_count,
    shown_of,
    view_rows,
    view_rows_list,
    Row,
};

verus! {

/// The summed inclusive counts of the rows at depth `d`.
pub open spec fn depth_total(rows: Seq<Row>, d: int) -> int
    decreases rows.len(),
{
    if rows.len() == 0 {
        0
    } else {
        depth_total(rows.drop_last(), d) + if rows.last().depth as int == d {
            rows.last().cum_count as int
        } else {
            0
        }
    }
}

proof fn lemma_depth_total_concat(a: Seq<Row>, b: Seq<Row>, d: int)
    ensures
        depth_total(a + b, d) == depth_total(a, d) + depth_total(b, d),
    decreases b.len(),
{
    if b.len() == 0 {
        assert(a + b =~= a);
    } else {
        lemma_depth_total_concat(a, b.drop_last(), d);
        assert((a + b).drop_last() =~= a + b.drop_last());
    }
}

/// Rows that all lie deeper than `d` add nothing at depth `d`.
proof fn lemma_depth_total_deeper(rows: Seq<Row>, d: int)
    requires
        forall|i: int| 0 <= i < rows.len() ==> #[trigger] rows[i].depth as int > d,
    ensures
        depth_total(rows, d) == 0,
    decreases rows.len(),
{
    if rows.len() > 0 {
        lemma_depth_total_deeper(rows.drop_last(), d);
    }
}

/// The saturating sum of the totals of `cs` is their exact sum when that
/// fits in a `u64`.
proof fn lemma_sat_sum_totals(t: FlameTree, cs: Seq<int>)
    requires
        totals_sum(t, cs) <= u64::MAX,
    ensures
        sat_sum(cs.map_values(|c: int| t.nodes()[c].total_count)) as int == totals_sum(t, cs),
    decreases cs.len(),
{
    if cs.len() > 0 {
        let m = cs.map_values(|c: int| t.nodes()[c].total_count);
        assert(m.drop_last() =~= cs.drop_last().map_values(|c: int| t.nodes()[c].total_count));
        assert(cs =~= cs.drop_last() + seq![cs.last()]);
        lemma_totals_sum_concat(t, cs.drop_last(), seq![cs.last()]);
        assert(seq![cs.last()].drop_first() =~= Seq::<int>::empty());
        assert(totals_sum(t, Seq::<int>::empty()) == 0);
        lemma_totals_sum_nonneg(t, cs.drop_last());
        lemma_sat_sum_totals(t, cs.drop_last());
    }
}

/// Ordering the children by total keeps their summed total.
pub proof fn lemma_totals_sum_sorted(t: FlameTree, cs: Seq<int>)
    ensures
        totals_sum(t, sort_by_total(t.totals(), cs)) == totals_sum(t, cs),
    decreases cs.len(),
{
    if cs.len() > 0 {
        let s = sort_by_total(t.totals(), cs.drop_last());
        let x = cs.last();
        let k = insertion_point(t.totals(), x, s);
        lemma_totals_sum_sorted(t, cs.drop_last());
        lemma_insertion_point(t.totals(), x, s);
        assert(s.insert(k, x) =~= s.take(k) + (seq![x] + s.skip(k)));
        assert(s =~= s.take(k) + s.skip(k));
        lemma_totals_sum_concat(t, s.take(k), seq![x] + s.skip(k));
        lemma_totals_sum_concat(t, seq![x], s.skip(k));
        lemma_totals_sum_concat(t, s.take(k), s.skip(k));
        assert(seq![x].drop_first() =~= Seq::<int>::empty());
        assert(totals_sum(t, Seq::<int>::empty()) == 0);
        assert(cs =~= cs.drop_last() + seq![x]);
        lemma_totals_sum_concat(t, cs.drop_last(), seq![x]);
        assert(totals_sum(t, seq![x]) == t.nodes()[x].total_count);
        assert(sort_by_total(t.totals(), cs) == s.insert(k, x));
    }
}

/// The number of children shown lies between where counting started and
/// the number of children.
pub proof fn lemma_shown_count_range(
    totals: Seq<u64>,
    cs: Seq<int>,
    total: u64,
    limit: int,
    covered: spec_fn(u64, u64) -> bool,
    k: int,
    running: u64,
)
    requires
        0 <= k <= cs.len(),
    ensures
        k <= shown_count(totals, cs, total, limit, covered, k, running) <= cs.len(),
    decreases cs.len() - k,
{
    if !(k >= cs.len() || k >= limit || covered(running, total)) {
        lemma_shown_count_range(totals, cs, total, limit, covered, k + 1, sat(running + totals[cs[k]]));
    }
}

/// The rows of frame `id` at `depth`: all lie between `depth` and the
/// deepest level the tree allows below `id`, and at `depth` itself they
/// count exactly the frame's total.
pub proof fn lemma_view_rows_levels(
    t: FlameTree,
    open: Seq<bool>,
    open_other: Seq<bool>,
    limit: int,
    covered: spec_fn(u64, u64) -> bool,
    id: int,
    depth: int,
)
    requires
        t.wf(),
        0 <= id < t.len(),
        open.len() == t.len(),
        open_other.len() == t.len(),
        0 <= depth,
        depth + t.len() - 1 - id <= usize::MAX,
    ensures
        forall|i: int|
            #![trigger view_rows(t, open, open_other, limit, covered, id, depth)[i]]
            0 <= i < view_rows(t, open, open_other, limit, covered, id, depth).len() ==> depth
                <= view_rows(t, open, open_other, limit, covered, id, depth)[i].depth as int <= depth
                + t.len() - 1 - id,
        depth_total(view_rows(t, open, open_other, limit, covered, id, depth), depth)
            == t.nodes()[id].total_count,
    decreases t.len() - id, 1int, 0int,
{
    let rows = view_rows(t, open, open_other, limit, covered, id, depth);
    let head = seq![node_row(t, open, id, depth)];
    assert(head.drop_last() =~= Seq::<Row>::empty());
    assert(head.last().depth as int == depth);
    assert(depth_total(Seq::<Row>::empty(), depth) == 0);
    assert(depth_total(head, depth) == t.nodes()[id].total_count);
    if t.children(id).len() == 0 || !open[id] {
        assert(rows == head);
    } else {
        let cs = ordered_children(t, id);
        let shown = shown_of(t, open_other, limit, covered, id);
        lemma_ordered_children_range(t, id);
        crate::summarize::lemma_sort_by_total(t.totals(), t.children(id));
        if !open_other[id] {
            lemma_shown_count_range(t.totals(), cs, t.nodes()[id].total_count, limit, covered, 0, 0);
        }
        let shown_cs = cs.take(shown);
        assert forall|k: int| 0 <= k < shown_cs.len() implies id < #[trigger] shown_cs[k] < t.len() by {
            assert(shown_cs[k] == cs[k]);
        }
        lemma_view_rows_list_levels(t, open, open_other, limit, covered, id, shown_cs, depth + 1);
        let list = view_rows_list(t, open, open_other, limit, covered, id, shown_cs, depth + 1);
        let tail = if shown < cs.len() && !open_other[id] {
            seq![other_row(t, id, cs.skip(shown), depth + 1)]
        } else {
            Seq::<Row>::empty()
        };
        assert(rows == head + list + tail);
        assert(cs[0] > id);
        lemma_depth_total_deeper(list, depth);
        lemma_depth_total_deeper(tail, depth);
        lemma_depth_total_concat(head, list, depth);
        lemma_depth_total_concat(head + list, tail, depth);
        assert forall|i: int| 0 <= i < rows.len() implies depth <= #[trigger] rows[i].depth as int
            <= depth + t.len() - 1 - id by {
            if i == 0 {
            } else if i < 1 + list.len() {
                assert(rows[i] == list[i - 1]);
            } else {
                assert(rows[i] == tail[i - 1 - list.len()]);
            }
        }
    }
}

/// The rows of the children `cs` of `p` at `depth`: all lie between `depth`
/// and the deepest level the tree allows, and at `depth` itself they count
/// the children's summed totals.
pub proof fn lemma_view_rows_list_levels(
    t: FlameTree,
    open: Seq<bool>,
    open_other: Seq<bool>,
    limit: int,
    covered: spec_fn(u64, u64) -> bool,
    p: int,
    cs: Seq<int>,
    depth: int,
)
    requires
        t.wf(),
        0 <= p,
        open.len() == t.len(),
        open_other.len() == t.len(),
        forall|k: int| 0 <= k < cs.len() ==> p < #[trigger] cs[k] < t.len(),
        0 <= depth,
        depth + t.len() - 2 - p <= usize::MAX,
    ensures
        forall|i: int|
            #![trigger view_rows_list(t, open, open_other, limit, covered, p, cs, depth)[i]]
            0 <= i < view_rows_list(t, open, open_other, limit, covered, p, cs, depth).len() ==> depth
                <= view_rows_list(t, open, open_other, limit, covered, p, cs, depth)[i].depth as int
                <= depth + t.len() - 2 - p,
        depth_total(view_rows_list(t, open, open_other, limit, covered, p, cs, depth), depth)
            == totals_sum(t, cs),
    decreases t.len() - p, 0int, cs.len(),
{
    let rows = view_rows_list(t, open, open_other, limit, covered, p, cs, depth);
    if cs.len() > 0 {
        let c = cs.last();
        assert(p < cs[cs.len() - 1] < t.len());
        assert forall|k: int| 0 <= k < cs.drop_last().len() implies p < #[trigger] cs.drop_last()[k]
            < t.len() by {
            assert(cs.drop_last()[k] == cs[k]);
        }
        lemma_view_rows_list_levels(t, open, open_other, limit, covered, p, cs.drop_last(), depth);
        lemma_view_rows_levels(t, open, open_other, limit, covered, c, depth);
        let a = view_rows_list(t, open, open_other, limit, covered, p, cs.drop_last(), depth);
        let b = view_rows(t, open, open_other, limit, covered, c, depth);
        assert(rows == a + b);
        lemma_depth_total_concat(a, b, depth);
        assert(cs =~= cs.drop_last() + seq![c]);
        lemma_totals_sum_concat(t, cs.drop_last(), seq![c]);
        assert(seq![c].drop_first() =~= Seq::<int>::empty());
        assert(totals_sum(t, Seq::<int>::empty()) == 0);
        assert forall|i: int| 0 <= i < rows.len() implies depth <= #[trigger] rows[i].depth as int
            <= depth + t.len() - 2 - p by {
            if i < a.len() {
                assert(rows[i] == a[i]);
            } else {
                assert(rows[i] == b[i - a.len()]);
            }
        }
    }
}

/// Below an expanded frame, the rows one level down (the shown children
/// and the "Other" row) together count all of the children's samples,
/// whenever the children's summed totals fit in a `u64`.
pub proof fn lemma_next_level_total(
    t: FlameTree,
    open: Seq<bool>,
    open_other: Seq<bool>,
    limit: int,
    covered: spec_fn(u64, u64) -> bool,
    id: int,
    depth: int,
)
    requires
        t.wf(),
        0 <= id < t.len(),
        open.len() == t.len(),
        open_other.len() == t.len(),
        open[id],
        0 <= depth,
        depth + t.len() - 1 - id <= usize::MAX,
        totals_sum(t, t.children(id)) <= u64::MAX,
    ensures
        depth_total(view_rows(t, open, open_other, limit, covered, id, depth), depth + 1)
            == totals_sum(t, t.children(id)),
{
    let rows = view_rows(t, open, open_other, limit, covered, id, depth);
    let head = seq![node_row(t, open, id, depth)];
    assert(head.drop_last() =~= Seq::<Row>::empty());
    assert(head.last().depth as int == depth);
    assert(depth_total(Seq::<Row>::empty(), depth + 1) == 0);
    assert(depth_total(head, depth + 1) == 0);
    if t.children(id).len() == 0 {
        assert(rows == head);
        assert(t.children(id) =~= Seq::<int>::empty());
    } else {
        let cs = ordered_children(t, id);
        let shown = shown_of(t, open_other, limit, covered, id);
        lemma_ordered_children_range(t, id);
        crate::summarize::lemma_sort_by_total(t.totals(), t.children(id));
        lemma_totals_sum_sorted(t, t.children(id));
        if !open_other[id] {
            lemma_shown_count_range(t.totals(), cs, t.nodes()[id].total_count, limit, covered, 0, 0);
        }
        let shown_cs = cs.take(shown);
        let hidden = cs.skip(shown);
        assert forall|k: int| 0 <= k < shown_cs.len() implies id < #[trigger] shown_cs[k] < t.len() by {
            assert(shown_cs[k] == cs[k]);
        }
        lemma_view_rows_list_levels(t, open, open_other, limit, covered, id, shown_cs, depth + 1);
        let list = view_rows_list(t, open, open_other, limit, covered, id, shown_cs, depth + 1);
        assert(cs =~= shown_cs + hidden);
        lemma_totals_sum_concat(t, shown_cs, hidden);
        lemma_totals_sum_nonneg(t, shown_cs);
        lemma_totals_sum_nonneg(t, hidden);
        let tail = if shown < cs.len() && !open_other[id] {
            seq![other_row(t, id, hidden, depth + 1)]
        } else {
            Seq::<Row>::empty()
        };
        assert(rows == head + list + tail);
        lemma_depth_total_concat(head, list, depth + 1);
        lemma_depth_total_concat(head + list, tail, depth + 1);
        if shown < cs.len() && !open_other[id] {
            lemma_sat_sum_totals(t, hidden);
            assert(tail.drop_last() =~= Seq::<Row>::empty());
        } else {
            assert(hidden =~= Seq::<int>::empty());
        }
    }
}

} // verus!
