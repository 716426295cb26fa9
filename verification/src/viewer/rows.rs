//! Which frames the rows of the tree view show, and how expanding one frame
//! changes the rows.
use vstd::prelude::*;

use crate::arena::{is_ancestor, lemma_ancestor_bounds, FlameTree};
use crate::subtree::{lemma_ancestor_trans, lemma_siblings_apart};
use crate::summarize::{lemma_ordered_children_distinct, lemma_sort_by_total, ordered_children};
use crate::viewer::levels::lemma_shown_count_range;
use crate::viewer::spark_tree_view::{
    node_row,
    other_row,
    shown_of,
    view_rows,
    view_rows_list,
    Row,
    RowState,
};

verus! {

/// How many rows of `rows` show frame `y` itself (not an "Other" row).
pub open spec fn frame_rows(rows: Seq<Row>, y: int) -> int
    decreases rows.len(),
{
    if rows.len() == 0 {
        0
    } else {
        frame_rows(rows.drop_last(), y) + if rows.last().node_id as int == y && rows.last().state
            != RowState::Other {
            1int
        } else {
            0int
        }
    }
}

pub proof fn lemma_frame_rows_concat(a: Seq<Row>, b: Seq<Row>, y: int)
    ensures
        frame_rows(a + b, y) == frame_rows(a, y) + frame_rows(b, y),
    decreases b.len(),
{
    if b.len() == 0 {
        assert(a + b =~= a);
    } else {
        lemma_frame_rows_concat(a, b.drop_last(), y);
        assert((a + b).drop_last() =~= a + b.drop_last());
    }
}

proof fn lemma_frame_rows_nonneg(rows: Seq<Row>, y: int)
    ensures
        frame_rows(rows, y) >= 0,
    decreases rows.len(),
{
    if rows.len() > 0 {
        lemma_frame_rows_nonneg(rows.drop_last(), y);
    }
}

/// Rows none of which names `y` show no row of `y`.
proof fn lemma_frame_rows_absent(rows: Seq<Row>, y: int)
    requires
        forall|i: int| 0 <= i < rows.len() ==> #[trigger] rows[i].node_id as int != y,
    ensures
        frame_rows(rows, y) == 0,
    decreases rows.len(),
{
    if rows.len() > 0 {
        lemma_frame_rows_absent(rows.drop_last(), y);
    }
}

/// The rows of frame `x` at `depth`: every row names a frame below `x`
/// (or `x`), every row that is no "Other" row is that frame's own row and
/// lies no deeper below `depth` than its frame's index lies past `x`, the
/// first row is `x`'s, and no frame has more than one row of its own.
pub proof fn lemma_view_rows_frames(
    t: FlameTree,
    open: Seq<bool>,
    open_other: Seq<bool>,
    limit: int,
    covered: spec_fn(u64, u64) -> bool,
    x: int,
    depth: int,
)
    requires
        t.wf(),
        0 <= x < t.len(),
        open.len() == t.len(),
        open_other.len() == t.len(),
        0 <= depth,
        depth + t.len() - 1 - x <= usize::MAX,
    ensures
        ({
            let rows = view_rows(t, open, open_other, limit, covered, x, depth);
            &&& rows.len() > 0
            &&& rows[0] == node_row(t, open, x, depth)
            &&& forall|i: int|
                #![trigger rows[i]]
                0 <= i < rows.len() ==> {
                    &&& (rows[i].node_id as int) < t.len()
                    &&& is_ancestor(t.parents(), x, rows[i].node_id as int)
                    &&& rows[i].state != RowState::Other ==> rows[i] == node_row(
                        t,
                        open,
                        rows[i].node_id as int,
                        rows[i].depth as int,
                    )
                    &&& rows[i].state != RowState::Other ==> rows[i].depth as int - depth
                        <= rows[i].node_id as int - x
                }
            &&& forall|y: int| #[trigger] frame_rows(rows, y) <= 1
            &&& forall|y: int| !is_ancestor(t.parents(), x, y) ==> #[trigger] frame_rows(rows, y) == 0
        }),
    decreases t.len() - x, 1int, 0int,
{
    t.lemma_wf_parents();
    let rows = view_rows(t, open, open_other, limit, covered, x, depth);
    let head = seq![node_row(t, open, x, depth)];
    assert(head.drop_last() =~= Seq::<Row>::empty());
    assert(is_ancestor(t.parents(), x, x));
    assert(forall|y: int| #[trigger] frame_rows(head, y) == if y == x { 1int } else { 0int }) by {
        assert forall|y: int| #[trigger] frame_rows(head, y) == if y == x { 1int } else { 0int } by {
            assert(frame_rows(Seq::<Row>::empty(), y) == 0);
        }
    }
    if t.children(x).len() == 0 || !open[x] {
        assert(rows == head);
    } else {
        let cs = ordered_children(t, x);
        let shown = shown_of(t, open_other, limit, covered, x);
        lemma_ordered_children_distinct(t, x);
        lemma_sort_by_total(t.totals(), t.children(x));
        if !open_other[x] {
            lemma_shown_count_range(t.totals(), cs, t.nodes()[x].total_count, limit, covered, 0, 0);
        }
        let shown_cs = cs.take(shown);
        assert forall|k: int| 0 <= k < shown_cs.len() implies {
            &&& t.parents()[#[trigger] shown_cs[k]] as int == x
            &&& x < shown_cs[k] < t.len()
        } by {
            assert(shown_cs[k] == cs[k]);
        }
        assert(shown_cs.no_duplicates()) by {
            assert forall|i: int, j: int|
                0 <= i < shown_cs.len() && 0 <= j < shown_cs.len() && i != j implies shown_cs[i]
                != shown_cs[j] by {
                assert(shown_cs[i] == cs[i]);
                assert(shown_cs[j] == cs[j]);
            }
        }
        lemma_view_rows_list_frames(t, open, open_other, limit, covered, x, shown_cs, depth + 1);
        let list = view_rows_list(t, open, open_other, limit, covered, x, shown_cs, depth + 1);
        let tail = if shown < cs.len() && !open_other[x] {
            seq![other_row(t, x, cs.skip(shown), depth + 1)]
        } else {
            Seq::<Row>::empty()
        };
        assert(rows == head + list + tail);
        assert forall|y: int| #[trigger] frame_rows(tail, y) == 0 by {
            if tail.len() > 0 {
                assert(tail.drop_last() =~= Seq::<Row>::empty());
                assert(frame_rows(Seq::<Row>::empty(), y) == 0);
            }
        }
        assert forall|i: int| #![trigger rows[i]] 0 <= i < rows.len() implies {
            &&& (rows[i].node_id as int) < t.len()
            &&& is_ancestor(t.parents(), x, rows[i].node_id as int)
            &&& rows[i].state != RowState::Other ==> rows[i] == node_row(
                t,
                open,
                rows[i].node_id as int,
                rows[i].depth as int,
            )
            &&& rows[i].state != RowState::Other ==> rows[i].depth as int - depth
                <= rows[i].node_id as int - x
        } by {
            if i == 0 {
            } else if i < 1 + list.len() {
                assert(rows[i] == list[i - 1]);
            } else {
                assert(rows[i] == tail[i - 1 - list.len()]);
            }
        }
        assert forall|y: int| #[trigger] frame_rows(rows, y) <= 1 && (!is_ancestor(t.parents(), x, y) ==> frame_rows(rows, y) == 0) by {
            lemma_frame_rows_concat(head, list, y);
            lemma_frame_rows_concat(head + list, tail, y);
            lemma_frame_rows_nonneg(list, y);
            if y == x {
                lemma_frame_rows_absent(list, y);
            }
            if frame_rows(list, y) > 0 {
                let k = choose|k: int| 0 <= k < shown_cs.len() && is_ancestor(t.parents(), shown_cs[k], y);
                assert(is_ancestor(t.parents(), x, shown_cs[k]));
                lemma_ancestor_trans(t.parents(), x, shown_cs[k], y);
            }
        }
    }
}

/// The rows of the children `cs` of `p` at `depth`: every row names a
/// frame below one of them, every row that is no "Other" row is that
/// frame's own row, and no frame has more than one row of its own.
pub proof fn lemma_view_rows_list_frames(
    t: FlameTree,
    open: Seq<bool>,
    open_other: Seq<bool>,
    limit: int,
    covered: spec_fn(u64, u64) -> bool,
    p: int,
    cs: Seq<int>,
    depth: int,
)
    requires
        t.wf(),
        0 <= p,
        open.len() == t.len(),
        open_other.len() == t.len(),
        cs.no_duplicates(),
        forall|k: int|
            0 <= k < cs.len() ==> {
                &&& t.parents()[#[trigger] cs[k]] as int == p
                &&& p < cs[k] < t.len()
            },
        0 <= depth,
        depth + t.len() - 2 - p <= usize::MAX,
    ensures
        ({
            let rows = view_rows_list(t, open, open_other, limit, covered, p, cs, depth);
            &&& forall|i: int|
                #![trigger rows[i]]
                0 <= i < rows.len() ==> {
                    &&& p < (rows[i].node_id as int) < t.len()
                    &&& is_ancestor(t.parents(), p, rows[i].node_id as int)
                    &&& rows[i].state != RowState::Other ==> rows[i] == node_row(
                        t,
                        open,
                        rows[i].node_id as int,
                        rows[i].depth as int,
                    )
                    &&& rows[i].state != RowState::Other ==> rows[i].depth as int - depth
                        <= rows[i].node_id as int - p - 1
                }
            &&& forall|y: int| #[trigger] frame_rows(rows, y) <= 1
            &&& forall|y: int|
                #[trigger] frame_rows(rows, y) > 0 ==> exists|k: int|
                    0 <= k < cs.len() && is_ancestor(t.parents(), cs[k], y)
        }),
    decreases t.len() - p, 0int, cs.len(),
{
    t.lemma_wf_parents();
    let rows = view_rows_list(t, open, open_other, limit, covered, p, cs, depth);
    if cs.len() == 0 {
        assert forall|y: int| #[trigger] frame_rows(rows, y) <= 1 by {}
    } else {
        let c = cs.last();
        let n = cs.len() - 1;
        assert(t.parents()[cs[n]] as int == p && p < cs[n] < t.len());
        let init = cs.drop_last();
        assert forall|k: int| 0 <= k < init.len() implies {
            &&& t.parents()[#[trigger] init[k]] as int == p
            &&& p < init[k] < t.len()
        } by {
            assert(init[k] == cs[k]);
        }
        assert(init.no_duplicates()) by {
            assert forall|i: int, j: int| 0 <= i < init.len() && 0 <= j < init.len() && i != j implies init[i]
                != init[j] by {
                assert(init[i] == cs[i]);
                assert(init[j] == cs[j]);
            }
        }
        lemma_view_rows_list_frames(t, open, open_other, limit, covered, p, init, depth);
        lemma_view_rows_frames(t, open, open_other, limit, covered, c, depth);
        let a = view_rows_list(t, open, open_other, limit, covered, p, init, depth);
        let b = view_rows(t, open, open_other, limit, covered, c, depth);
        assert(rows == a + b);
        assert(is_ancestor(t.parents(), p, p));
        assert(is_ancestor(t.parents(), p, c));
        assert forall|i: int| #![trigger rows[i]] 0 <= i < rows.len() implies {
            &&& p < (rows[i].node_id as int) < t.len()
            &&& is_ancestor(t.parents(), p, rows[i].node_id as int)
            &&& rows[i].state != RowState::Other ==> rows[i] == node_row(
                t,
                open,
                rows[i].node_id as int,
                rows[i].depth as int,
            )
            &&& rows[i].state != RowState::Other ==> rows[i].depth as int - depth
                <= rows[i].node_id as int - p - 1
        } by {
            if i < a.len() {
                assert(rows[i] == a[i]);
            } else {
                assert(rows[i] == b[i - a.len()]);
                lemma_ancestor_trans(t.parents(), p, c, b[i - a.len()].node_id as int);
                lemma_ancestor_bounds(t.parents(), c, b[i - a.len()].node_id as int);
            }
        }
        assert forall|y: int| #[trigger] frame_rows(rows, y) <= 1 && (frame_rows(rows, y) > 0 ==> exists|k: int|
            0 <= k < cs.len() && is_ancestor(t.parents(), cs[k], y)) by {
            lemma_frame_rows_concat(a, b, y);
            lemma_frame_rows_nonneg(a, y);
            lemma_frame_rows_nonneg(b, y);
            if frame_rows(a, y) > 0 {
                let k = choose|k: int| 0 <= k < init.len() && is_ancestor(t.parents(), init[k], y);
                assert(init[k] == cs[k]);
                if frame_rows(b, y) > 0 {
                    assert(cs[k] != cs[n]);
                    lemma_siblings_apart(t.parents(), p, cs[k], c, y);
                }
            }
            if frame_rows(b, y) > 0 {
                assert(is_ancestor(t.parents(), cs[n], y));
            }
        }
    }
}

/// The rows after frame `id` is expanded: each row of `id` itself gives way
/// to the rows of `id` expanded.
pub open spec fn opened(
    t: FlameTree,
    open: Seq<bool>,
    open_other: Seq<bool>,
    limit: int,
    covered: spec_fn(u64, u64) -> bool,
    id: int,
    rows: Seq<Row>,
) -> Seq<Row>
    decreases rows.len(),
{
    if rows.len() == 0 {
        Seq::empty()
    } else {
        let r = rows.last();
        opened(t, open, open_other, limit, covered, id, rows.drop_last()) + if r.node_id as int == id
            && r.state != RowState::Other {
            view_rows(t, open, open_other, limit, covered, id, r.depth as int)
        } else {
            seq![r]
        }
    }
}

proof fn lemma_opened_concat(
    t: FlameTree,
    open: Seq<bool>,
    open_other: Seq<bool>,
    limit: int,
    covered: spec_fn(u64, u64) -> bool,
    id: int,
    a: Seq<Row>,
    b: Seq<Row>,
)
    ensures
        opened(t, open, open_other, limit, covered, id, a + b) == opened(
            t,
            open,
            open_other,
            limit,
            covered,
            id,
            a,
        ) + opened(t, open, open_other, limit, covered, id, b),
    decreases b.len(),
{
    if b.len() == 0 {
        assert(a + b =~= a);
        assert(opened(t, open, open_other, limit, covered, id, a) + Seq::<Row>::empty() =~= opened(
            t,
            open,
            open_other,
            limit,
            covered,
            id,
            a,
        ));
    } else {
        lemma_opened_concat(t, open, open_other, limit, covered, id, a, b.drop_last());
        assert((a + b).drop_last() =~= a + b.drop_last());
    }
}

/// Rows with no row of `id` itself are left as they are.
proof fn lemma_opened_untouched(
    t: FlameTree,
    open: Seq<bool>,
    open_other: Seq<bool>,
    limit: int,
    covered: spec_fn(u64, u64) -> bool,
    id: int,
    rows: Seq<Row>,
)
    requires
        frame_rows(rows, id) == 0,
    ensures
        opened(t, open, open_other, limit, covered, id, rows) == rows,
    decreases rows.len(),
{
    if rows.len() > 0 {
        lemma_frame_rows_nonneg(rows.drop_last(), id);
        lemma_opened_untouched(t, open, open_other, limit, covered, id, rows.drop_last());
        assert(rows.drop_last() + seq![rows.last()] =~= rows);
    }
}

/// Expanding frame `id` (closed so far) changes the rows of frame `x` only
/// where `id` itself had a row.
pub proof fn lemma_expand_rows(
    t: FlameTree,
    open: Seq<bool>,
    open_other: Seq<bool>,
    limit: int,
    covered: spec_fn(u64, u64) -> bool,
    id: int,
    x: int,
    depth: int,
)
    requires
        t.wf(),
        0 <= x < t.len(),
        0 <= id < t.len(),
        open.len() == t.len(),
        open_other.len() == t.len(),
        !open[id],
        0 <= depth,
        depth + t.len() - 1 - x <= usize::MAX,
    ensures
        view_rows(t, open.update(id, true), open_other, limit, covered, x, depth) == opened(
            t,
            open.update(id, true),
            open_other,
            limit,
            covered,
            id,
            view_rows(t, open, open_other, limit, covered, x, depth),
        ),
    decreases t.len() - x, 1int, 0int,
{
    t.lemma_wf_parents();
    let open2 = open.update(id, true);
    let rows = view_rows(t, open, open_other, limit, covered, x, depth);
    let rows2 = view_rows(t, open2, open_other, limit, covered, x, depth);
    let head = seq![node_row(t, open, x, depth)];
    assert(head.drop_last() =~= Seq::<Row>::empty());
    assert(opened(t, open2, open_other, limit, covered, id, Seq::<Row>::empty()) == Seq::<Row>::empty());
    if x == id {
        assert(rows == head);
        assert(head.last().depth as int == depth);
        assert(Seq::<Row>::empty() + rows2 =~= rows2);
    } else {
        assert(open2[x] == open[x]);
        assert(node_row(t, open2, x, depth) == node_row(t, open, x, depth));
        assert(head.last().node_id as int == x);
        assert(opened(t, open2, open_other, limit, covered, id, head) =~= head);
        if t.children(x).len() == 0 || !open[x] {
            assert(rows == head);
            assert(rows2 == head);
        } else {
            let cs = ordered_children(t, x);
            let shown = shown_of(t, open_other, limit, covered, x);
            lemma_ordered_children_distinct(t, x);
            lemma_sort_by_total(t.totals(), t.children(x));
            if !open_other[x] {
                lemma_shown_count_range(t.totals(), cs, t.nodes()[x].total_count, limit, covered, 0, 0);
            }
            let shown_cs = cs.take(shown);
            assert forall|k: int| 0 <= k < shown_cs.len() implies x < #[trigger] shown_cs[k] < t.len() by {
                assert(shown_cs[k] == cs[k]);
            }
            lemma_expand_rows_list(t, open, open_other, limit, covered, id, x, shown_cs, depth + 1);
            let list = view_rows_list(t, open, open_other, limit, covered, x, shown_cs, depth + 1);
            let list2 = view_rows_list(t, open2, open_other, limit, covered, x, shown_cs, depth + 1);
            let tail = if shown < cs.len() && !open_other[x] {
                seq![other_row(t, x, cs.skip(shown), depth + 1)]
            } else {
                Seq::<Row>::empty()
            };
            assert(rows == head + list + tail);
            assert(rows2 == head + list2 + tail);
            lemma_opened_concat(t, open2, open_other, limit, covered, id, head, list);
            lemma_opened_concat(t, open2, open_other, limit, covered, id, head + list, tail);
            if tail.len() > 0 {
                assert(tail.drop_last() =~= Seq::<Row>::empty());
                assert(opened(t, open2, open_other, limit, covered, id, tail) =~= tail);
            }
        }
    }
}

/// Expanding frame `id` changes the rows of the children `cs` of `p` only
/// where `id` itself had a row.
pub proof fn lemma_expand_rows_list(
    t: FlameTree,
    open: Seq<bool>,
    open_other: Seq<bool>,
    limit: int,
    covered: spec_fn(u64, u64) -> bool,
    id: int,
    p: int,
    cs: Seq<int>,
    depth: int,
)
    requires
        t.wf(),
        0 <= p,
        0 <= id < t.len(),
        open.len() == t.len(),
        open_other.len() == t.len(),
        !open[id],
        forall|k: int| 0 <= k < cs.len() ==> p < #[trigger] cs[k] < t.len(),
        0 <= depth,
        depth + t.len() - 2 - p <= usize::MAX,
    ensures
        view_rows_list(t, open.update(id, true), open_other, limit, covered, p, cs, depth) == opened(
            t,
            open.update(id, true),
            open_other,
            limit,
            covered,
            id,
            view_rows_list(t, open, open_other, limit, covered, p, cs, depth),
        ),
    decreases t.len() - p, 0int, cs.len(),
{
    let open2 = open.update(id, true);
    if cs.len() == 0 {
        assert(opened(t, open2, open_other, limit, covered, id, Seq::<Row>::empty()) == Seq::<Row>::empty());
    } else {
        let c = cs.last();
        assert(p < cs[cs.len() - 1] < t.len());
        let init = cs.drop_last();
        assert forall|k: int| 0 <= k < init.len() implies p < #[trigger] init[k] < t.len() by {
            assert(init[k] == cs[k]);
        }
        lemma_expand_rows_list(t, open, open_other, limit, covered, id, p, init, depth);
        lemma_expand_rows(t, open, open_other, limit, covered, id, c, depth);
        let a = view_rows_list(t, open, open_other, limit, covered, p, init, depth);
        let b = view_rows(t, open, open_other, limit, covered, c, depth);
        lemma_opened_concat(t, open2, open_other, limit, covered, id, a, b);
    }
}

/// Expanding frame `id`, closed so far and shown by row `k` of the rows of
/// frame `x`, keeps the rows above `k`, puts the expanded frame's own row at
/// `k`, and only adds rows.
pub proof fn lemma_expand_in_place(
    t: FlameTree,
    open: Seq<bool>,
    open_other: Seq<bool>,
    limit: int,
    covered: spec_fn(u64, u64) -> bool,
    id: int,
    x: int,
    depth: int,
    k: int,
)
    requires
        t.wf(),
        0 <= x < t.len(),
        0 <= id < t.len(),
        open.len() == t.len(),
        open_other.len() == t.len(),
        !open[id],
        0 <= depth,
        depth + t.len() - 1 - x <= usize::MAX,
        0 <= k < view_rows(t, open, open_other, limit, covered, x, depth).len(),
        view_rows(t, open, open_other, limit, covered, x, depth)[k].node_id as int == id,
        view_rows(t, open, open_other, limit, covered, x, depth)[k].state != RowState::Other,
    ensures
        ({
            let rows = view_rows(t, open, open_other, limit, covered, x, depth);
            let rows2 = view_rows(t, open.update(id, true), open_other, limit, covered, x, depth);
            &&& rows2.len() >= rows.len()
            &&& rows2[k] == node_row(t, open.update(id, true), id, rows[k].depth as int)
        }),
{
    let open2 = open.update(id, true);
    let rows = view_rows(t, open, open_other, limit, covered, x, depth);
    let rows2 = view_rows(t, open2, open_other, limit, covered, x, depth);
    lemma_view_rows_frames(t, open, open_other, limit, covered, x, depth);
    lemma_expand_rows(t, open, open_other, limit, covered, id, x, depth);
    let before = rows.take(k);
    let at = seq![rows[k]];
    let after = rows.skip(k + 1);
    assert(rows =~= before + at + after);
    assert(at.drop_last() =~= Seq::<Row>::empty());
    assert(frame_rows(Seq::<Row>::empty(), id) == 0);
    assert(frame_rows(at, id) == 1);
    lemma_frame_rows_concat(before, at, id);
    lemma_frame_rows_concat(before + at, after, id);
    lemma_frame_rows_nonneg(before, id);
    lemma_frame_rows_nonneg(after, id);
    assert(frame_rows(rows, id) <= 1);
    lemma_opened_untouched(t, open2, open_other, limit, covered, id, before);
    lemma_opened_untouched(t, open2, open_other, limit, covered, id, after);
    lemma_opened_concat(t, open2, open_other, limit, covered, id, before, at);
    lemma_opened_concat(t, open2, open_other, limit, covered, id, before + at, after);
    let d = rows[k].depth as int;
    let sub = view_rows(t, open2, open_other, limit, covered, id, d);
    assert(opened(t, open2, open_other, limit, covered, id, Seq::<Row>::empty()) == Seq::<Row>::empty());
    assert(opened(t, open2, open_other, limit, covered, id, at) =~= sub);
    assert(rows[k] == node_row(t, open, id, d));
    assert(rows2 == before + sub + after);
    lemma_view_rows_frames(t, open2, open_other, limit, covered, id, d);
}

} // verus!
