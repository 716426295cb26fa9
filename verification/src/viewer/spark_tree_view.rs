//! The rows of the interactive tree view: which frames are shown, which are
//! folded into an "Other" row, and where the cursor is.
//!
//! The view decides how many children of an expanded frame to show by
//! asking a coverage test `covered(running, total)`: whether the children
//! shown so far, worth `running` samples, cover enough of their parent's
//! `total`. The contracts hold for every test that answers consistently.
use vstd::prelude::*;
use std::collections::HashSet;

use crate::arena::{sat, FlameTree, NodeId};
use crate::coverage::decides;
use crate::summarize::{as_ints, lemma_ordered_children_range, ordered_children};
use crate::subtree::{lemma_total_splits, totals_sum};
use crate::viewer::levels::{depth_total, lemma_next_level_total};
use crate::viewer::rows::{frame_rows, lemma_expand_in_place, lemma_view_rows_frames};

verus! {

broadcast use vstd::std_specs::hash::group_hash_axioms;

/// How a row is drawn.
#[derive(Clone, Copy, Debug, PartialEq, Eq)]
pub enum RowState {
    /// A frame whose children are shown below it.
    Expanded,
    /// A frame whose children (if any) are hidden.
    Collapsed,
    /// The children of a frame that did not fit, shown as one row.
    Other,
}

/// One row of the view. An `Other` row stands for the hidden children of
/// `node_id` and carries their summed counts.
#[derive(Clone, Copy, Debug, PartialEq, Eq)]
pub struct Row {
    pub depth: usize,
    pub node_id: NodeId,
    pub state: RowState,
    /// Inclusive samples of the row.
    pub cum_count: u64,
    /// Own samples of the row.
    pub self_count: u64,
}

/// Saturating sum of a sequence of counts, added from the front.
pub open spec fn sat_sum(s: Seq<u64>) -> u64
    decreases s.len(),
{
    if s.len() == 0 {
        0
    } else {
        sat(sat_sum(s.drop_last()) + s.last())
    }
}

/// How many of the children `cs` (heaviest first) of a frame with `total`
/// samples are shown: children are taken while fewer than `limit` are
/// shown and the ones taken, worth `running`, are not yet `covered`.
pub open spec fn shown_count(
    totals: Seq<u64>,
    cs: Seq<int>,
    total: u64,
    limit: int,
    covered: spec_fn(u64, u64) -> bool,
    k: int,
    running: u64,
) -> int
    decreases cs.len() - k,
{
    if k < 0 || k >= cs.len() || k >= limit || covered(running, total) {
        k
    } else {
        shown_count(totals, cs, total, limit, covered, k + 1, sat(running + totals[cs[k]]))
    }
}

/// The row of frame `id` itself.
pub open spec fn node_row(t: FlameTree, open: Seq<bool>, id: int, depth: int) -> Row {
    Row {
        depth: depth as usize,
        node_id: id as NodeId,
        state: if t.children(id).len() > 0 && open[id] {
            RowState::Expanded
        } else {
            RowState::Collapsed
        },
        cum_count: t.nodes()[id].total_count,
        self_count: t.nodes()[id].self_count,
    }
}

/// The row that stands for the hidden children `hidden` of frame `id`.
pub open spec fn other_row(t: FlameTree, id: int, hidden: Seq<int>, depth: int) -> Row {
    Row {
        depth: depth as usize,
        node_id: id as NodeId,
        state: RowState::Other,
        cum_count: sat_sum(hidden.map_values(|c: int| t.nodes()[c].total_count)),
        self_count: sat_sum(hidden.map_values(|c: int| t.nodes()[c].self_count)),
    }
}

/// How many children of expanded frame `id` are shown.
pub open spec fn shown_of(
    t: FlameTree,
    open_other: Seq<bool>,
    limit: int,
    covered: spec_fn(u64, u64) -> bool,
    id: int,
) -> int {
    let cs = ordered_children(t, id);
    if open_other[id] {
        cs.len() as int
    } else {
        shown_count(t.totals(), cs, t.nodes()[id].total_count, limit, covered, 0, 0)
    }
}

/// The rows for frame `id` at `depth` and, if it is expanded, for what is
/// shown below it.
pub open spec fn view_rows(
    t: FlameTree,
    open: Seq<bool>,
    open_other: Seq<bool>,
    limit: int,
    covered: spec_fn(u64, u64) -> bool,
    id: int,
    depth: int,
) -> Seq<Row>
    decreases t.len() - id, 1int, 0int,
{
    if !(0 <= id < t.len()) {
        Seq::empty()
    } else if t.children(id).len() == 0 || !open[id] {
        seq![node_row(t, open, id, depth)]
    } else {
        let cs = ordered_children(t, id);
        let shown = shown_of(t, open_other, limit, covered, id);
        seq![node_row(t, open, id, depth)] + view_rows_list(
            t,
            open,
            open_other,
            limit,
            covered,
            id,
            cs.take(shown),
            depth + 1,
        ) + if shown < cs.len() && !open_other[id] {
            seq![other_row(t, id, cs.skip(shown), depth + 1)]
        } else {
            Seq::empty()
        }
    }
}

/// The rows of the children `cs` of `p`, one after another.
pub open spec fn view_rows_list(
    t: FlameTree,
    open: Seq<bool>,
    open_other: Seq<bool>,
    limit: int,
    covered: spec_fn(u64, u64) -> bool,
    p: int,
    cs: Seq<int>,
    depth: int,
) -> Seq<Row>
    decreases t.len() - p, 0int, cs.len(),
{
    if cs.len() == 0 || p < 0 || !(p < cs.last() < t.len()) {
        Seq::empty()
    } else {
        view_rows_list(t, open, open_other, limit, covered, p, cs.drop_last(), depth) + view_rows(
            t,
            open,
            open_other,
            limit,
            covered,
            cs.last(),
            depth,
        )
    }
}

/// All rows of the view, from the root at depth 0; at most `max_lines - 1`
/// children of a frame are shown unless its "Other" row was expanded.
pub open spec fn all_rows(
    t: FlameTree,
    open: Seq<bool>,
    open_other: Seq<bool>,
    max_lines: usize,
    covered: spec_fn(u64, u64) -> bool,
) -> Seq<Row> {
    view_rows(t, open, open_other, if max_lines == 0 { 0 } else { max_lines - 1 }, covered, 0, 0)
}

/// The cursor after the rows were rebuilt: kept, or moved to the last row.
pub open spec fn clamp_cursor(cursor: usize, len: int) -> usize {
    if cursor >= len {
        if len == 0 {
            0
        } else {
            (len - 1) as usize
        }
    } else {
        cursor
    }
}

/// The last row above `cursor` at depth `d`.
pub open spec fn row_above_at_depth(rows: Seq<Row>, cursor: int, d: int) -> Option<int>
    decreases cursor,
{
    if cursor <= 0 {
        None
    } else if rows[cursor - 1].depth == d {
        Some(cursor - 1)
    } else {
        row_above_at_depth(rows, cursor - 1, d)
    }
}

/// Every row that is not an "Other" row carries the counts of its frame:
/// the frame's inclusive count and its own count.
pub open spec fn carries_counts(t: FlameTree, rows: Seq<Row>) -> bool {
    forall|i: int|
        #![trigger rows[i]]
        0 <= i < rows.len() && rows[i].state != RowState::Other ==> {
            &&& rows[i].cum_count == t.nodes()[rows[i].node_id as int].total_count
            &&& rows[i].self_count == t.nodes()[rows[i].node_id as int].self_count
        }
}

/// The state of the tree view: the tree, the rows shown, the cursor and
/// which frames are expanded.
pub struct ViewState<'a> {
    tree: &'a FlameTree,
    root: NodeId,
    rows: Vec<Row>,
    cursor: usize,
    show_spark: bool,
    open: HashSet<NodeId>,
    open_other: HashSet<NodeId>,
    max_lines: usize,
}



/// Everything but the cursor is as before.
pub open spec fn same_but_cursor<'a>(a: ViewState<'a>, b: ViewState<'a>) -> bool {
    &&& b.row_seq() == a.row_seq()
    &&& b.tree() == a.tree()
    &&& b.open_flags() == a.open_flags()
    &&& b.open_other_flags() == a.open_other_flags()
    &&& b.line_limit() == a.line_limit()
    &&& b.sparks_shown() == a.sparks_shown()
}

/// `b` is `a` with the cursor one row up, wrapping around.
pub open spec fn up_post<'a>(a: ViewState<'a>, b: ViewState<'a>) -> bool {
    &&& b.inv()
    &&& same_but_cursor(a, b)
    &&& b.cursor_pos() == (a.cursor_pos() + a.row_seq().len() - 1) % (a.row_seq().len() as int)
}

/// `b` is `a` with the cursor one row down, wrapping around.
pub open spec fn down_post<'a>(a: ViewState<'a>, b: ViewState<'a>) -> bool {
    &&& b.inv()
    &&& same_but_cursor(a, b)
    &&& b.cursor_pos() == (a.cursor_pos() + 1) % (a.row_seq().len() as int)
}

/// `b` is `a` with the spark bars toggled.
pub open spec fn toggle_post<'a>(a: ViewState<'a>, b: ViewState<'a>) -> bool {
    &&& b.inv()
    &&& b.sparks_shown() == !a.sparks_shown()
    &&& b.cursor_pos() == a.cursor_pos()
    &&& b.row_seq() == a.row_seq()
    &&& b.tree() == a.tree()
    &&& b.open_flags() == a.open_flags()
    &&& b.open_other_flags() == a.open_other_flags()
    &&& b.line_limit() == a.line_limit()
}

/// `b` is `a` after expanding the row under the cursor.
pub open spec fn expand_post<'a, F: Fn(u64, u64) -> bool>(a: ViewState<'a>, b: ViewState<'a>, covered: F) -> bool {
    let row = a.row_seq()[a.cursor_pos() as int];
    let id = row.node_id as int;
    let opens = row.state == RowState::Collapsed && a.tree().children(id).len() > 0;
    let opens_other = row.state == RowState::Other;
    &&& b.inv()
    &&& b.tree() == a.tree()
    &&& b.line_limit() == a.line_limit()
    &&& b.sparks_shown() == a.sparks_shown()
    &&& if opens || opens_other {
        &&& b.open_flags() == if opens {
            a.open_flags().update(id, true)
        } else {
            a.open_flags()
        }
        &&& b.open_other_flags() == if opens_other {
            a.open_other_flags().update(id, true)
        } else {
            a.open_other_flags()
        }
        &&& b.cursor_pos() == clamp_cursor(a.cursor_pos(), b.row_seq().len() as int)
        &&& forall|p: spec_fn(u64, u64) -> bool|
            #[trigger] decides(covered, p) ==> b.row_seq() == b.expected_rows(p)
    } else {
        &&& b.open_flags() == a.open_flags()
        &&& b.open_other_flags() == a.open_other_flags()
        &&& b.cursor_pos() == a.cursor_pos()
        &&& b.row_seq() == a.row_seq()
    }
}

/// `b` is `a` after collapsing the row under the cursor.
pub open spec fn collapse_post<'a, F: Fn(u64, u64) -> bool>(a: ViewState<'a>, b: ViewState<'a>, covered: F) -> bool {
    let row = a.row_seq()[a.cursor_pos() as int];
    let id = row.node_id as int;
    &&& b.inv()
    &&& b.tree() == a.tree()
    &&& b.line_limit() == a.line_limit()
    &&& b.sparks_shown() == a.sparks_shown()
    &&& b.open_other_flags() == a.open_other_flags()
    &&& if row.state == RowState::Expanded {
        &&& b.open_flags() == a.open_flags().update(id, false)
        &&& b.cursor_pos() == clamp_cursor(a.cursor_pos(), b.row_seq().len() as int)
        &&& forall|p: spec_fn(u64, u64) -> bool|
            #[trigger] decides(covered, p) ==> b.row_seq() == b.expected_rows(p)
    } else {
        &&& b.open_flags() == a.open_flags()
        &&& b.row_seq() == a.row_seq()
        &&& b.cursor_pos() == if row.depth > 0 {
            match row_above_at_depth(a.row_seq(), a.cursor_pos() as int, row.depth - 1) {
                Some(i) => i as usize,
                None => a.cursor_pos(),
            }
        } else {
            a.cursor_pos()
        }
    }
}

/// Moving the cursor up and then down puts it back where it was.
pub proof fn lemma_down_undoes_up<'a>(a: ViewState<'a>, b: ViewState<'a>, c: ViewState<'a>)
    requires
        a.inv(),
        up_post(a, b),
        down_post(b, c),
    ensures
        c.cursor_pos() == a.cursor_pos(),
        c.row_seq() == a.row_seq(),
        c.tree() == a.tree(),
        c.open_flags() == a.open_flags(),
        c.open_other_flags() == a.open_other_flags(),
{
    let n = a.row_seq().len() as int;
    let x = a.cursor_pos() as int;
    a.lemma_inv_cursor();
    assert(0 <= x < n);
    if x == 0 {
        assert((x + n - 1) % n == n - 1) by (nonlinear_arith)
            requires
                x == 0,
                n >= 1,
        ;
        assert((n - 1 + 1) % n == 0) by (nonlinear_arith)
            requires
                n >= 1,
        ;
    } else {
        assert((x + n - 1) % n == x - 1) by (nonlinear_arith)
            requires
                0 < x < n,
        ;
        assert((x - 1 + 1) % n == x) by (nonlinear_arith)
            requires
                0 < x < n,
        ;
    }
}

/// Moving the cursor down and then up puts it back where it was.
pub proof fn lemma_up_undoes_down<'a>(a: ViewState<'a>, b: ViewState<'a>, c: ViewState<'a>)
    requires
        a.inv(),
        down_post(a, b),
        up_post(b, c),
    ensures
        c.cursor_pos() == a.cursor_pos(),
        c.row_seq() == a.row_seq(),
        c.tree() == a.tree(),
        c.open_flags() == a.open_flags(),
        c.open_other_flags() == a.open_other_flags(),
{
    let n = a.row_seq().len() as int;
    let x = a.cursor_pos() as int;
    a.lemma_inv_cursor();
    assert(0 <= x < n);
    if x == n - 1 {
        assert((x + 1) % n == 0) by (nonlinear_arith)
            requires
                x == n - 1,
                n >= 1,
        ;
        assert((0 + n - 1) % n == x) by (nonlinear_arith)
            requires
                x == n - 1,
                n >= 1,
        ;
    } else {
        assert((x + 1) % n == x + 1) by (nonlinear_arith)
            requires
                0 <= x < n - 1,
        ;
        assert((x + 1 + n - 1) % n == x) by (nonlinear_arith)
            requires
                0 <= x < n - 1,
        ;
    }
}

/// No frame has more than one row of its own in the view, and every row
/// names a frame of the tree.
proof fn state_frames_shown_once<'a>(v: ViewState<'a>, p: spec_fn(u64, u64) -> bool)
    requires
        v.inv(),
        v.row_seq() == v.expected_rows(p),
    ensures
        forall|y: int| #[trigger] frame_rows(v.row_seq(), y) <= 1,
        forall|i: int|
            0 <= i < v.row_seq().len() ==> (#[trigger] v.row_seq()[i].node_id as int) < v.tree().len(),
{
    v.tree().lemma_wf_parents();
    lemma_view_rows_frames(v.tree(), v.open_flags(), v.open_other_flags(), child_limit(v.line_limit()), p, 0, 0);
}

/// Collapsing a frame right after expanding it gives the view back as it
/// was: the same rows, flags and cursor.
proof fn state_collapse_undoes_expand<'a, F: Fn(u64, u64) -> bool>(
    a: ViewState<'a>,
    b: ViewState<'a>,
    c: ViewState<'a>,
    covered: F,
    p: spec_fn(u64, u64) -> bool,
)
    requires
        a.inv(),
        decides(covered, p),
        a.row_seq() == a.expected_rows(p),
        a.row_seq()[a.cursor_pos() as int].state == RowState::Collapsed,
        a.tree().children(a.row_seq()[a.cursor_pos() as int].node_id as int).len() > 0,
        expand_post(a, b, covered),
        collapse_post(b, c, covered),
    ensures
        c.row_seq() == a.row_seq(),
        c.cursor_pos() == a.cursor_pos(),
        c.open_flags() == a.open_flags(),
        c.open_other_flags() == a.open_other_flags(),
        c.tree() == a.tree(),
        c.line_limit() == a.line_limit(),
        c.sparks_shown() == a.sparks_shown(),
{
    let t = a.tree();
    let open = a.open_flags();
    let oo = a.open_other_flags();
    let limit = child_limit(a.line_limit());
    let k = a.cursor_pos() as int;
    let rows = a.row_seq();
    let row = rows[k];
    let id = row.node_id as int;
    t.lemma_wf_parents();
    lemma_view_rows_frames(t, open, oo, limit, p, 0, 0);
    assert(rows[k] == node_row(t, open, id, row.depth as int));
    assert(!open[id]);
    let open2 = open.update(id, true);
    assert(b.open_flags() == open2);
    assert(b.row_seq() == b.expected_rows(p));
    lemma_expand_in_place(t, open, oo, limit, p, id, 0, 0, k);
    assert(b.row_seq()[k] == node_row(t, open2, id, row.depth as int));
    assert(b.cursor_pos() == a.cursor_pos());
    assert(open2.update(id, false) =~= open);
    assert(c.row_seq() == c.expected_rows(p));
}

/// With the root expanded, the rows one level below it (its shown children
/// and the "Other" row standing for the rest) together count every sample of
/// the root's children, whatever else is expanded, whenever that sum fits in
/// a `u64`; with the root's own samples they make up the root's total.
proof fn state_first_level_total<'a>(v: ViewState<'a>, covered: spec_fn(u64, u64) -> bool)
    requires
        v.inv(),
        v.row_seq() == v.expected_rows(covered),
        v.open_flags()[0],
        totals_sum(v.tree(), v.tree().children(0)) <= u64::MAX,
    ensures
        depth_total(v.row_seq(), 1) == totals_sum(v.tree(), v.tree().children(0)),
        v.tree().nodes()[0].total_count < u64::MAX ==> depth_total(v.row_seq(), 1)
            + v.tree().nodes()[0].self_count == v.tree().nodes()[0].total_count,
{
    v.tree().lemma_wf_parents();
    if v.tree().nodes()[0].total_count < u64::MAX {
        lemma_total_splits(v.tree(), 0);
    }
    lemma_next_level_total(
        v.tree(),
        v.open_flags(),
        v.open_other_flags(),
        child_limit(v.line_limit()),
        covered,
        0,
        0,
    );
}

/// Two spaces per level of depth.
pub open spec fn indent(depth: nat) -> Seq<char>
    decreases depth,
{
    if depth == 0 {
        Seq::empty()
    } else {
        indent((depth - 1) as nat) + "  "@
    }
}

/// The text of a row's function column: indented by its depth, an expanded
/// frame marked `▼`, a collapsed one with children `▶`, the "Other" row
/// named as such.
pub open spec fn row_label_spec(t: FlameTree, row: Row) -> Seq<char> {
    let node = t.nodes()[row.node_id as int];
    indent(row.depth as nat) + match row.state {
        RowState::Expanded => "▼ "@ + node.name@,
        RowState::Collapsed => if node.first_child is Some {
            "▶ "@ + node.name@
        } else {
            "  "@ + node.name@
        },
        RowState::Other => "… Other"@,
    }
}

/// The limit on shown children for a view with `max_lines` rows.
pub open spec fn child_limit(max_lines: usize) -> int {
    if max_lines == 0 {
        0
    } else {
        max_lines - 1
    }
}

impl<'a> ViewState<'a> {
    pub closed spec fn tree(&self) -> FlameTree {
        *self.tree
    }

    pub closed spec fn row_seq(&self) -> Seq<Row> {
        self.rows@
    }

    pub closed spec fn cursor_pos(&self) -> usize {
        self.cursor
    }

    pub closed spec fn sparks_shown(&self) -> bool {
        self.show_spark
    }

    /// Which frames are expanded.
    pub closed spec fn open_flags(&self) -> Seq<bool> {
        Seq::new(self.tree.len(), |i: int| self.open@.contains(i as NodeId))
    }

    /// Which frames show all their children instead of an "Other" row.
    pub closed spec fn open_other_flags(&self) -> Seq<bool> {
        Seq::new(self.tree.len(), |i: int| self.open_other@.contains(i as NodeId))
    }

    pub closed spec fn line_limit(&self) -> usize {
        self.max_lines
    }

    /// The rows of the view as the flags and `covered` determine them.
    pub open spec fn expected_rows(&self, covered: spec_fn(u64, u64) -> bool) -> Seq<Row> {
        all_rows(self.tree(), self.open_flags(), self.open_other_flags(), self.line_limit(), covered)
    }

    /// The cursor is on one of the rows.
    pub proof fn lemma_inv_cursor(&self)
        requires
            self.inv(),
        ensures
            self.cursor_pos() < self.row_seq().len(),
            self.row_seq().len() > 0,
            self.row_seq().len() <= usize::MAX,
    {
        assert(self.rows@.len() == self.rows.len());
    }

    /// The rows carry their frames' counts.
    pub proof fn lemma_inv_counts(&self)
        requires
            self.inv(),
        ensures
            carries_counts(self.tree(), self.row_seq()),
    {
    }

    /// In every view the public operations build, the first row is the
    /// root's, at depth 0, and the cursor is on a row, so there always is a
    /// current row.
    pub proof fn lemma_first_row_is_root(&self)
        requires
            self.inv(),
        ensures
            self.row_seq().len() > 0,
            self.row_seq()[0].node_id == 0,
            self.row_seq()[0].depth == 0,
            self.cursor_pos() < self.row_seq().len(),
    {
    }

    /// The cursor is on a row, the first row is the root's, and every row
    /// names a frame of the tree.
    pub closed spec fn inv(&self) -> bool {
        &&& self.tree.wf()
        &&& self.root == 0
        &&& self.rows@.len() > 0
        &&& self.rows@[0].node_id == 0
        &&& self.rows@[0].depth == 0
        &&& self.cursor < self.rows@.len()
        &&& carries_counts(*self.tree, self.rows@)
        &&& forall|i: int|
            #![trigger self.rows@[i]]
            0 <= i < self.rows@.len() ==> (self.rows@[i].node_id as int) < self.tree.len()
    }

    /// Rebuild the rows from the flags, keeping the cursor on a row.
    fn rebuild<F: Fn(u64, u64) -> bool>(&mut self, covered: &F)
        requires
            old(self).tree.wf(),
            old(self).root == 0,
            forall|a: u64, b: u64| covered.requires((a, b)),
        ensures
            final(self).inv(),
            final(self).tree == old(self).tree,
            final(self).open@ == old(self).open@,
            final(self).open_other@ == old(self).open_other@,
            final(self).max_lines == old(self).max_lines,
            final(self).show_spark == old(self).show_spark,
            final(self).cursor == clamp_cursor(old(self).cursor, final(self).rows@.len() as int),
            forall|p: spec_fn(u64, u64) -> bool|
                #[trigger] decides(*covered, p) ==> final(self).rows@ == final(self).expected_rows(p),
    {
        proof {
            self.tree.lemma_wf_parents();
        }
        self.rows.clear();
        self.build_rows(self.root, 0, covered);
        proof {
            assert forall|p: spec_fn(u64, u64) -> bool| #[trigger]
                decides(*covered, p) implies self.rows@ == self.expected_rows(p) by {
                assert(self.rows@ =~= Seq::<Row>::empty() + view_rows(
                    *self.tree,
                    self.open_flags(),
                    self.open_other_flags(),
                    child_limit(self.max_lines),
                    p,
                    0,
                    0,
                ));
            }
        }
        if self.cursor >= self.rows.len() {
            self.cursor = self.rows.len().saturating_sub(1);
        }
    }

    /// A view of `tree` with the root expanded and the cursor on the root.
    pub(crate) fn new<F: Fn(u64, u64) -> bool>(tree: &'a FlameTree, max_lines: usize, covered: &F) -> (v: Self)
        requires
            tree.wf(),
            forall|a: u64, b: u64| covered.requires((a, b)),
        ensures
            v.inv(),
            v.tree() == *tree,
            v.cursor_pos() == 0,
            v.sparks_shown(),
            v.line_limit() == max_lines,
            v.open_flags() == Seq::new(tree.len(), |i: int| i == 0),
            v.open_other_flags() == Seq::new(tree.len(), |i: int| false),
            forall|p: spec_fn(u64, u64) -> bool|
                #[trigger] decides(*covered, p) ==> v.row_seq() == v.expected_rows(p),
    {
        let root = tree.root();
        let mut open: HashSet<NodeId> = HashSet::new();
        open.insert(root);
        let open_other: HashSet<NodeId> = HashSet::new();
        proof {
            tree.lemma_wf_parents();
            assert(Seq::new(tree.len(), |i: int| open@.contains(i as NodeId)) =~= Seq::new(
                tree.len(),
                |i: int| i == 0,
            ));
            assert(Seq::new(tree.len(), |i: int| open_other@.contains(i as NodeId)) =~= Seq::new(
                tree.len(),
                |i: int| false,
            ));
        }
        let mut view = ViewState {
            tree,
            root,
            rows: Vec::new(),
            cursor: 0,
            show_spark: true,
            open,
            open_other,
            max_lines,
        };
        view.rebuild(covered);
        view
    }

    /// Move the cursor up one row, wrapping around to the last row.
    pub(crate) fn up(&mut self)
        requires
            old(self).inv(),
        ensures
            up_post(*old(self), *final(self)),
    {
        proof {
            self.lemma_inv_cursor();
        }
        let n = self.rows.len();
        let ghost c = self.cursor as int;
        proof {
            if c == 0 {
                assert((c + n - 1) % (n as int) == n - 1) by (nonlinear_arith)
                    requires
                        c == 0,
                        n >= 1,
                ;
            } else {
                assert((c + n - 1) % (n as int) == c - 1) by (nonlinear_arith)
                    requires
                        0 < c < n,
                ;
            }
        }
        self.cursor = if self.cursor == 0 {
            n - 1
        } else {
            self.cursor - 1
        };
    }

    /// Move the cursor down one row, wrapping around to the first row.
    pub(crate) fn down(&mut self)
        requires
            old(self).inv(),
        ensures
            down_post(*old(self), *final(self)),
    {
        proof {
            self.lemma_inv_cursor();
        }
        self.cursor = (self.cursor + 1) % self.rows.len();
    }

    /// Show or hide the spark bars.
    pub(crate) fn toggle_spark(&mut self)
        requires
            old(self).inv(),
        ensures
            toggle_post(*old(self), *final(self)),
    {
        self.show_spark = !self.show_spark;
    }

    /// Expand the row under the cursor: a collapsed frame with children
    /// shows them, an "Other" row shows all the children it stood for.
    pub(crate) fn expand<F: Fn(u64, u64) -> bool>(&mut self, covered: &F)
        requires
            old(self).inv(),
            forall|a: u64, b: u64| covered.requires((a, b)),
        ensures
            expand_post(*old(self), *final(self), *covered),
    {
        if self.rows.len() == 0 {
            return;
        }
        let row = self.rows[self.cursor];
        proof {
            self.tree.lemma_sibling_links(row.node_id as int);
        }
        match row.state {
            RowState::Collapsed => {
                if self.tree[row.node_id].first_child.is_some() {
                    self.open.insert(row.node_id);
                    proof {
                        self.tree.lemma_wf_parents();
                        assert(self.open_flags() =~= old(self).open_flags().update(row.node_id as int, true));
                    }
                    self.rebuild(covered);
                }
            },
            RowState::Other => {
                self.open_other.insert(row.node_id);
                proof {
                    self.tree.lemma_wf_parents();
                    assert(self.open_other_flags() =~= old(self).open_other_flags().update(
                        row.node_id as int,
                        true,
                    ));
                }
                self.rebuild(covered);
            },
            RowState::Expanded => {},
        }
    }

    /// Collapse the row under the cursor: an expanded frame hides its
    /// children; otherwise the cursor moves to the nearest row above that
    /// is one level up.
    pub(crate) fn collapse<F: Fn(u64, u64) -> bool>(&mut self, covered: &F)
        requires
            old(self).inv(),
            forall|a: u64, b: u64| covered.requires((a, b)),
        ensures
            collapse_post(*old(self), *final(self), *covered),
    {
        if self.rows.len() == 0 {
            return;
        }
        let row = self.rows[self.cursor];
        match row.state {
            RowState::Expanded => {
                self.open.remove(&row.node_id);
                proof {
                    self.tree.lemma_wf_parents();
                    assert(self.open_flags() =~= old(self).open_flags().update(row.node_id as int, false));
                }
                self.rebuild(covered);
            },
            RowState::Collapsed | RowState::Other => {
                if row.depth > 0 {
                    let target_depth = row.depth - 1;
                    let mut idx = self.cursor;
                    let ghost start = self.cursor as int;
                    while idx > 0
                        invariant_except_break
                            self.inv(),
                            self.tree == old(self).tree,
                            self.max_lines == old(self).max_lines,
                            self.show_spark == old(self).show_spark,
                            self.open@ == old(self).open@,
                            self.open_other@ == old(self).open_other@,
                            self.rows@ == old(self).rows@,
                            self.cursor == old(self).cursor,
                            idx <= start,
                            start == old(self).cursor,
                            row_above_at_depth(self.rows@, start, target_depth as int)
                                == row_above_at_depth(self.rows@, idx as int, target_depth as int),
                        ensures
                            self.inv(),
                            self.tree == old(self).tree,
                            self.max_lines == old(self).max_lines,
                            self.show_spark == old(self).show_spark,
                            self.open@ == old(self).open@,
                            self.open_other@ == old(self).open_other@,
                            self.rows@ == old(self).rows@,
                            self.cursor == match row_above_at_depth(
                                self.rows@,
                                start,
                                target_depth as int,
                            ) {
                                Some(i) => i as usize,
                                None => old(self).cursor,
                            },
                        decreases idx,
                    {
                        idx = idx - 1;
                        if self.rows[idx].depth == target_depth {
                            self.cursor = idx;
                            break;
                        }
                    }
                }
            },
        }
    }

    /// The row under the cursor.
    pub(crate) fn current_row(&self) -> (r: Option<&Row>)
        requires
            self.inv(),
        ensures
            r == Some(&self.row_seq()[self.cursor_pos() as int]),
    {
        if self.cursor < self.rows.len() {
            Some(&self.rows[self.cursor])
        } else {
            None
        }
    }

    /// All rows, top to bottom.
    pub(crate) fn rows(&self) -> (r: &[Row])
        ensures
            r@ == self.row_seq(),
    {
        self.rows.as_slice()
    }

    /// Index of the row under the cursor.
    pub(crate) fn cursor(&self) -> (r: usize)
        ensures
            r == self.cursor_pos(),
    {
        self.cursor
    }

    /// Whether spark bars are shown.
    pub(crate) fn show_spark(&self) -> (r: bool)
        ensures
            r == self.sparks_shown(),
    {
        self.show_spark
    }

    /// The tree the view shows.
    pub(crate) fn tree_ref(&self) -> (r: &'a FlameTree)
        ensures
            *r == self.tree(),
    {
        self.tree
    }

    /// The text of the function column for `row`.
    pub(crate) fn row_label(&self, row: &Row) -> (r: String)
        requires
            self.inv(),
            (row.node_id as int) < self.tree().len(),
        ensures
            r@ == row_label_spec(self.tree(), *row),
    {
        let mut s = String::new();
        let mut d: usize = 0;
        while d < row.depth
            invariant
                d <= row.depth,
                s@ == indent(d as nat),
            decreases row.depth - d,
        {
            s.append("  ");
            d = d + 1;
        }
        let node = &self.tree[row.node_id];
        match row.state {
            RowState::Expanded => {
                s.append("▼ ");
                s.append(node.name.as_str());
            },
            RowState::Collapsed => {
                if node.first_child.is_some() {
                    s.append("▶ ");
                } else {
                    s.append("  ");
                }
                s.append(node.name.as_str());
            },
            RowState::Other => {
                s.append("… Other");
            },
        }
        s
    }

    /// Append the rows for frame `id` at `depth` and what is shown below it.
    fn build_rows<F: Fn(u64, u64) -> bool>(&mut self, id: NodeId, depth: usize, covered: &F)
        requires
            old(self).tree.wf(),
            (id as int) < old(self).tree.len(),
            depth <= id,
            forall|a: u64, b: u64| covered.requires((a, b)),
            forall|i: int|
                #![trigger old(self).rows@[i]]
                0 <= i < old(self).rows@.len() ==> (old(self).rows@[i].node_id as int)
                    < old(self).tree.len(),
            carries_counts(*old(self).tree, old(self).rows@),
        ensures
            carries_counts(*final(self).tree, final(self).rows@),
            final(self).tree == old(self).tree,
            final(self).root == old(self).root,
            final(self).cursor == old(self).cursor,
            final(self).show_spark == old(self).show_spark,
            final(self).open@ == old(self).open@,
            final(self).open_other@ == old(self).open_other@,
            final(self).max_lines == old(self).max_lines,
            final(self).rows@.len() > old(self).rows@.len(),
            forall|i: int|
                0 <= i < old(self).rows@.len() ==> #[trigger] final(self).rows@[i] == old(
                    self,
                ).rows@[i],
            final(self).rows@[old(self).rows@.len() as int].node_id == id,
            final(self).rows@[old(self).rows@.len() as int].depth == depth,
            forall|i: int|
                #![trigger final(self).rows@[i]]
                0 <= i < final(self).rows@.len() ==> (final(self).rows@[i].node_id as int)
                    < final(self).tree.len(),
            forall|p: spec_fn(u64, u64) -> bool|
                #[trigger] decides(*covered, p) ==> final(self).rows@ == old(self).rows@ + view_rows(
                    *old(self).tree,
                    old(self).open_flags(),
                    old(self).open_other_flags(),
                    child_limit(old(self).max_lines),
                    p,
                    id as int,
                    depth as int,
                ),
        decreases old(self).tree.len() - id,
    {
        let tree = self.tree;
        let ghost t = *tree;
        let ghost limit = child_limit(self.max_lines);
        let ghost base = self.rows@;
        proof {
            tree.lemma_sibling_links(id as int);
            tree.lemma_wf_parents();
        }
        let node = &tree[id];
        let has_children = node.first_child.is_some();
        let expanded = self.open.contains(&id);
        let state = if has_children {
            if expanded {
                RowState::Expanded
            } else {
                RowState::Collapsed
            }
        } else {
            RowState::Collapsed
        };
        let row = Row {
            depth,
            node_id: id,
            state,
            cum_count: node.total_count,
            self_count: node.self_count,
        };
        self.rows.push(row);
        proof {
            assert forall|i: int|
                #![trigger self.rows@[i]]
                0 <= i < self.rows@.len() && self.rows@[i].state != RowState::Other implies {
                    &&& self.rows@[i].cum_count == t.nodes()[self.rows@[i].node_id as int].total_count
                    &&& self.rows@[i].self_count == t.nodes()[self.rows@[i].node_id as int].self_count
                } by {
                if i < base.len() {
                    assert(self.rows@[i] == base[i]);
                }
            }
            assert(row == node_row(t, self.open_flags(), id as int, depth as int));
            assert forall|i: int|
                #![trigger self.rows@[i]]
                0 <= i < self.rows@.len() implies (self.rows@[i].node_id as int) < t.len() by {
                if i < base.len() {
                    assert(self.rows@[i] == base[i]);
                }
            }
        }
        if !has_children || !expanded {
            return;
        }
        let children = tree.ordered_child_ids(id);
        let ghost os = ordered_children(t, id as int);
        proof {
            lemma_ordered_children_range(t, id as int);
            assert forall|k: int| #![trigger children@[k]] 0 <= k < children@.len() implies id
                < children@[k] && (children@[k] as int) < t.len() by {
                assert(as_ints(children@)[k] == children@[k] as int);
                assert(os[k] == children@[k] as int);
            }
        }
        let node_total = node.total_count;
        let limit_exec = self.max_lines.saturating_sub(1);
        let mut shown: usize = 0;
        if self.open_other.contains(&id) {
            shown = children.len();
        } else {
            let mut running: u64 = 0;
            while shown < children.len()
                invariant_except_break
                    tree.wf(),
                    t == *tree,
                    as_ints(children@) == os,
                    forall|k: int| #![trigger children@[k]] 0 <= k < children@.len() ==> id
                        < children@[k] && (children@[k] as int) < t.len(),
                    limit_exec == limit,
                    node_total == t.nodes()[id as int].total_count,
                    forall|a: u64, b: u64| covered.requires((a, b)),
                    shown <= children@.len(),
                    forall|p: spec_fn(u64, u64) -> bool|
                        #[trigger] decides(*covered, p) ==> shown_count(
                            t.totals(),
                            os,
                            node_total,
                            limit,
                            p,
                            0,
                            0,
                        ) == shown_count(t.totals(), os, node_total, limit, p, shown as int, running),
                ensures
                    shown <= children@.len(),
                    forall|p: spec_fn(u64, u64) -> bool|
                        #[trigger] decides(*covered, p) ==> shown_count(
                            t.totals(),
                            os,
                            node_total,
                            limit,
                            p,
                            0,
                            0,
                        ) == shown,
                decreases children@.len() - shown,
            {
                if shown >= limit_exec {
                    break;
                }
                let b = covered(running, node_total);
                if b {
                    break;
                }
                let c = children[shown];
                proof {
                    assert(os[shown as int] == c as int);
                }
                running = running.saturating_add(tree[c].total_count);
                shown = shown + 1;
            }
        }
        proof {
            assert(os.take(0) =~= Seq::<int>::empty());
        }
        let mut j: usize = 0;
        while j < shown
            invariant
                self.tree == tree,
                tree == old(self).tree,
                t == *tree,
                tree.wf(),
                self.open@ == old(self).open@,
                self.open_other@ == old(self).open_other@,
                self.max_lines == old(self).max_lines,
                self.root == old(self).root,
                self.cursor == old(self).cursor,
                self.show_spark == old(self).show_spark,
                limit == child_limit(self.max_lines),
                as_ints(children@) == os,
                forall|k: int| #![trigger children@[k]] 0 <= k < children@.len() ==> id
                    < children@[k] && (children@[k] as int) < t.len(),
                forall|k: int| #![trigger os[k]] 0 <= k < os.len() ==> id < os[k] < t.len(),
                depth <= id,
                (id as int) < t.len(),
                t.len() <= u32::MAX + 1,
                forall|a: u64, b: u64| covered.requires((a, b)),
                j <= shown <= children@.len(),
                self.rows@.len() > base.len(),
                carries_counts(t, self.rows@),
                forall|i: int| 0 <= i < base.len() ==> #[trigger] self.rows@[i] == base[i],
                self.rows@[base.len() as int] == row,
                forall|i: int|
                    #![trigger self.rows@[i]]
                    0 <= i < self.rows@.len() ==> (self.rows@[i].node_id as int) < t.len(),
                forall|p: spec_fn(u64, u64) -> bool|
                    #[trigger] decides(*covered, p) ==> self.rows@ == base + seq![
                        node_row(t, self.open_flags(), id as int, depth as int),
                    ] + view_rows_list(
                        t,
                        self.open_flags(),
                        self.open_other_flags(),
                        limit,
                        p,
                        id as int,
                        os.take(j as int),
                        depth + 1,
                    ),
            decreases shown - j,
        {
            let c = children[j];
            proof {
                assert(os[j as int] == c as int);
            }
            let ghost before = self.rows@;
            self.build_rows(c, depth + 1, covered);
            proof {
                assert forall|p: spec_fn(u64, u64) -> bool| #[trigger]
                    decides(*covered, p) implies self.rows@ == base + seq![
                    node_row(t, self.open_flags(), id as int, depth as int),
                ] + view_rows_list(
                    t,
                    self.open_flags(),
                    self.open_other_flags(),
                    limit,
                    p,
                    id as int,
                    os.take(j + 1),
                    depth + 1,
                ) by {
                    assert(os.take(j + 1).drop_last() =~= os.take(j as int));
                    assert(os.take(j + 1).last() == c as int);
                }
            }
            j = j + 1;
        }
        if shown < children.len() && !self.open_other.contains(&id) {
            let mut tot: u64 = 0;
            let mut self_tot: u64 = 0;
            let mut k = shown;
            let ghost hidden = os.skip(shown as int);
            proof {
                assert(hidden.take(0).map_values(|c: int| t.nodes()[c].total_count) =~= Seq::<
                    u64,
                >::empty());
                assert(hidden.take(0).map_values(|c: int| t.nodes()[c].self_count) =~= Seq::<
                    u64,
                >::empty());
            }
            while k < children.len()
                invariant
                    tree.wf(),
                    t == *tree,
                    as_ints(children@) == os,
                    forall|i: int| #![trigger children@[i]] 0 <= i < children@.len() ==> id
                        < children@[i] && (children@[i] as int) < t.len(),
                    hidden == os.skip(shown as int),
                    shown <= k <= children@.len(),
                    tot == sat_sum(
                        hidden.take(k - shown).map_values(|c: int| t.nodes()[c].total_count),
                    ),
                    self_tot == sat_sum(
                        hidden.take(k - shown).map_values(|c: int| t.nodes()[c].self_count),
                    ),
                decreases children@.len() - k,
            {
                let c = children[k];
                proof {
                    assert(os[k as int] == c as int);
                    assert(hidden[k - shown] == c as int);
                    assert(hidden.take(k + 1 - shown).map_values(|c: int| t.nodes()[c].total_count)
                        =~= hidden.take(k - shown).map_values(|c: int| t.nodes()[c].total_count).push(
                        t.nodes()[c as int].total_count,
                    ));
                    assert(hidden.take(k + 1 - shown).map_values(|c: int| t.nodes()[c].self_count)
                        =~= hidden.take(k - shown).map_values(|c: int| t.nodes()[c].self_count).push(
                        t.nodes()[c as int].self_count,
                    ));
                    let tv = hidden.take(k - shown).map_values(|c: int| t.nodes()[c].total_count);
                    let sv = hidden.take(k - shown).map_values(|c: int| t.nodes()[c].self_count);
                    assert(tv.push(t.nodes()[c as int].total_count).drop_last() =~= tv);
                    assert(sv.push(t.nodes()[c as int].self_count).drop_last() =~= sv);
                }
                tot = tot.saturating_add(tree[c].total_count);
                self_tot = self_tot.saturating_add(tree[c].self_count);
                k = k + 1;
            }
            let other = Row {
                depth: depth + 1,
                node_id: id,
                state: RowState::Other,
                cum_count: tot,
                self_count: self_tot,
            };
            proof {
                assert(hidden.take(k - shown) =~= hidden);
                assert(other == other_row(t, id as int, hidden, depth + 1));
            }
            let ghost before = self.rows@;
            self.rows.push(other);
            proof {
                assert forall|i: int|
                    #![trigger self.rows@[i]]
                    0 <= i < self.rows@.len() && self.rows@[i].state != RowState::Other implies {
                        &&& self.rows@[i].cum_count == t.nodes()[self.rows@[i].node_id as int].total_count
                        &&& self.rows@[i].self_count == t.nodes()[self.rows@[i].node_id as int].self_count
                    } by {
                    if i < before.len() {
                        assert(self.rows@[i] == before[i]);
                    }
                }
                assert forall|i: int|
                    #![trigger self.rows@[i]]
                    0 <= i < self.rows@.len() implies (self.rows@[i].node_id as int) < t.len() by {
                    if i < before.len() {
                        assert(self.rows@[i] == before[i]);
                    }
                }
            }
        }
    }
}

/// The interactive tree view over a flame tree, with the coverage test
/// `covered(running, total)` that decides how many children of a frame it
/// shows.
pub struct SparkTreeView<'a, F> {
    view: ViewState<'a>,
    covered: F,
}

/// Collapsing a frame right after expanding it gives the view back as it
/// was: the same rows, flags and cursor. This holds whenever the view's
/// coverage test answers as a predicate `p` does, as one that reads its
/// arguments alone (a float comparison, say) always does.
pub proof fn lemma_collapse_undoes_expand<'a, F: Fn(u64, u64) -> bool>(
    a: SparkTreeView<'a, F>,
    b: SparkTreeView<'a, F>,
    c: SparkTreeView<'a, F>,
    p: spec_fn(u64, u64) -> bool,
)
    requires
        a.inv(),
        decides(a.coverage(), p),
        a.state().row_seq()[a.state().cursor_pos() as int].state == RowState::Collapsed,
        a.state().tree().children(a.state().row_seq()[a.state().cursor_pos() as int].node_id as int).len() > 0,
        b.coverage() == a.coverage(),
        expand_post(a.state(), b.state(), a.coverage()),
        collapse_post(b.state(), c.state(), b.coverage()),
    ensures
        c.state().row_seq() == a.state().row_seq(),
        c.state().cursor_pos() == a.state().cursor_pos(),
        c.state().open_flags() == a.state().open_flags(),
        c.state().open_other_flags() == a.state().open_other_flags(),
        c.state().tree() == a.state().tree(),
        c.state().line_limit() == a.state().line_limit(),
        c.state().sparks_shown() == a.state().sparks_shown(),
{
    a.lemma_inv();
    state_collapse_undoes_expand(a.state(), b.state(), c.state(), a.coverage(), p);
}

/// Every row of the view that is not an "Other" row shows the counts of
/// its frame: the cumulative column its inclusive count, the own column
/// its own count.
pub proof fn lemma_rows_show_frame_counts<'a, F: Fn(u64, u64) -> bool>(v: SparkTreeView<'a, F>)
    requires
        v.inv(),
    ensures
        forall|i: int|
            0 <= i < v.state().row_seq().len() && (#[trigger] v.state().row_seq()[i]).state
                != RowState::Other ==> {
                &&& v.state().row_seq()[i].cum_count == v.state().tree().nodes()[v.state().row_seq()[i].node_id as int].total_count
                &&& v.state().row_seq()[i].self_count == v.state().tree().nodes()[v.state().row_seq()[i].node_id as int].self_count
            },
{
    v.lemma_inv();
    v.state().lemma_inv_counts();
}

/// No frame has more than one row of its own in the view, and every row
/// names a frame of the tree.
pub proof fn lemma_frames_shown_once<'a, F: Fn(u64, u64) -> bool>(v: SparkTreeView<'a, F>, p: spec_fn(u64, u64) -> bool)
    requires
        v.inv(),
        decides(v.coverage(), p),
    ensures
        forall|y: int| #[trigger] frame_rows(v.state().row_seq(), y) <= 1,
        forall|i: int|
            0 <= i < v.state().row_seq().len() ==> (#[trigger] v.state().row_seq()[i].node_id as int) < v.state().tree().len(),
{
    v.lemma_inv();
    state_frames_shown_once(v.state(), p);
}

/// With the root expanded, the rows one level below it (its shown children
/// and the "Other" row standing for the rest) together count every sample of
/// the root's children, whatever else is expanded, whenever that sum fits in
/// a `u64`; with the root's own samples they make up the root's total.
pub proof fn lemma_first_level_total<'a, F: Fn(u64, u64) -> bool>(v: SparkTreeView<'a, F>, p: spec_fn(u64, u64) -> bool)
    requires
        v.inv(),
        decides(v.coverage(), p),
        v.state().open_flags()[0],
        totals_sum(v.state().tree(), v.state().tree().children(0)) <= u64::MAX,
    ensures
        depth_total(v.state().row_seq(), 1) == totals_sum(v.state().tree(), v.state().tree().children(0)),
        v.state().tree().nodes()[0].total_count < u64::MAX ==> depth_total(v.state().row_seq(), 1)
            + v.state().tree().nodes()[0].self_count == v.state().tree().nodes()[0].total_count,
{
    v.lemma_inv();
    state_first_level_total(v.state(), p);
}

impl<'a, F: Fn(u64, u64) -> bool> SparkTreeView<'a, F> {
    /// The state of the view.
    pub closed spec fn state(&self) -> ViewState<'a> {
        self.view
    }

    /// The coverage test the view asks.
    pub closed spec fn coverage(&self) -> F {
        self.covered
    }

    /// The state is in order, the coverage test takes any arguments, and the
    /// rows are those the state gives for whatever predicate the test
    /// answers as.
    pub closed spec fn inv(&self) -> bool {
        &&& self.view.inv()
        &&& forall|a: u64, b: u64| self.covered.requires((a, b))
        &&& forall|p: spec_fn(u64, u64) -> bool|
            #[trigger] decides(self.covered, p) ==> self.view.row_seq() == self.view.expected_rows(p)
    }

    /// What the invariant says of the state.
    pub proof fn lemma_inv(&self)
        requires
            self.inv(),
        ensures
            self.state().inv(),
            forall|a: u64, b: u64| self.coverage().requires((a, b)),
            forall|p: spec_fn(u64, u64) -> bool|
                #[trigger] decides(self.coverage(), p) ==> self.state().row_seq() == self.state().expected_rows(p),
    {
    }

    /// A view of `tree` with the root expanded and the cursor on the root.
    pub fn new(tree: &'a FlameTree, max_lines: usize, covered: F) -> (v: Self)
        requires
            tree.wf(),
            forall|a: u64, b: u64| covered.requires((a, b)),
        ensures
            v.inv(),
            v.coverage() == covered,
            v.state().tree() == *tree,
            v.state().cursor_pos() == 0,
            v.state().sparks_shown(),
            v.state().line_limit() == max_lines,
            v.state().open_flags() == Seq::new(tree.len(), |i: int| i == 0),
            v.state().open_other_flags() == Seq::new(tree.len(), |i: int| false),
    {
        let view = ViewState::new(tree, max_lines, &covered);
        SparkTreeView { view, covered }
    }

    /// Move the cursor up one row, wrapping around to the last row.
    pub fn up(&mut self)
        requires
            old(self).inv(),
        ensures
            final(self).inv(),
            final(self).coverage() == old(self).coverage(),
            up_post(old(self).state(), final(self).state()),
    {
        self.view.up();
    }

    /// Move the cursor down one row, wrapping around to the first row.
    pub fn down(&mut self)
        requires
            old(self).inv(),
        ensures
            final(self).inv(),
            final(self).coverage() == old(self).coverage(),
            down_post(old(self).state(), final(self).state()),
    {
        self.view.down();
    }

    /// Show or hide the spark bars.
    pub fn toggle_spark(&mut self)
        requires
            old(self).inv(),
        ensures
            final(self).inv(),
            final(self).coverage() == old(self).coverage(),
            toggle_post(old(self).state(), final(self).state()),
    {
        self.view.toggle_spark();
    }

    /// Expand the row under the cursor: a collapsed frame with children
    /// shows them, an "Other" row shows all the children it stood for.
    pub fn expand(&mut self)
        requires
            old(self).inv(),
        ensures
            final(self).inv(),
            final(self).coverage() == old(self).coverage(),
            expand_post(old(self).state(), final(self).state(), old(self).coverage()),
    {
        self.view.expand(&self.covered);
    }

    /// Collapse the row under the cursor: an expanded frame hides its
    /// children; otherwise the cursor moves to the nearest row above that
    /// is one level up.
    pub fn collapse(&mut self)
        requires
            old(self).inv(),
        ensures
            final(self).inv(),
            final(self).coverage() == old(self).coverage(),
            collapse_post(old(self).state(), final(self).state(), old(self).coverage()),
    {
        self.view.collapse(&self.covered);
    }

    /// The row under the cursor.
    pub fn current_row(&self) -> (r: Option<&Row>)
        requires
            self.inv(),
        ensures
            r == Some(&self.state().row_seq()[self.state().cursor_pos() as int]),
    {
        self.view.current_row()
    }

    /// All rows, top to bottom.
    pub fn rows(&self) -> (r: &[Row])
        ensures
            r@ == self.state().row_seq(),
    {
        self.view.rows()
    }

    /// Index of the row under the cursor.
    pub fn cursor(&self) -> (r: usize)
        ensures
            r == self.state().cursor_pos(),
    {
        self.view.cursor()
    }

    /// Whether spark bars are shown.
    pub fn show_spark(&self) -> (r: bool)
        ensures
            r == self.state().sparks_shown(),
    {
        self.view.show_spark()
    }

    /// The tree the view shows.
    pub fn tree_ref(&self) -> (r: &'a FlameTree)
        ensures
            *r == self.state().tree(),
    {
        self.view.tree_ref()
    }

    /// The text of the function column for `row`.
    pub fn row_label(&self, row: &Row) -> (r: String)
        requires
            self.inv(),
            (row.node_id as int) < self.state().tree().len(),
        ensures
            r@ == row_label_spec(self.state().tree(), *row),
    {
        self.view.row_label(row)
    }
}

} // verus!
