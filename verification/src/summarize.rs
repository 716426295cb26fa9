//! The summary of a flame tree: its frames in depth-first order, the
//! children of every frame visited heaviest first.
use vstd::prelude::*;

use crate::arena::{parents_wf, sat, FlameTree, NodeId, opt_index};
use crate::subtree::lemma_children_shape;
use crate::coverage::decides;

verus! {

broadcast use vstd::seq_lib::to_multiset_insert, vstd::seq_lib::to_multiset_build, vstd::seq_lib::to_multiset_contains;

/// Node ids read as mathematical indices.
pub open spec fn as_ints(v: Seq<NodeId>) -> Seq<int> {
    v.map_values(|x: NodeId| x as int)
}

/// The first position in `s` whose node has a smaller total than node `x`
/// (the end of `s` if there is none).
pub open spec fn insertion_point(totals: Seq<u64>, x: int, s: Seq<int>) -> int
    decreases s.len(),
{
    if s.len() == 0 || totals[s[0]] < totals[x] {
        0
    } else {
        1 + insertion_point(totals, x, s.drop_first())
    }
}

/// `cs` ordered by decreasing total; nodes with equal totals keep their
/// order in `cs` (a stable sort).
pub open spec fn sort_by_total(totals: Seq<u64>, cs: Seq<int>) -> Seq<int>
    decreases cs.len(),
{
    if cs.len() == 0 {
        Seq::empty()
    } else {
        let s = sort_by_total(totals, cs.drop_last());
        s.insert(insertion_point(totals, cs.last(), s), cs.last())
    }
}

/// The children of node `id`, heaviest first.
pub open spec fn ordered_children(t: FlameTree, id: int) -> Seq<int> {
    sort_by_total(t.totals(), t.children(id))
}

pub proof fn lemma_insertion_point(totals: Seq<u64>, x: int, s: Seq<int>)
    ensures
        0 <= insertion_point(totals, x, s) <= s.len(),
        forall|j: int|
            0 <= j < insertion_point(totals, x, s) ==> totals[#[trigger] s[j]] >= totals[x],
        insertion_point(totals, x, s) < s.len() ==> totals[s[insertion_point(totals, x, s)]]
            < totals[x],
    decreases s.len(),
{
    if s.len() > 0 && totals[s[0]] >= totals[x] {
        lemma_insertion_point(totals, x, s.drop_first());
        assert forall|j: int| 0 <= j < insertion_point(totals, x, s) implies totals[#[trigger] s[j]]
            >= totals[x] by {
            if j > 0 {
                assert(s[j] == s.drop_first()[j - 1]);
            }
        }
    }
}

/// Sorting keeps the nodes, and orders them by decreasing total.
pub proof fn lemma_sort_by_total(totals: Seq<u64>, cs: Seq<int>)
    ensures
        sort_by_total(totals, cs).to_multiset() == cs.to_multiset(),
        sort_by_total(totals, cs).len() == cs.len(),
        forall|i: int, j: int|
            0 <= i < j < cs.len() ==> totals[sort_by_total(totals, cs)[i]] >= totals[sort_by_total(
                totals,
                cs,
            )[j]],
    decreases cs.len(),
{
    if cs.len() > 0 {
        let s = sort_by_total(totals, cs.drop_last());
        let x = cs.last();
        let k = insertion_point(totals, x, s);
        lemma_sort_by_total(totals, cs.drop_last());
        lemma_insertion_point(totals, x, s);
        assert(cs.drop_last().push(x) =~= cs);
        assert(cs.drop_last().push(x).to_multiset() == cs.drop_last().to_multiset().insert(x));
        let r = s.insert(k, x);
        assert(r.to_multiset() == s.to_multiset().insert(x));
        assert forall|i: int, j: int| 0 <= i < j < cs.len() implies totals[r[i]] >= totals[r[j]] by {
            if j < k {
            } else if j == k {
            } else if i < k {
                assert(r[j] == s[j - 1]);
                if k < s.len() {
                    assert(totals[s[k]] < totals[x]);
                    if j - 1 > k {
                        assert(totals[s[k]] >= totals[s[j - 1]]);
                    }
                }
            } else if i == k {
                assert(r[j] == s[j - 1]);
                assert(totals[s[k]] >= totals[s[j - 1]]);
            } else {
                assert(r[i] == s[i - 1]);
                assert(r[j] == s[j - 1]);
            }
        }
    } else {
        assert(cs =~= Seq::<int>::empty());
    }
}

/// One row of a summary: a frame and how deep it sits below the root.
#[derive(Clone, Copy, Debug, PartialEq, Eq)]
pub struct SummaryRow {
    pub id: NodeId,
    pub depth: usize,
}

/// Summary rows read as (node, depth) pairs.
pub open spec fn rows_view(v: Seq<SummaryRow>) -> Seq<(int, int)> {
    v.map_values(|r: SummaryRow| (r.id as int, r.depth as int))
}

/// The rows of the subtree of `id` at `depth`, depth first, children
/// heaviest first.
pub open spec fn preorder(t: FlameTree, id: int, depth: int) -> Seq<(int, int)>
    decreases t.len() - id, 1int, 0int,
{
    if 0 <= id < t.len() {
        seq![(id, depth)] + preorder_list(t, id, ordered_children(t, id), depth + 1)
    } else {
        Seq::empty()
    }
}

/// The rows of the subtrees of the children `cs` of `p`, one after another.
pub open spec fn preorder_list(t: FlameTree, p: int, cs: Seq<int>, depth: int) -> Seq<(int, int)>
    decreases t.len() - p, 0int, cs.len(),
{
    if cs.len() == 0 || !(p < cs[0] < t.len()) || p < 0 {
        Seq::empty()
    } else {
        preorder(t, cs[0], depth) + preorder_list(t, p, cs.drop_first(), depth)
    }
}

/// All rows below the root, depth first from depth 1.
pub open spec fn summary_order(t: FlameTree) -> Seq<(int, int)> {
    preorder_list(t, 0, ordered_children(t, 0), 1)
}

/// How many rows of `order` a summary takes when `k` rows, worth `running`
/// own samples, are taken: one more, then it stops once `max_lines` rows
/// are taken or their own samples are `covered` (of the root's `total`).
pub open spec fn summary_len(
    t: FlameTree,
    order: Seq<(int, int)>,
    max_lines: int,
    covered: spec_fn(u64, u64) -> bool,
    k: int,
    running: u64,
) -> int
    decreases order.len() - k,
{
    if k < 0 || k >= order.len() {
        k
    } else {
        let next = sat(running + t.nodes()[order[k].0].self_count);
        if k + 1 >= max_lines || covered(next, t.nodes()[0].total_count) {
            k + 1
        } else {
            summary_len(t, order, max_lines, covered, k + 1, next)
        }
    }
}

/// The rows a summary of `t` shows: none when the tree has no samples, no
/// row is allowed or nothing is needed to be covered; else the rows in
/// summary order up to the one at which `max_lines` rows are shown or the
/// own samples of the rows shown are covered.
pub open spec fn summary_rows_spec(t: FlameTree, max_lines: int, covered: spec_fn(u64, u64) -> bool) -> Seq<
    (int, int),
> {
    let total = t.nodes()[0].total_count;
    if total == 0 || max_lines <= 0 || covered(0, total) {
        Seq::empty()
    } else {
        summary_order(t).take(summary_len(t, summary_order(t), max_lines, covered, 0, 0))
    }
}

/// The number of rows taken lies between where counting started and both
/// the length of the order and `max_lines`.
pub proof fn lemma_summary_len_range(
    t: FlameTree,
    order: Seq<(int, int)>,
    max_lines: int,
    covered: spec_fn(u64, u64) -> bool,
    k: int,
    running: u64,
)
    requires
        0 <= k <= order.len(),
        k < max_lines,
    ensures
        k <= summary_len(t, order, max_lines, covered, k, running) <= order.len(),
        summary_len(t, order, max_lines, covered, k, running) <= max_lines,
    decreases order.len() - k,
{
    if k < order.len() {
        let next = sat(running + t.nodes()[order[k].0].self_count);
        if !(k + 1 >= max_lines || covered(next, t.nodes()[0].total_count)) {
            lemma_summary_len_range(t, order, max_lines, covered, k + 1, next);
        }
    }
}

/// The children of a frame, heaviest first, are its children, each once.
pub proof fn lemma_ordered_children_distinct(t: FlameTree, id: int)
    requires
        t.wf(),
        0 <= id < t.len(),
    ensures
        ordered_children(t, id).no_duplicates(),
        forall|k: int|
            #![trigger ordered_children(t, id)[k]]
            0 <= k < ordered_children(t, id).len() ==> {
                &&& t.parents()[ordered_children(t, id)[k]] as int == id
                &&& id < ordered_children(t, id)[k] < t.len()
            },
{
    t.lemma_wf_parents();
    let cs = t.children(id);
    let os = ordered_children(t, id);
    lemma_children_shape(t.parents(), id, t.len() as int);
    lemma_sort_by_total(t.totals(), cs);
    assert(cs.no_duplicates()) by {
        assert forall|i: int, j: int| 0 <= i < cs.len() && 0 <= j < cs.len() && i != j implies cs[i]
            != cs[j] by {
            if i < j {
                assert(cs[i] > cs[j]);
            } else {
                assert(cs[j] > cs[i]);
            }
        }
    }
    cs.lemma_multiset_has_no_duplicates();
    assert forall|x: int| os.to_multiset().contains(x) implies os.to_multiset().count(x) == 1 by {
        assert(cs.to_multiset().contains(x));
    }
    os.lemma_multiset_has_no_duplicates_conv();
    assert forall|k: int| #![trigger os[k]] 0 <= k < os.len() implies {
        &&& t.parents()[os[k]] as int == id
        &&& id < os[k] < t.len()
    } by {
        let v = os[k];
        assert(os.to_multiset().count(v) > 0);
        assert(cs.to_multiset().count(v) > 0);
        let k2 = choose|k2: int| 0 <= k2 < cs.len() && cs[k2] == v;
        assert(1 <= cs[k2] < t.len());
        assert(parents_wf(t.parents()));
        assert(t.parents()[cs[k2]] < cs[k2]);
    }
}

impl FlameTree {
    /// The ids of the children of `id`, in sibling-list order.
    pub fn child_ids(&self, id: NodeId) -> (r: Vec<NodeId>)
        requires
            self.wf(),
            (id as int) < self.len(),
        ensures
            as_ints(r@) == self.children(id as int),
    {
        proof {
            self.lemma_sibling_links(id as int);
        }
        let ghost cs = self.children(id as int);
        let mut out: Vec<NodeId> = Vec::new();
        let mut child = self[id].first_child;
        while child.is_some()
            invariant
                self.wf(),
                cs == self.children(id as int),
                out@.len() <= cs.len(),
                as_ints(out@) == cs.take(out@.len() as int),
                opt_index(child) == if out@.len() < cs.len() {
                    Some(cs[out@.len() as int])
                } else {
                    None
                },
                forall|k: int|
                    0 <= k < cs.len() ==> {
                        &&& 0 < #[trigger] cs[k] < self.len()
                        &&& opt_index(self.nodes()[cs[k]].next_sibling) == if k + 1 < cs.len() {
                            Some(cs[k + 1])
                        } else {
                            None
                        }
                    },
            decreases cs.len() - out@.len(),
        {
            let c = child.unwrap();
            let ghost k = out@.len() as int;
            out.push(c);
            child = self[c].next_sibling;
            proof {
                assert(as_ints(out@) =~= cs.take(k + 1));
            }
        }
        proof {
            assert(cs.take(cs.len() as int) =~= cs);
        }
        out
    }
}

/// The summary visits the children of every frame heaviest first, and
/// visits exactly the frame's children.
pub proof fn lemma_ordered_children_sorted(t: FlameTree, id: int)
    ensures
        ordered_children(t, id).to_multiset() == t.children(id).to_multiset(),
        forall|i: int, j: int|
            0 <= i < j < ordered_children(t, id).len() ==> t.totals()[ordered_children(t, id)[i]]
                >= t.totals()[ordered_children(t, id)[j]],
{
    lemma_sort_by_total(t.totals(), t.children(id));
}

/// A summary shows at most `max_lines` rows, and they are the first rows of
/// the summary order, whatever the coverage test.
pub proof fn lemma_summary_rows_prefix(t: FlameTree, max_lines: int, covered: spec_fn(u64, u64) -> bool)
    ensures
        summary_rows_spec(t, max_lines, covered).len() <= if max_lines < 0 { 0 } else { max_lines },
        summary_rows_spec(t, max_lines, covered).is_prefix_of(summary_order(t)),
{
    let r = summary_rows_spec(t, max_lines, covered);
    let total = t.nodes()[0].total_count;
    if !(total == 0 || max_lines <= 0 || covered(0, total)) {
        lemma_summary_len_range(t, summary_order(t), max_lines, covered, 0, 0);
    }
    assert(r =~= summary_order(t).take(r.len() as int));
}

/// Stack entries (node, depth) read as mathematical pairs.
pub open spec fn pairs_view(v: Seq<(NodeId, usize)>) -> Seq<(int, int)> {
    v.map_values(|e: (NodeId, usize)| (e.0 as int, e.1 as int))
}

/// The rows still to come from a depth-first stack whose top is its last
/// entry.
pub open spec fn stack_rows(t: FlameTree, st: Seq<(int, int)>) -> Seq<(int, int)>
    decreases st.len(),
{
    if st.len() == 0 {
        Seq::empty()
    } else {
        preorder(t, st.last().0, st.last().1) + stack_rows(t, st.drop_last())
    }
}

/// Every entry names a node of `t` and sits no deeper than its own index.
pub open spec fn stack_ok(t: FlameTree, st: Seq<(int, int)>) -> bool {
    forall|i: int| #![trigger st[i]] 0 <= i < st.len() ==> 1 <= st[i].1 <= st[i].0 < t.len()
}

/// The ordered children of `id` are nodes after `id`.
pub proof fn lemma_ordered_children_range(t: FlameTree, id: int)
    requires
        t.wf(),
        0 <= id < t.len(),
    ensures
        forall|k: int|
            #![trigger ordered_children(t, id)[k]]
            0 <= k < ordered_children(t, id).len() ==> id < ordered_children(t, id)[k] < t.len(),
{
    t.lemma_sibling_links(id);
    t.lemma_wf_parents();
    let cs = t.children(id);
    let os = ordered_children(t, id);
    lemma_sort_by_total(t.totals(), cs);
    assert forall|k: int| #![trigger os[k]] 0 <= k < os.len() implies id < os[k] < t.len() by {
        let v = os[k];
        assert(os.contains(v));
        vstd::seq_lib::to_multiset_contains(os, v);
        vstd::seq_lib::to_multiset_contains(cs, v);
        let k2 = choose|k2: int| 0 <= k2 < cs.len() && cs[k2] == v;
        assert(0 < cs[k2] < t.len());
        assert(t.parents()[cs[k2]] as int == id);
    }
}

impl FlameTree {
    /// Push the children `cs` of `p`, last first, so that the first child
    /// ends on top of the stack.
    fn push_children(&self, stack: &mut Vec<(NodeId, usize)>, p: NodeId, cs: &Vec<NodeId>, depth: usize)
        requires
            self.wf(),
            (p as int) < self.len(),
            as_ints(cs@) == ordered_children(*self, p as int),
            1 <= depth <= p + 1,
            stack_ok(*self, pairs_view(old(stack)@)),
        ensures
            stack_ok(*self, pairs_view(final(stack)@)),
            stack_rows(*self, pairs_view(final(stack)@)) == preorder_list(
                *self,
                p as int,
                ordered_children(*self, p as int),
                depth as int,
            ) + stack_rows(*self, pairs_view(old(stack)@)),
    {
        let ghost os = ordered_children(*self, p as int);
        let ghost base = stack_rows(*self, pairs_view(stack@));
        proof {
            lemma_ordered_children_range(*self, p as int);
            assert(os.skip(os.len() as int) =~= Seq::<int>::empty());
        }
        let mut k = cs.len();
        while k > 0
            invariant
                self.wf(),
                (p as int) < self.len(),
                as_ints(cs@) == os,
                os == ordered_children(*self, p as int),
                forall|j: int| #![trigger os[j]] 0 <= j < os.len() ==> p < os[j] < self.len(),
                1 <= depth <= p + 1,
                k <= cs@.len(),
                stack_ok(*self, pairs_view(stack@)),
                stack_rows(*self, pairs_view(stack@)) == preorder_list(
                    *self,
                    p as int,
                    os.skip(k as int),
                    depth as int,
                ) + base,
            decreases k,
        {
            k = k - 1;
            let c = cs[k];
            let ghost before = stack@;
            proof {
                assert(os[k as int] == c as int);
            }
            stack.push((c, depth));
            proof {
                assert(pairs_view(stack@).drop_last() =~= pairs_view(before));
                assert(os.skip(k as int).drop_first() =~= os.skip(k + 1));
                assert(os.skip(k as int)[0] == c as int);
                assert forall|i: int| #![trigger pairs_view(stack@)[i]]
                    0 <= i < pairs_view(stack@).len() implies 1 <= pairs_view(stack@)[i].1
                    <= pairs_view(stack@)[i].0 < self.len() by {
                    if i < before.len() {
                        assert(pairs_view(stack@)[i] == pairs_view(before)[i]);
                    }
                }
            }
        }
        proof {
            assert(os.skip(0) =~= os);
        }
    }

    /// The rows of a summary below the root: the frames depth first, the
    /// children of every frame heaviest first (equal totals in sibling-list
    /// order), each with its depth; it stops after `max_lines` rows, or once
    /// `covered(own samples of the rows so far, root total)` holds.
    pub fn summary_rows<F: Fn(u64, u64) -> bool>(&self, max_lines: usize, covered: &F) -> (r: Vec<SummaryRow>)
        requires
            self.wf(),
            forall|a: u64, b: u64| covered.requires((a, b)),
        ensures
            forall|p: spec_fn(u64, u64) -> bool|
                #[trigger] decides(*covered, p) ==> rows_view(r@) == summary_rows_spec(*self, max_lines as int, p),
    {
        let mut out: Vec<SummaryRow> = Vec::new();
        proof {
            self.lemma_wf_parents();
        }
        let total = self[0].total_count;
        if total == 0 || max_lines == 0 {
            return out;
        }
        if covered(0, total) {
            return out;
        }
        let ghost full = summary_order(*self);
        let mut stack: Vec<(NodeId, usize)> = Vec::new();
        let cs = self.ordered_child_ids(0);
        proof {
            assert(stack_rows(*self, pairs_view(stack@)) =~= Seq::<(int, int)>::empty());
            assert(stack_ok(*self, pairs_view(stack@)));
        }
        self.push_children(&mut stack, 0, &cs, 1);
        proof {
            assert(rows_view(out@) + stack_rows(*self, pairs_view(stack@)) =~= full);
        }
        let mut running: u64 = 0;
        loop
            invariant_except_break
                self.wf(),
                full == summary_order(*self),
                total == self.nodes()[0].total_count,
                forall|a: u64, b: u64| covered.requires((a, b)),
                rows_view(out@) + stack_rows(*self, pairs_view(stack@)) == full,
                out@.len() < max_lines,
                stack_ok(*self, pairs_view(stack@)),
                forall|p: spec_fn(u64, u64) -> bool|
                    #[trigger] decides(*covered, p) ==> summary_len(*self, full, max_lines as int, p, 0, 0)
                        == summary_len(*self, full, max_lines as int, p, out@.len() as int, running),
            ensures
                forall|p: spec_fn(u64, u64) -> bool|
                    #[trigger] decides(*covered, p) ==> rows_view(out@) == full.take(
                        summary_len(*self, full, max_lines as int, p, 0, 0),
                    ),
            decreases full.len() - out@.len(),
        {
            let ghost before = stack@;
            match stack.pop() {
                None => {
                    proof {
                        assert(pairs_view(before) =~= Seq::<(int, int)>::empty());
                        assert(rows_view(out@) =~= full);
                        assert(full.take(full.len() as int) =~= full);
                    }
                    break;
                },
                Some(entry) => {
                    let (id, depth) = entry;
                    let ghost rest = stack@;
                    let ghost k = out@.len() as int;
                    proof {
                        let top = pairs_view(before).len() - 1;
                        assert(pairs_view(before)[top] == (id as int, depth as int));
                        assert(pairs_view(before).drop_last() =~= pairs_view(rest));
                        assert forall|i: int| #![trigger pairs_view(rest)[i]]
                            0 <= i < pairs_view(rest).len() implies 1 <= pairs_view(rest)[i].1
                            <= pairs_view(rest)[i].0 < self.len() by {
                            assert(pairs_view(rest)[i] == pairs_view(before)[i]);
                        }
                    }
                    let ghost old_out = rows_view(out@);
                    out.push(SummaryRow { id, depth });
                    let ghost tail_rows = preorder_list(*self, id as int, ordered_children(*self, id as int), depth + 1);
                    proof {
                        assert(rows_view(out@) =~= old_out.push((id as int, depth as int)));
                        assert(rows_view(out@) + tail_rows + stack_rows(*self, pairs_view(rest)) =~= full);
                        assert(full[k] == (id as int, depth as int)) by {
                            assert(full == old_out + (seq![(id as int, depth as int)] + tail_rows
                                + stack_rows(*self, pairs_view(rest))));
                        }
                    }
                    let ghost prev_running = running;
                    running = running.saturating_add(self[id].self_count);
                    proof {
                        assert(running == sat(prev_running + self.nodes()[id as int].self_count));
                        assert forall|p: spec_fn(u64, u64) -> bool| #[trigger] decides(*covered, p) implies {
                            summary_len(*self, full, max_lines as int, p, k, prev_running) == if k + 1
                                >= max_lines || p(running, total) {
                                k + 1
                            } else {
                                summary_len(*self, full, max_lines as int, p, k + 1, running)
                            }
                        } by {
                            assert(full[k].0 == id as int);
                        }
                    }
                    if out.len() >= max_lines {
                        proof {
                            assert(full.take(k + 1) =~= rows_view(out@));
                        }
                        break;
                    }
                    let done = covered(running, total);
                    if done {
                        proof {
                            assert(full.take(k + 1) =~= rows_view(out@));
                        }
                        break;
                    }
                    let cs = self.ordered_child_ids(id);
                    proof {
                        self.lemma_wf_parents();
                        lemma_ordered_children_range(*self, id as int);
                    }
                    if cs.len() > 0 {
                        proof {
                            assert(as_ints(cs@)[0] == cs@[0] as int);
                            assert(depth + 1 <= u32::MAX);
                        }
                        self.push_children(&mut stack, id, &cs, depth + 1);
                    } else {
                        proof {
                            assert(ordered_children(*self, id as int) =~= Seq::<int>::empty());
                        }
                    }
                    proof {
                        assert(rows_view(out@) + stack_rows(*self, pairs_view(stack@)) =~= full);
                    }
                },
            }
        }
        out
    }

    /// The ids of the children of `id`, heaviest first.
    pub fn ordered_child_ids(&self, id: NodeId) -> (r: Vec<NodeId>)
        requires
            self.wf(),
            (id as int) < self.len(),
        ensures
            as_ints(r@) == ordered_children(*self, id as int),
    {
        let cs = self.child_ids(id);
        let ghost totals = self.totals();
        let mut out: Vec<NodeId> = Vec::new();
        let mut i: usize = 0;
        proof {
            self.lemma_sibling_links(id as int);
            assert forall|k: int| 0 <= k < cs@.len() implies (#[trigger] cs@[k] as int) < self.len() by {
                assert(as_ints(cs@)[k] == cs@[k] as int);
            }
        }
        while i < cs.len()
            invariant
                self.wf(),
                totals == self.totals(),
                i <= cs@.len(),
                as_ints(cs@) == self.children(id as int),
                forall|k: int| #![trigger cs@[k]] 0 <= k < cs@.len() ==> (cs@[k] as int) < self.len(),
                as_ints(out@) == sort_by_total(totals, as_ints(cs@).take(i as int)),
                out@.len() == i,
                forall|j: int| #![trigger out@[j]] 0 <= j < out@.len() ==> (out@[j] as int) < self.len(),
            decreases cs@.len() - i,
        {
            let x = cs[i];
            let tx = self[x].total_count;
            let ghost s = as_ints(out@);
            proof {
                assert(as_ints(cs@)[i as int] == x as int);
                lemma_sort_by_total(totals, as_ints(cs@).take(i as int));
            }
            let mut k: usize = 0;
            assert(s.skip(0) =~= s);
            while k < out.len()
                invariant_except_break
                    self.wf(),
                    totals == self.totals(),
                    (x as int) < self.len(),
                    tx == totals[x as int],
                    s == as_ints(out@),
                    k <= out@.len(),
                    forall|j: int| #![trigger out@[j]] 0 <= j < out@.len() ==> (out@[j] as int) < self.len(),
                    insertion_point(totals, x as int, s) == k + insertion_point(
                        totals,
                        x as int,
                        s.skip(k as int),
                    ),
                ensures
                    k <= out@.len(),
                    s == as_ints(out@),
                    insertion_point(totals, x as int, s) == k + insertion_point(
                        totals,
                        x as int,
                        s.skip(k as int),
                    ),
                    k < out@.len() ==> totals[s[k as int]] < tx,
                decreases out@.len() - k,
            {
                let y = out[k];
                assert(s[k as int] == y as int);
                if self[y].total_count < tx {
                    break;
                }
                proof {
                    assert(s.skip(k as int).drop_first() =~= s.skip(k + 1));
                    assert(s.skip(k as int)[0] == s[k as int]);
                }
                k = k + 1;
            }
            proof {
                if k < out@.len() {
                    assert(s.skip(k as int)[0] == s[k as int]);
                }
                assert(as_ints(cs@).take(i + 1).drop_last() =~= as_ints(cs@).take(i as int));
                assert(as_ints(cs@).take(i + 1).last() == x as int);
            }
            out.insert(k, x);
            proof {
                assert(as_ints(out@) =~= s.insert(k as int, x as int));
            }
            i = i + 1;
        }
        proof {
            assert(as_ints(cs@).take(i as int) =~= as_ints(cs@));
        }
        out
    }
}

} // verus!
