//! The flame tree: an arena of call-stack frames, each with its own sample
//! count and the inclusive count of its whole subtree.
use vstd::prelude::*;

verus! {

/// Index of a node in a [`FlameTree`].
pub type NodeId = u32;

/// One frame of the call tree.
#[derive(Debug)]
pub struct Node {
    pub name: String,
    /// Samples whose stack ends exactly at this frame.
    pub self_count: u64,
    /// Samples of this frame and everything below it (saturating at `u64::MAX`).
    pub total_count: u64,
    /// The most recently added child.
    pub first_child: Option<NodeId>,
    /// The child of the same parent added just before this one.
    pub next_sibling: Option<NodeId>,
}

/// A call tree stored in an arena, with an implicit root node at index 0.
pub struct FlameTree {
    arena: Vec<Node>,
    parents: Vec<NodeId>,
}

/// `u64` addition that sticks at `u64::MAX`, on mathematical integers.
pub open spec fn sat(x: int) -> u64 {
    if x > u64::MAX {
        u64::MAX
    } else if x < 0 {
        0
    } else {
        x as u64
    }
}

/// An optional node id read as an optional mathematical index.
pub open spec fn opt_index(o: Option<NodeId>) -> Option<int> {
    match o {
        Some(id) => Some(id as int),
        None => None,
    }
}

/// `a` is `j` itself or one of `j`'s ancestors along the parent links.
pub open spec fn is_ancestor(parents: Seq<NodeId>, a: int, j: int) -> bool
    decreases j,
{
    if 0 <= j < parents.len() {
        if a == j {
            true
        } else if 0 < j && (parents[j] as int) < j {
            is_ancestor(parents, a, parents[j] as int)
        } else {
            false
        }
    } else {
        false
    }
}

/// Sum of `counts[j]` over the nodes `j < m` that lie in the subtree of `a`.
pub open spec fn subtree_sum(parents: Seq<NodeId>, counts: Seq<u64>, a: int, m: int) -> int
    decreases m,
{
    if m <= 0 {
        0
    } else {
        subtree_sum(parents, counts, a, m - 1) + if is_ancestor(parents, a, m - 1) {
            counts[m - 1] as int
        } else {
            0
        }
    }
}

/// The largest non-root node below index `m` whose parent is `p`.
pub open spec fn last_child_below(parents: Seq<NodeId>, p: int, m: int) -> Option<int>
    decreases m,
{
    if m <= 1 {
        None
    } else if parents[m - 1] as int == p {
        Some(m - 1)
    } else {
        last_child_below(parents, p, m - 1)
    }
}

/// The children of `p` among the nodes below index `m`, youngest first:
/// the order in which the sibling links list them.
pub open spec fn children_below(parents: Seq<NodeId>, p: int, m: int) -> Seq<int>
    decreases m,
{
    if m <= 1 {
        Seq::empty()
    } else if parents[m - 1] as int == p {
        seq![m - 1] + children_below(parents, p, m - 1)
    } else {
        children_below(parents, p, m - 1)
    }
}

/// The first node of `cs` whose name is `name`.
pub open spec fn first_named(names: Seq<Seq<char>>, cs: Seq<int>, name: Seq<char>) -> Option<int>
    decreases cs.len(),
{
    if cs.len() == 0 {
        None
    } else if names[cs[0]] == name {
        Some(cs[0])
    } else {
        first_named(names, cs.drop_first(), name)
    }
}

/// The sum of all counts.
pub open spec fn sum_counts(c: Seq<u64>) -> int
    decreases c.len(),
{
    if c.len() == 0 {
        0
    } else {
        sum_counts(c.drop_last()) + c.last()
    }
}

pub proof fn lemma_sum_counts_nonneg(c: Seq<u64>)
    ensures
        sum_counts(c) >= 0,
    decreases c.len(),
{
    if c.len() > 0 {
        lemma_sum_counts_nonneg(c.drop_last());
    }
}

pub proof fn lemma_sum_counts_update(c: Seq<u64>, k: int, v: u64)
    requires
        0 <= k < c.len(),
    ensures
        sum_counts(c.update(k, v)) == sum_counts(c) - c[k] + v,
    decreases c.len(),
{
    if k < c.len() - 1 {
        assert(c.update(k, v).drop_last() =~= c.drop_last().update(k, v));
        lemma_sum_counts_update(c.drop_last(), k, v);
    } else {
        assert(c.update(k, v).drop_last() =~= c.drop_last());
    }
}

/// The subtree of the root holds every node.
pub proof fn lemma_root_subtree_sum(parents: Seq<NodeId>, counts: Seq<u64>, m: int)
    requires
        parents_wf(parents),
        0 <= m <= parents.len(),
        m <= counts.len(),
    ensures
        subtree_sum(parents, counts, 0, m) == sum_counts(counts.take(m)),
    decreases m,
{
    if m > 0 {
        lemma_root_subtree_sum(parents, counts, m - 1);
        lemma_root_is_ancestor(parents, m - 1);
        assert(counts.take(m).drop_last() =~= counts.take(m - 1));
    }
}

/// What well-formedness leaves free in a tree: the names, the parent links
/// and the own (self) counts; everything else is derived from these.
pub struct Shape {
    pub names: Seq<Seq<char>>,
    pub parents: Seq<NodeId>,
    pub counts: Seq<u64>,
}

/// The child of `p` named `name` that a lookup finds.
pub open spec fn shape_child(s: Shape, p: int, name: Seq<char>) -> Option<int> {
    first_named(s.names, children_below(s.parents, p, s.names.len() as int), name)
}

/// The shape after looking up child `name` of `p`, adding it when it is
/// missing, with the id found or added.
pub open spec fn shape_get_or_insert(s: Shape, p: int, name: Seq<char>) -> (Shape, int) {
    match shape_child(s, p, name) {
        Some(j) => (s, j),
        None => (
            Shape {
                names: s.names.push(name),
                parents: s.parents.push(p as NodeId),
                counts: s.counts.push(0),
            },
            s.names.len() as int,
        ),
    }
}

/// The shape after following (and creating where missing) the path of
/// child names `frames` from `p`, with the node reached.
pub open spec fn shape_insert_path(s: Shape, p: int, frames: Seq<Seq<char>>) -> (Shape, int)
    decreases frames.len(),
{
    if frames.len() == 0 {
        (s, p)
    } else {
        let (s1, c) = shape_get_or_insert(s, p, frames[0]);
        shape_insert_path(s1, c, frames.drop_first())
    }
}

/// The shape after adding `delta` samples (saturating) to node `k`'s own count.
pub open spec fn shape_add(s: Shape, k: int, delta: u64) -> Shape {
    Shape { counts: s.counts.update(k, sat(s.counts[k] + delta)), ..s }
}

/// The shape after recording `count` samples of the stack `frames` (outermost
/// frame first) under the root.
pub open spec fn shape_record(s: Shape, frames: Seq<Seq<char>>, count: u64) -> Shape {
    let (s1, leaf) = shape_insert_path(s, 0, frames);
    shape_add(s1, leaf, count)
}

/// Parent links that form a tree rooted at node 0, with every parent
/// added before its children.
pub open spec fn parents_wf(parents: Seq<NodeId>) -> bool {
    &&& parents.len() >= 1
    &&& parents[0] == 0
    &&& forall|j: int| 0 < j < parents.len() ==> (#[trigger] parents[j] as int) < j
}

impl Default for FlameTree {
    fn default() -> (t: Self)
        ensures
            t.wf(),
            t.len() == 1,
            t.nodes()[0].name@ == "root"@,
            t.nodes()[0].self_count == 0,
            t.nodes()[0].total_count == 0,
    {
        Self::new()
    }
}

impl std::ops::Index<NodeId> for FlameTree {
    type Output = Node;

    fn index(&self, index: NodeId) -> (r: &Node)
        ensures
            *r == self.nodes()[index as int],
    {
        &self.arena[index as usize]
    }
}

impl vstd::std_specs::core::IndexSpecImpl<NodeId> for FlameTree {
    open spec fn index_req(&self, index: &NodeId) -> bool {
        (*index as int) < self.len()
    }
}

/// Looking a child up, adding it when missing, is idempotent: a second
/// lookup finds the same node and changes nothing.
pub proof fn lemma_get_or_insert_idempotent(s: Shape, p: int, name: Seq<char>)
    requires
        s.names.len() == s.parents.len(),
        s.names.len() <= u32::MAX + 1,
        0 <= p < s.names.len(),
    ensures
        ({
            let (s1, id) = shape_get_or_insert(s, p, name);
            shape_get_or_insert(s1, p, name) == (s1, id)
        }),
{
    let (s1, id) = shape_get_or_insert(s, p, name);
    if shape_child(s, p, name) is None {
        let n = s.names.len() as int;
        assert(s1.parents[n] as int == p);
        assert(children_below(s1.parents, p, n + 1)[0] == n);
        assert(s1.names[n] == name);
    }
}

pub proof fn lemma_ancestor_push(parents: Seq<NodeId>, x: NodeId, a: int, j: int)
    requires
        0 <= j < parents.len(),
    ensures
        is_ancestor(parents.push(x), a, j) == is_ancestor(parents, a, j),
    decreases j,
{
    let p2 = parents.push(x);
    assert(p2[j] == parents[j]);
    if a != j && 0 < j && (parents[j] as int) < j {
        lemma_ancestor_push(parents, x, a, parents[j] as int);
    }
}

/// An ancestor's parent is an ancestor too.
pub proof fn lemma_ancestor_step(parents: Seq<NodeId>, a: int, j: int)
    requires
        parents_wf(parents),
        is_ancestor(parents, a, j),
        0 < a,
    ensures
        is_ancestor(parents, parents[a] as int, j),
    decreases j,
{
    if a != j {
        lemma_ancestor_step(parents, a, parents[j] as int);
    } else {
        assert(is_ancestor(parents, parents[a] as int, parents[a] as int));
    }
}

pub proof fn lemma_ancestor_bounds(parents: Seq<NodeId>, a: int, j: int)
    requires
        is_ancestor(parents, a, j),
    ensures
        0 <= a <= j < parents.len(),
    decreases j,
{
    if a != j {
        lemma_ancestor_bounds(parents, a, parents[j] as int);
    }
}

pub proof fn lemma_root_is_ancestor(parents: Seq<NodeId>, j: int)
    requires
        parents_wf(parents),
        0 <= j < parents.len(),
    ensures
        is_ancestor(parents, 0, j),
    decreases j,
{
    if j != 0 {
        lemma_root_is_ancestor(parents, parents[j] as int);
    }
}

pub proof fn lemma_subtree_sum_push(
    parents: Seq<NodeId>,
    counts: Seq<u64>,
    x: NodeId,
    c: u64,
    a: int,
    m: int,
)
    requires
        0 <= m <= parents.len(),
        counts.len() == parents.len(),
    ensures
        subtree_sum(parents.push(x), counts.push(c), a, m) == subtree_sum(parents, counts, a, m),
    decreases m,
{
    if m > 0 {
        lemma_subtree_sum_push(parents, counts, x, c, a, m - 1);
        lemma_ancestor_push(parents, x, a, m - 1);
        assert(counts.push(c)[m - 1] == counts[m - 1]);
    }
}

/// Changing one count changes every sum that covers it by the difference.
pub proof fn lemma_subtree_sum_update(
    parents: Seq<NodeId>,
    counts: Seq<u64>,
    k: int,
    c: u64,
    a: int,
    m: int,
)
    requires
        0 <= k < counts.len(),
        0 <= m <= counts.len(),
    ensures
        subtree_sum(parents, counts.update(k, c), a, m) == subtree_sum(parents, counts, a, m) + if k
            < m && is_ancestor(parents, a, k) {
            c - counts[k]
        } else {
            0
        },
    decreases m,
{
    if m > 0 {
        lemma_subtree_sum_update(parents, counts, k, c, a, m - 1);
    }
}

pub proof fn lemma_subtree_sum_nonneg(parents: Seq<NodeId>, counts: Seq<u64>, a: int, m: int)
    ensures
        subtree_sum(parents, counts, a, m) >= 0,
    decreases m,
{
    if m > 0 {
        lemma_subtree_sum_nonneg(parents, counts, a, m - 1);
    }
}

/// Nodes below `a` contribute nothing to the subtree of `a`.
pub proof fn lemma_subtree_sum_below(parents: Seq<NodeId>, counts: Seq<u64>, a: int, m: int)
    requires
        m <= a,
    ensures
        subtree_sum(parents, counts, a, m) == 0,
    decreases m,
{
    if m > 0 {
        lemma_subtree_sum_below(parents, counts, a, m - 1);
        if is_ancestor(parents, a, m - 1) {
            lemma_ancestor_bounds(parents, a, m - 1);
        }
    }
}

pub proof fn lemma_last_child_push(parents: Seq<NodeId>, x: NodeId, p: int, m: int)
    requires
        m <= parents.len(),
    ensures
        last_child_below(parents.push(x), p, m) == last_child_below(parents, p, m),
        children_below(parents.push(x), p, m) == children_below(parents, p, m),
    decreases m,
{
    if m > 1 {
        assert(parents.push(x)[m - 1] == parents[m - 1]);
        lemma_last_child_push(parents, x, p, m - 1);
    }
}

pub proof fn lemma_last_child_facts(parents: Seq<NodeId>, p: int, m: int)
    requires
        m <= parents.len(),
    ensures
        last_child_below(parents, p, m) matches Some(j) ==> 1 <= j < m && parents[j] as int == p,
        last_child_below(parents, p, m) is None ==> forall|j: int|
            1 <= j < m ==> #[trigger] parents[j] as int != p,
        children_below(parents, p, m).len() == 0 <==> last_child_below(parents, p, m) is None,
        children_below(parents, p, m).len() > 0 ==> children_below(parents, p, m)[0]
            == last_child_below(parents, p, m)->0,
    decreases m,
{
    if m > 1 {
        lemma_last_child_facts(parents, p, m - 1);
    }
}


impl FlameTree {
    /// The nodes, indexed by [`NodeId`].
    pub closed spec fn nodes(&self) -> Seq<Node> {
        self.arena@
    }

    /// The parent of every node; the root is its own parent.
    pub closed spec fn parents(&self) -> Seq<NodeId> {
        self.parents@
    }

    /// `tree[id]` in specifications.
    pub open spec fn spec_index(&self, id: NodeId) -> Node {
        self.nodes()[id as int]
    }

    pub open spec fn len(&self) -> nat {
        self.nodes().len()
    }

    pub open spec fn names(&self) -> Seq<Seq<char>> {
        Seq::new(self.len(), |j: int| self.nodes()[j].name@)
    }

    pub open spec fn self_counts(&self) -> Seq<u64> {
        Seq::new(self.len(), |j: int| self.nodes()[j].self_count)
    }

    pub open spec fn totals(&self) -> Seq<u64> {
        Seq::new(self.len(), |j: int| self.nodes()[j].total_count)
    }

    pub open spec fn shape(&self) -> Shape {
        Shape { names: self.names(), parents: self.parents(), counts: self.self_counts() }
    }

    /// The inclusive count of node `i`, before saturation.
    pub open spec fn subtree_total(&self, i: int) -> int {
        subtree_sum(self.parents(), self.self_counts(), i, self.len() as int)
    }

    /// The children of node `i`, in the order the sibling links list them.
    pub open spec fn children(&self, i: int) -> Seq<int> {
        children_below(self.parents(), i, self.len() as int)
    }

    /// Well-formedness: the parent links form a tree rooted at 0, the
    /// sibling links list each node's children youngest first, and every
    /// total is the saturated sum of the self counts in its subtree.
    pub closed spec fn wf(&self) -> bool {
        let n = self.arena@.len();
        &&& 1 <= n <= u32::MAX + 1
        &&& self.parents@.len() == n
        &&& parents_wf(self.parents@)
        &&& forall|i: int|
            0 <= i < n ==> opt_index(#[trigger] self.arena@[i].first_child) == last_child_below(
                self.parents@,
                i,
                n as int,
            )
        &&& forall|i: int|
            0 <= i < n ==> opt_index(#[trigger] self.arena@[i].next_sibling) == if i == 0 {
                None
            } else {
                last_child_below(self.parents@, self.parents@[i] as int, i)
            }
        &&& forall|i: int|
            0 <= i < n ==> (#[trigger] self.arena@[i]).total_count == sat(self.subtree_total(i))
    }

    /// Create a new tree with an implicit root node at index 0.
    pub fn new() -> (t: Self)
        ensures
            t.wf(),
            t.len() == 1,
            t.nodes()[0].name@ == "root"@,
            t.nodes()[0].self_count == 0,
            t.nodes()[0].total_count == 0,
            t.nodes()[0].first_child is None,
            t.nodes()[0].next_sibling is None,
            t.parents() == seq![0u32],
    {
        let root = Node {
            name: String::from_str("root"),
            self_count: 0,
            total_count: 0,
            first_child: None,
            next_sibling: None,
        };
        let t = FlameTree { arena: vec![root], parents: vec![0] };
        assert(t.subtree_total(0) == 0) by {
            reveal_with_fuel(subtree_sum, 2);
        }
        t
    }

    /// Number of nodes, the root included.
    pub fn node_count(&self) -> (r: usize)
        ensures
            r == self.len(),
    {
        self.arena.len()
    }

    /// Return the root node id.
    pub fn root(&self) -> (r: NodeId)
        ensures
            r == 0,
    {
        0
    }

    /// Insert a child node under `parent` with `self_cnt` samples of its own,
    /// and add them to the total of `parent` and of every ancestor of it.
    /// Returns the id of the newly created node.
    pub fn insert_child(&mut self, parent: NodeId, name: &str, self_cnt: u64) -> (id: NodeId)
        requires
            old(self).wf(),
            (parent as int) < old(self).len(),
            old(self).len() <= u32::MAX,
        ensures
            final(self).wf(),
            id as int == old(self).len(),
            final(self).len() == old(self).len() + 1,
            final(self).parents() == old(self).parents().push(parent),
            final(self).names() == old(self).names().push(name@),
            final(self).self_counts() == old(self).self_counts().push(self_cnt),
            final(self).nodes()[id as int].name@ == name@,
            final(self).nodes()[id as int].self_count == self_cnt,
            final(self).nodes()[id as int].total_count == self_cnt,
            final(self).nodes()[id as int].first_child is None,
            final(self).nodes()[id as int].next_sibling == old(self).nodes()[parent as int].first_child,
            final(self).nodes()[parent as int].first_child == Some(id),
            final(self).nodes()[0].total_count == old(self).nodes()[0].total_count.saturating_add(
                self_cnt,
            ),
            forall|i: int|
                0 <= i < old(self).len() ==> {
                    &&& (#[trigger] final(self).nodes()[i]).total_count == if is_ancestor(
                        old(self).parents(),
                        i,
                        parent as int,
                    ) {
                        old(self).nodes()[i].total_count.saturating_add(self_cnt)
                    } else {
                        old(self).nodes()[i].total_count
                    }
                    &&& final(self).nodes()[i].self_count == old(self).nodes()[i].self_count
                    &&& final(self).nodes()[i].name == old(self).nodes()[i].name
                    &&& final(self).nodes()[i].next_sibling == old(self).nodes()[i].next_sibling
                    &&& i != parent ==> final(self).nodes()[i].first_child == old(
                        self,
                    ).nodes()[i].first_child
                },
    {
        let ghost old_parents = self.parents@;
        let ghost old_counts = self.self_counts();
        let ghost old_arena = self.arena@;
        let ghost n = self.arena@.len() as int;
        let id = self.arena.len() as NodeId;
        let node = Node {
            name: name.to_owned(),
            self_count: self_cnt,
            total_count: self_cnt,
            first_child: None,
            next_sibling: self.arena[parent as usize].first_child,
        };
        let ghost new_node = node;
        self.arena[parent as usize].first_child = Some(id);
        self.arena.push(node);
        self.parents.push(parent);
        let ghost new_parents = self.parents@;
        proof {
            assert(new_parents == old_parents.push(parent));
            assert(self.self_counts() =~= old_counts.push(self_cnt));
            assert forall|i: int| 0 <= i < n implies #[trigger] subtree_sum(
                new_parents,
                old_counts.push(self_cnt),
                i,
                n + 1,
            ) == subtree_sum(
                old_parents,
                old_counts,
                i,
                n,
            ) + if is_ancestor(old_parents, i, parent as int) {
                self_cnt as int
            } else {
                0
            } by {
                lemma_subtree_sum_push(old_parents, old_counts, parent, self_cnt, i, n);
                lemma_ancestor_push(old_parents, parent, i, parent as int);
            }
            lemma_subtree_sum_below(new_parents, self.self_counts(), n, n);
        }
        proof {
            assert forall|i: int| 0 <= i < n + 1 implies is_ancestor(new_parents, i, parent as int)
                == (i < n && is_ancestor(old_parents, i, parent as int)) by {
                if i < n {
                    lemma_ancestor_push(old_parents, parent, i, parent as int);
                }
                if is_ancestor(new_parents, i, parent as int) {
                    lemma_ancestor_bounds(new_parents, i, parent as int);
                }
            }
            assert(parents_wf(new_parents));
        }
        let ghost before = self.arena@;
        self.add_to_ancestors(parent, self_cnt);
        proof {
            assert(self.arena@[n] == before[n]);
            lemma_root_is_ancestor(old_parents, parent as int);
        }
        proof {
            assert(self.arena@ =~= self.nodes());
            assert(self.self_counts() =~= old_counts.push(self_cnt));
            assert forall|i: int| 0 <= i < n + 1 implies opt_index(
                #[trigger] self.arena@[i].first_child,
            ) == last_child_below(self.parents@, i, n + 1) by {
                lemma_last_child_push(old_parents, parent, i, n);
                if i == n {
                    lemma_last_child_facts(new_parents, i, n + 1);
                    if last_child_below(new_parents, i, n + 1) is Some {
                        let j = last_child_below(new_parents, i, n + 1)->0;
                        assert(new_parents[j] as int == i);
                    }
                }
            }
            assert forall|i: int| 0 <= i < n + 1 implies opt_index(
                #[trigger] self.arena@[i].next_sibling,
            ) == if i == 0 {
                None
            } else {
                last_child_below(self.parents@, self.parents@[i] as int, i)
            } by {
                if i < n {
                    lemma_last_child_push(old_parents, parent, old_parents[i] as int, i);
                    assert(new_parents[i] == old_parents[i]);
                } else {
                    lemma_last_child_push(old_parents, parent, parent as int, n);
                }
            }
            assert forall|i: int| 0 <= i < n + 1 implies (#[trigger] self.arena@[i]).total_count
                == sat(self.subtree_total(i)) by {
                if i < n {
                    lemma_subtree_sum_nonneg(old_parents, old_counts, i, n);
                } else {
                    lemma_subtree_sum_below(new_parents, self.self_counts(), n, n);
                    assert(is_ancestor(new_parents, n, n));
                    assert(self.subtree_total(n) == subtree_sum(new_parents, self.self_counts(), n, n) + self_cnt);
                }
            }
            assert(self.names() =~= old(self).names().push(name@));
        }
        id
    }

    /// Find an existing child node under `parent` with the given `name`:
    /// the most recently added one, if several share the name.
    pub fn find_child(&self, parent: NodeId, name: &str) -> (r: Option<NodeId>)
        requires
            self.wf(),
            (parent as int) < self.len(),
        ensures
            opt_index(r) == first_named(self.names(), self.children(parent as int), name@),
    {
        let ghost n = self.arena@.len() as int;
        let ghost ps = self.parents@;
        let mut child = self.arena[parent as usize].first_child;
        let ghost mut m = n;
        loop
            invariant
                self.wf(),
                n == self.len(),
                ps == self.parents(),
                (parent as int) < n,
                0 <= m <= n,
                opt_index(child) == last_child_below(ps, parent as int, m),
                first_named(self.names(), children_below(ps, parent as int, n), name@)
                    == first_named(self.names(), children_below(ps, parent as int, m), name@),
            decreases m,
        {
            proof {
                lemma_last_child_facts(ps, parent as int, m);
            }
            match child {
                None => {
                    return None;
                },
                Some(id) => {
                    proof {
                        lemma_children_unfold(ps, parent as int, m);
                    }
                    if crate::text::str_eq(self.arena[id as usize].name.as_str(), name) {
                        return Some(id);
                    }
                    proof {
                        assert(children_below(ps, parent as int, m).drop_first() =~= children_below(
                            ps,
                            parent as int,
                            id as int,
                        ));
                    }
                    child = self.arena[id as usize].next_sibling;
                    proof {
                        m = id as int;
                    }
                },
            }
        }
    }

    /// Either return the existing child node with `name` or insert a new one
    /// with no samples of its own.
    pub fn get_or_insert_child(&mut self, parent: NodeId, name: &str) -> (id: NodeId)
        requires
            old(self).wf(),
            (parent as int) < old(self).len(),
            first_named(old(self).names(), old(self).children(parent as int), name@) is None
                ==> old(self).len() <= u32::MAX,
        ensures
            final(self).wf(),
            (id as int) < final(self).len(),
            (final(self).shape(), id as int) == shape_get_or_insert(
                old(self).shape(),
                parent as int,
                name@,
            ),
            final(self).nodes()[id as int].name@ == name@,
            match first_named(old(self).names(), old(self).children(parent as int), name@) {
                Some(j) => id as int == j && *final(self) == *old(self),
                None => {
                    &&& id as int == old(self).len()
                    &&& final(self).parents() == old(self).parents().push(parent)
                    &&& final(self).names() == old(self).names().push(name@)
                    &&& final(self).self_counts() == old(self).self_counts().push(0)
                },
            },
    {
        match self.find_child(parent, name) {
            Some(id) => {
                proof {
                    lemma_first_named_in(self.names(), self.children(parent as int), name@);
                    lemma_last_child_facts(self.parents(), parent as int, self.len() as int);
                    lemma_children_in_range(self.parents(), parent as int, self.len() as int);
                }
                id
            },
            None => {
                let id = self.insert_child(parent, name, 0);
                proof {
                    assert(self.shape().names == old(self).shape().names.push(name@));
                }
                id
            },
        }
    }

    /// Increment the self and total counts of `node` by `delta` samples
    /// (saturating). The total count is propagated up to the root.
    pub fn add_samples(&mut self, node: NodeId, delta: u64)
        requires
            old(self).wf(),
            (node as int) < old(self).len(),
        ensures
            final(self).wf(),
            final(self).parents() == old(self).parents(),
            final(self).names() == old(self).names(),
            final(self).self_counts() == old(self).self_counts().update(
                node as int,
                old(self).self_counts()[node as int].saturating_add(delta),
            ),
            final(self).shape() == shape_add(old(self).shape(), node as int, delta),
            final(self).nodes()[0].total_count == old(self).nodes()[0].total_count.saturating_add(
                delta,
            ),
            forall|i: int|
                0 <= i < old(self).len() ==> (#[trigger] final(self).nodes()[i]).total_count == if is_ancestor(
                    old(self).parents(),
                    i,
                    node as int,
                ) {
                    old(self).nodes()[i].total_count.saturating_add(delta)
                } else {
                    old(self).nodes()[i].total_count
                },
    {
        let ghost old_counts = self.self_counts();
        let ghost ps = self.parents@;
        let ghost n = self.arena@.len() as int;
        let s = self.arena[node as usize].self_count.saturating_add(delta);
        self.arena[node as usize].self_count = s;
        let ghost mid = self.arena@;
        self.add_to_ancestors(node, delta);
        proof {
            assert(self.self_counts() =~= old_counts.update(node as int, s));
            assert forall|i: int| 0 <= i < n implies (#[trigger] self.arena@[i]).total_count
                == sat(self.subtree_total(i)) by {
                lemma_subtree_sum_update(ps, old_counts, node as int, s, i, n);
                lemma_subtree_sum_nonneg(ps, old_counts, i, n);
                lemma_subtree_sum_nonneg(ps, self.self_counts(), i, n);
                assert(mid[i].total_count == old(self).arena@[i].total_count);
                if is_ancestor(ps, i, node as int) {
                    lemma_subtree_sum_contains(ps, old_counts, i, node as int, n);
                }
            }
            assert(self.names() =~= old(self).names());
            lemma_root_is_ancestor(ps, node as int);
        }
    }

    /// The root's total is the saturated sum of all own counts in the tree:
    /// the sum itself wherever it fits in a `u64`.
    pub proof fn lemma_total_samples_is_sum(&self)
        requires
            self.wf(),
        ensures
            self.nodes()[0].total_count == sat(sum_counts(self.self_counts())),
            sum_counts(self.self_counts()) <= u64::MAX ==> self.nodes()[0].total_count == sum_counts(
                self.self_counts(),
            ),
    {
        lemma_root_subtree_sum(self.parents(), self.self_counts(), self.len() as int);
        assert(self.self_counts().take(self.len() as int) =~= self.self_counts());
        lemma_sum_counts_nonneg(self.self_counts());
    }

    /// Every node's total is the saturated sum of the own counts of the
    /// nodes in its subtree.
    pub proof fn lemma_total_is_subtree_sum(&self, i: int)
        requires
            self.wf(),
            0 <= i < self.len(),
        ensures
            self.nodes()[i].total_count == sat(self.subtree_total(i)),
    {
    }

    /// Looking a name up under `parent` right after inserting a child with
    /// that name there finds the new child.
    pub proof fn lemma_lookup_after_insert(before: FlameTree, after: FlameTree, parent: int, name: Seq<char>)
        requires
            before.wf(),
            after.wf(),
            0 <= parent < before.len(),
            after.parents() == before.parents().push(parent as NodeId),
            after.names() == before.names().push(name),
        ensures
            first_named(after.names(), after.children(parent), name) == Some(before.len() as int),
    {
        let n = before.len() as int;
        assert(after.len() == n + 1) by {
            assert(after.names().len() == after.len());
            assert(before.names().len() == n);
        }
        assert(after.parents()[n] as int == parent);
        assert(after.children(parent)[0] == n);
        assert(after.names()[n] == name);
    }

    /// After `get_or_insert_child` returned `id` for `name` under `parent`,
    /// looking the name up there finds `id`: a second call returns the same
    /// node and leaves the tree as it is.
    pub proof fn lemma_get_or_insert_twice(before: FlameTree, after: FlameTree, parent: int, name: Seq<char>, id: int)
        requires
            before.wf(),
            after.wf(),
            0 <= parent < before.len(),
            (after.shape(), id) == shape_get_or_insert(before.shape(), parent, name),
        ensures
            first_named(after.names(), after.children(parent), name) == Some(id),
    {
        before.lemma_wf_parents();
        after.lemma_wf_parents();
        let s = before.shape();
        assert(s.names.len() == before.len());
        lemma_get_or_insert_idempotent(s, parent, name);
    }

    /// The sibling links list the children of every node, youngest first:
    /// `first_child` is the head of the list and each child's `next_sibling`
    /// the one after it.
    pub proof fn lemma_sibling_links(&self, i: int)
        requires
            self.wf(),
            0 <= i < self.len(),
        ensures
            opt_index(self.nodes()[i].first_child) == if self.children(i).len() > 0 {
                Some(self.children(i)[0])
            } else {
                None
            },
            forall|k: int|
                0 <= k < self.children(i).len() ==> {
                    &&& 0 < #[trigger] self.children(i)[k] < self.len()
                    &&& self.parents()[self.children(i)[k]] as int == i
                    &&& opt_index(self.nodes()[self.children(i)[k]].next_sibling) == if k + 1
                        < self.children(i).len() {
                        Some(self.children(i)[k + 1])
                    } else {
                        None
                    }
                },
    {
        let ps = self.parents();
        let n = self.len() as int;
        lemma_last_child_facts(ps, i, n);
        lemma_children_in_range(ps, i, n);
        assert forall|k: int| 0 <= k < self.children(i).len() implies {
            &&& 0 < #[trigger] self.children(i)[k] < self.len()
            &&& self.parents()[self.children(i)[k]] as int == i
            &&& opt_index(self.nodes()[self.children(i)[k]].next_sibling) == if k + 1 < self.children(
                i,
            ).len() {
                Some(self.children(i)[k + 1])
            } else {
                None
            }
        } by {
            lemma_children_suffix(ps, i, n, k);
            let c = self.children(i)[k];
            lemma_last_child_facts(ps, i, c);
            assert(self.children(i).skip(k + 1).len() == self.children(i).len() - k - 1);
            if k + 1 < self.children(i).len() {
                assert(self.children(i).skip(k + 1)[0] == self.children(i)[k + 1]);
            }
            assert(opt_index(self.arena@[c].next_sibling) == last_child_below(ps, ps[c] as int, c));
        }
    }

    /// What well-formedness tells about the parent links.
    pub proof fn lemma_wf_parents(&self)
        requires
            self.wf(),
        ensures
            parents_wf(self.parents()),
            self.parents().len() == self.len(),
            1 <= self.len() <= u32::MAX + 1,
    {
    }

    /// Add `delta` (saturating) to the total of `start` and of each of its ancestors.
    fn add_to_ancestors(&mut self, start: NodeId, delta: u64)
        requires
            parents_wf(old(self).parents@),
            old(self).arena@.len() == old(self).parents@.len(),
            (start as int) < old(self).arena@.len(),
        ensures
            final(self).parents@ == old(self).parents@,
            final(self).arena@.len() == old(self).arena@.len(),
            forall|i: int|
                0 <= i < old(self).arena@.len() ==> {
                    &&& (#[trigger] final(self).arena@[i]).total_count == if is_ancestor(
                        old(self).parents@,
                        i,
                        start as int,
                    ) {
                        old(self).arena@[i].total_count.saturating_add(delta)
                    } else {
                        old(self).arena@[i].total_count
                    }
                    &&& final(self).arena@[i].self_count == old(self).arena@[i].self_count
                    &&& final(self).arena@[i].name == old(self).arena@[i].name
                    &&& final(self).arena@[i].next_sibling == old(self).arena@[i].next_sibling
                    &&& final(self).arena@[i].first_child == old(self).arena@[i].first_child
                },
    {
        let ghost ps = self.parents@;
        let ghost old_arena = self.arena@;
        let ghost n = self.arena@.len() as int;
        let mut p = start;
        loop
            invariant_except_break
                self.arena@.len() == n,
                self.parents@ == ps,
                ps.len() == n,
                old_arena.len() == n,
                parents_wf(ps),
                0 <= p <= start < n,
                is_ancestor(ps, p as int, start as int),
                forall|i: int|
                    0 <= i < n ==> {
                        &&& (#[trigger] self.arena@[i]).total_count == if is_ancestor(
                            ps,
                            i,
                            start as int,
                        ) && !is_ancestor(ps, i, p as int) {
                            old_arena[i].total_count.saturating_add(delta)
                        } else {
                            old_arena[i].total_count
                        }
                        &&& self.arena@[i].self_count == old_arena[i].self_count
                        &&& self.arena@[i].name == old_arena[i].name
                        &&& self.arena@[i].next_sibling == old_arena[i].next_sibling
                        &&& self.arena@[i].first_child == old_arena[i].first_child
                    },
            ensures
                self.arena@.len() == n,
                self.parents@ == ps,
                forall|i: int|
                    0 <= i < n ==> {
                        &&& (#[trigger] self.arena@[i]).total_count == if is_ancestor(
                            ps,
                            i,
                            start as int,
                        ) {
                            old_arena[i].total_count.saturating_add(delta)
                        } else {
                            old_arena[i].total_count
                        }
                        &&& self.arena@[i].self_count == old_arena[i].self_count
                        &&& self.arena@[i].name == old_arena[i].name
                        &&& self.arena@[i].next_sibling == old_arena[i].next_sibling
                        &&& self.arena@[i].first_child == old_arena[i].first_child
                    },
            decreases p,
        {
            let ghost before = self.arena@;
            let t = self.arena[p as usize].total_count.saturating_add(delta);
            self.arena[p as usize].total_count = t;
            let pp = self.parents[p as usize];
            proof {
                lemma_ancestor_bounds(ps, p as int, start as int);
                assert(is_ancestor(ps, p as int, p as int));
                assert(self.arena@ == before.update(p as int, self.arena@[p as int]));
                assert(self.arena@[p as int].name == before[p as int].name);
                assert(self.arena@[p as int].self_count == before[p as int].self_count);
                assert(self.arena@[p as int].next_sibling == before[p as int].next_sibling);
                assert(self.arena@[p as int].first_child == before[p as int].first_child);
            }
            if p == pp {
                proof {
                    assert forall|i: int| 0 <= i < n implies is_ancestor(ps, i, p as int) == (i
                        == p) by {
                        if is_ancestor(ps, i, p as int) {
                            lemma_ancestor_bounds(ps, i, p as int);
                        }
                    }
                    assert forall|i: int| 0 <= i < n implies {
                        &&& (#[trigger] self.arena@[i]).total_count == if is_ancestor(
                            ps,
                            i,
                            start as int,
                        ) {
                            old_arena[i].total_count.saturating_add(delta)
                        } else {
                            old_arena[i].total_count
                        }
                        &&& self.arena@[i].self_count == old_arena[i].self_count
                        &&& self.arena@[i].name == old_arena[i].name
                        &&& self.arena@[i].next_sibling == old_arena[i].next_sibling
                        &&& self.arena@[i].first_child == old_arena[i].first_child
                    } by {
                        if i != p {
                            assert(self.arena@[i] == before[i]);
                        }
                    }
                }
                break;
            }
            proof {
                assert forall|i: int| 0 <= i < n implies is_ancestor(ps, i, p as int) == (i == p
                    || is_ancestor(ps, i, pp as int)) by {
                    if i == p && is_ancestor(ps, i, pp as int) {
                        lemma_ancestor_bounds(ps, i, pp as int);
                    }
                }
                lemma_ancestor_step(ps, p as int, start as int);
                assert forall|i: int| 0 <= i < n implies (#[trigger] self.arena@[i]).total_count
                    == if is_ancestor(ps, i, start as int) && !is_ancestor(ps, i, pp as int) {
                    old_arena[i].total_count.saturating_add(delta)
                } else {
                    old_arena[i].total_count
                } by {
                    if i != p {
                        assert(self.arena@[i] == before[i]);
                    } else if is_ancestor(ps, i, pp as int) {
                        lemma_ancestor_bounds(ps, i, pp as int);
                    }
                }
            }
            p = pp;
        }
    }

    /// Total sample count stored at the root node.
    pub fn total_samples(&self) -> (r: u64)
        requires
            self.wf(),
        ensures
            r == self.nodes()[0].total_count,
            r == sat(self.subtree_total(0)),
    {
        self.arena[0].total_count
    }
}

pub proof fn lemma_children_in_range(parents: Seq<NodeId>, p: int, m: int)
    requires
        m <= parents.len(),
    ensures
        forall|k: int|
            0 <= k < children_below(parents, p, m).len() ==> 1 <= #[trigger] children_below(
                parents,
                p,
                m,
            )[k] < m,
    decreases m,
{
    if m > 1 {
        lemma_children_in_range(parents, p, m - 1);
        if parents[m - 1] as int == p {
            assert forall|k: int| 0 <= k < children_below(parents, p, m).len() implies 1
                <= #[trigger] children_below(parents, p, m)[k] < m by {
                if k > 0 {
                    assert(children_below(parents, p, m)[k] == children_below(parents, p, m - 1)[k
                        - 1]);
                }
            }
        }
    }
}

/// A node's own count is part of the sum of every subtree that holds it.
pub proof fn lemma_subtree_sum_contains(parents: Seq<NodeId>, counts: Seq<u64>, a: int, k: int, m: int)
    requires
        is_ancestor(parents, a, k),
        k < m,
    ensures
        subtree_sum(parents, counts, a, m) >= counts[k],
    decreases m,
{
    if m - 1 > k {
        lemma_subtree_sum_contains(parents, counts, a, k, m - 1);
    } else {
        lemma_subtree_sum_nonneg(parents, counts, a, m - 1);
    }
}

/// The `k`-th child in the list is a child, and the list after it is the
/// list of its elder siblings.
pub proof fn lemma_children_suffix(parents: Seq<NodeId>, p: int, m: int, k: int)
    requires
        m <= parents.len(),
        0 <= k < children_below(parents, p, m).len(),
    ensures
        ({
            let c = children_below(parents, p, m)[k];
            &&& parents[c] as int == p
            &&& children_below(parents, p, m).skip(k + 1) == children_below(parents, p, c)
        }),
    decreases m,
{
    if m > 1 {
        if parents[m - 1] as int == p {
            if k == 0 {
                assert(children_below(parents, p, m).skip(1) =~= children_below(parents, p, m - 1));
            } else {
                lemma_children_suffix(parents, p, m - 1, k - 1);
                assert(children_below(parents, p, m).skip(k + 1) =~= children_below(
                    parents,
                    p,
                    m - 1,
                ).skip(k));
            }
        } else {
            lemma_children_suffix(parents, p, m - 1, k);
        }
    }
}

pub proof fn lemma_children_unfold(parents: Seq<NodeId>, p: int, m: int)
    requires
        m <= parents.len(),
        last_child_below(parents, p, m) is Some,
    ensures
        children_below(parents, p, m) == seq![last_child_below(parents, p, m)->0]
            + children_below(parents, p, last_child_below(parents, p, m)->0),
    decreases m,
{
    if parents[m - 1] as int != p {
        lemma_children_unfold(parents, p, m - 1);
    }
}

pub proof fn lemma_first_named_in(names: Seq<Seq<char>>, cs: Seq<int>, name: Seq<char>)
    ensures
        first_named(names, cs, name) matches Some(j) ==> cs.contains(j) && names[j] == name,
        first_named(names, cs, name) is None ==> forall|k: int|
            0 <= k < cs.len() ==> names[#[trigger] cs[k]] != name,
    decreases cs.len(),
{
    if cs.len() > 0 {
        lemma_first_named_in(names, cs.drop_first(), name);
        if first_named(names, cs, name) is None {
            assert forall|k: int| 0 <= k < cs.len() implies names[#[trigger] cs[k]] != name by {
                if k > 0 {
                    assert(cs[k] == cs.drop_first()[k - 1]);
                }
            }
        }
        if let Some(j) = first_named(names, cs, name) {
            if j != cs[0] {
                let k = choose|k: int| 0 <= k < cs.drop_first().len() && cs.drop_first()[k] == j;
                assert(cs[k + 1] == j);
            }
        }
    }
}

} // verus!
