//! What a loaded tree says of each stack, whatever order its lines came in.
use vstd::prelude::*;
use vstd::utf8::*;

use crate::arena::{
    children_below,
    is_ancestor,
    lemma_ancestor_bounds,
    lemma_subtree_sum_below,
    lemma_subtree_sum_contains,
    lemma_subtree_sum_nonneg,
    lemma_subtree_sum_push,
    lemma_subtree_sum_update,
    subtree_sum,
    lemma_first_named_in,
    parents_wf,
    shape_child,
    shape_get_or_insert,
    sat,
    shape_add,
    shape_insert_path,
    shape_record,
    FlameTree,
    NodeId,
    Shape,
};
use crate::subtree::{lemma_child_listed, lemma_children_shape};
use crate::loader::collapsed::{
    lemma_insert_path_grows,
    load_lines,
    parse_line,
    path_size,
    root_shape,
    LineSpec,
};

verus! {

/// The frame names on the way from the root down to node `j`.
pub open spec fn node_path(names: Seq<Seq<char>>, parents: Seq<NodeId>, j: int) -> Seq<Seq<char>>
    decreases j,
{
    if 0 < j < parents.len() && (parents[j] as int) < j {
        node_path(names, parents, parents[j] as int).push(names[j])
    } else {
        Seq::empty()
    }
}

/// The path of node `j` of `s`.
pub open spec fn path_of(s: Shape, j: int) -> Seq<Seq<char>> {
    node_path(s.names, s.parents, j)
}

/// Some node of `s` lies at the end of `path`.
pub open spec fn has_path(s: Shape, path: Seq<Seq<char>>) -> bool {
    exists|j: int| 0 <= j < s.names.len() && path_of(s, j) == path
}

/// The own count of the node at the end of `path`, or 0 without one.
pub open spec fn path_count(s: Shape, path: Seq<Seq<char>>) -> int {
    if has_path(s, path) {
        s.counts[choose|j: int| 0 <= j < s.names.len() && path_of(s, j) == path] as int
    } else {
        0
    }
}

/// A shape whose nodes lie at distinct paths, as loading builds them.
pub open spec fn tidy(s: Shape) -> bool {
    &&& s.names.len() == s.parents.len()
    &&& s.counts.len() == s.names.len()
    &&& parents_wf(s.parents)
    &&& s.names.len() <= u32::MAX + 1
    &&& forall|i: int, j: int|
        0 <= i < s.names.len() && 0 <= j < s.names.len() && i != j ==> path_of(s, i) != path_of(s, j)
}

/// Adding a node keeps the paths of the nodes before it.
proof fn lemma_path_push(names: Seq<Seq<char>>, parents: Seq<NodeId>, x: Seq<char>, q: NodeId, j: int)
    requires
        names.len() == parents.len(),
        0 <= j < parents.len(),
    ensures
        node_path(names.push(x), parents.push(q), j) == node_path(names, parents, j),
    decreases j,
{
    if 0 < j && (parents[j] as int) < j {
        lemma_path_push(names, parents, x, q, parents[j] as int);
    }
}

/// In a tidy shape the path picks out its node.
proof fn lemma_path_count_at(s: Shape, j: int)
    requires
        tidy(s),
        0 <= j < s.names.len(),
    ensures
        has_path(s, path_of(s, j)),
        path_count(s, path_of(s, j)) == s.counts[j] as int,
{
    let k = choose|k: int| 0 <= k < s.names.len() && path_of(s, k) == path_of(s, j);
    assert(k == j);
}

/// Looking a child up, adding it when missing, keeps the shape tidy (while
/// it fits the node ids): the
/// node returned lies one frame below `p`, the old nodes keep their paths
/// and counts, and a node is added exactly when no node lay at its path.
proof fn lemma_get_or_insert_paths(s: Shape, p: int, name: Seq<char>)
    requires
        tidy(s),
        0 <= p < s.names.len(),
    ensures
        ({
            let (s1, c) = shape_get_or_insert(s, p, name);
            let n = s.names.len() as int;
            &&& s1.names.len() <= u32::MAX + 1 ==> tidy(s1)
            &&& 0 <= c < s1.names.len()
            &&& path_of(s1, c) == path_of(s, p).push(name)
            &&& s1.names.len() == n || s1.names.len() == n + 1
            &&& forall|j: int| 0 <= j < n ==> #[trigger] path_of(s1, j) == path_of(s, j) && s1.counts[j] == s.counts[j]
            &&& s1.names.len() == n + 1 <==> !has_path(s, path_of(s, p).push(name))
            &&& s1.names.len() == n + 1 ==> c == n && s1.counts[n] == 0
        }),
{
    let n = s.names.len() as int;
    let (s1, c) = shape_get_or_insert(s, p, name);
    let target = path_of(s, p).push(name);
    let cs = children_below(s.parents, p, n);
    lemma_first_named_in(s.names, cs, name);
    lemma_children_shape(s.parents, p, n);
    match shape_child(s, p, name) {
        Some(j) => {
            let k = choose|k: int| 0 <= k < cs.len() && cs[k] == j;
            assert(1 <= cs[k] < n);
            assert(s.parents[j] as int == p);
            assert(path_of(s, j) == target);
            assert(has_path(s, target));
        },
        None => {
            assert forall|j: int| 0 <= j < n implies #[trigger] path_of(s1, j) == path_of(s, j) by {
                lemma_path_push(s.names, s.parents, name, p as NodeId, j);
            }
            assert(s1.parents[n] as int == p);
            assert(path_of(s1, n) == path_of(s1, p).push(name));
            assert(path_of(s1, n) == target);
            assert(!has_path(s, target)) by {
                if has_path(s, target) {
                    let i = choose|i: int| 0 <= i < n && path_of(s, i) == target;
                    if i == 0 {
                        assert(path_of(s, 0).len() == 0);
                    } else {
                        let q = s.parents[i] as int;
                        assert(q < i);
                        assert(path_of(s, i) == path_of(s, q).push(s.names[i]));
                        assert(path_of(s, q) =~= target.drop_last());
                        assert(target.drop_last() =~= path_of(s, p));
                        assert(q == p);
                        assert(s.names[i] == target.last());
                        assert(s.names[i] == name);
                        lemma_child_listed(s.parents, p, i, n);
                        let k = choose|k: int| 0 <= k < cs.len() && cs[k] == i;
                        assert(s.names[cs[k]] == name);
                    }
                }
            }
            assert(parents_wf(s1.parents)) by {
                assert forall|j: int| 0 < j < s1.parents.len() implies (#[trigger] s1.parents[j] as int) < j by {
                    if j < n {
                        assert(s1.parents[j] == s.parents[j]);
                    }
                }
            }
            assert forall|i: int, j: int|
                0 <= i < s1.names.len() && 0 <= j < s1.names.len() && i != j implies path_of(s1, i)
                != path_of(s1, j) by {
                if i == n {
                    assert(path_of(s1, j) == path_of(s, j));
                } else if j == n {
                    assert(path_of(s1, i) == path_of(s, i));
                } else {
                    assert(path_of(s1, i) == path_of(s, i));
                    assert(path_of(s1, j) == path_of(s, j));
                }
            }
        },
    }
}

/// `path` lies on the way `frames` from `base`: it is `base` followed by
/// the first few frames.
pub open spec fn on_way(base: Seq<Seq<char>>, frames: Seq<Seq<char>>, path: Seq<Seq<char>>) -> bool {
    &&& base.len() <= path.len() <= base.len() + frames.len()
    &&& path == base + frames.take(path.len() - base.len())
}

/// Following the way `frames` from `p`, adding the nodes that are missing,
/// keeps the shape tidy: the node reached lies at the end of the way, the
/// old nodes keep their paths and counts, the new ones count nothing, and
/// the paths present are those present before and those on the way.
proof fn lemma_insert_path_paths(s: Shape, p: int, frames: Seq<Seq<char>>)
    requires
        tidy(s),
        0 <= p < s.names.len(),
        shape_insert_path(s, p, frames).0.names.len() <= u32::MAX + 1,
    ensures
        ({
            let (s1, leaf) = shape_insert_path(s, p, frames);
            let n = s.names.len() as int;
            &&& tidy(s1)
            &&& 0 <= leaf < s1.names.len()
            &&& s1.names.len() >= n
            &&& path_of(s1, leaf) == path_of(s, p) + frames
            &&& forall|j: int|
                0 <= j < n ==> #[trigger] path_of(s1, j) == path_of(s, j) && s1.counts[j] == s.counts[j]
            &&& forall|j: int| n <= j < s1.names.len() ==> #[trigger] s1.counts[j] == 0
            &&& forall|path: Seq<Seq<char>>|
                #[trigger] has_path(s1, path) <==> has_path(s, path) || on_way(path_of(s, p), frames, path)
        }),
    decreases frames.len(),
{
    let n = s.names.len() as int;
    let base = path_of(s, p);
    assert(has_path(s, base));
    if frames.len() == 0 {
        assert(base + frames =~= base);
        assert forall|path: Seq<Seq<char>>| on_way(base, frames, path) implies has_path(s, path) by {
            assert(path =~= base);
        }
    } else {
        let f0 = frames[0];
        let rest = frames.drop_first();
        let (s1, c) = shape_get_or_insert(s, p, f0);
        lemma_insert_path_grows(s1, c, rest);
        lemma_get_or_insert_paths(s, p, f0);
        lemma_insert_path_paths(s1, c, rest);
        let (s2, leaf) = shape_insert_path(s1, c, rest);
        let b1 = base.push(f0);
        assert(path_of(s1, c) == b1);
        assert(b1 + rest =~= base + frames);
        assert forall|path: Seq<Seq<char>>| has_path(s1, path) <==> has_path(s, path) || path == b1 by {
            if has_path(s1, path) {
                let j = choose|j: int| 0 <= j < s1.names.len() && path_of(s1, j) == path;
                if j < n {
                    assert(path_of(s, j) == path);
                } else {
                    assert(j == c);
                }
            }
            if has_path(s, path) {
                let j = choose|j: int| 0 <= j < n && path_of(s, j) == path;
                assert(path_of(s1, j) == path);
            }
        }
        assert forall|path: Seq<Seq<char>>|
            has_path(s, path) || on_way(b1, rest, path) <==> has_path(s, path) || on_way(base, frames, path) by {
            if on_way(b1, rest, path) {
                let k = path.len() - b1.len();
                assert(base + frames.take(k + 1) =~= b1 + rest.take(k));
            }
            if on_way(base, frames, path) && path.len() > base.len() {
                let k = path.len() - base.len();
                assert(base + frames.take(k) =~= b1 + rest.take(k - 1));
            }
            if on_way(base, frames, path) && path.len() == base.len() {
                assert(path =~= base);
            }
        }
        assert(shape_insert_path(s, p, frames) == (s2, leaf));
        assert(tidy(s2));
        assert(path_of(s2, leaf) == base + frames);
        assert forall|j: int| 0 <= j < n implies #[trigger] path_of(s2, j) == path_of(s, j) && s2.counts[j] == s.counts[j] by {
            assert(path_of(s1, j) == path_of(s, j));
        }
        assert forall|j: int| n <= j < s2.names.len() implies #[trigger] s2.counts[j] == 0 by {
            if j < s1.names.len() {
                assert(path_of(s2, j) == path_of(s1, j));
                assert(s1.names.len() == n + 1);
                assert(s1.counts[j] == 0);
            }
        }
    }
}

/// `path` is a prefix of the stack `frames`.
pub open spec fn prefix_of(path: Seq<Seq<char>>, frames: Seq<Seq<char>>) -> bool {
    path.len() <= frames.len() && frames.take(path.len() as int) == path
}

/// Recording `count` samples of the stack `frames` keeps the shape tidy; the
/// paths present afterwards are those before and the prefixes of the stack,
/// and only the count at the stack's own path changes, by `count`
/// (saturating).
pub proof fn lemma_record_paths(s: Shape, frames: Seq<Seq<char>>, count: u64)
    requires
        tidy(s),
        path_size(s, frames) <= u32::MAX + 1,
    ensures
        tidy(shape_record(s, frames, count)),
        shape_record(s, frames, count).names.len() == path_size(s, frames),
        forall|path: Seq<Seq<char>>|
            #[trigger] has_path(shape_record(s, frames, count), path) <==> has_path(s, path) || prefix_of(
                path,
                frames,
            ),
        forall|path: Seq<Seq<char>>|
            #[trigger] path_count(shape_record(s, frames, count), path) == if path == frames {
                sat(path_count(s, path) + count) as int
            } else {
                path_count(s, path)
            },
{
    let n = s.names.len() as int;
    lemma_insert_path_paths(s, 0, frames);
    let (s1, leaf) = shape_insert_path(s, 0, frames);
    let r = shape_add(s1, leaf, count);
    assert(r == shape_record(s, frames, count));
    let e = Seq::<Seq<char>>::empty();
    assert(path_of(s, 0) == e);
    assert(e + frames =~= frames);
    assert forall|j: int| 0 <= j < r.names.len() implies #[trigger] path_of(r, j) == path_of(s1, j) by {}
    assert(tidy(r));
    assert forall|path: Seq<Seq<char>>| on_way(e, frames, path) <==> prefix_of(path, frames) by {
        assert(e + frames.take(path.len() as int) =~= frames.take(path.len() as int));
    }
    assert forall|path: Seq<Seq<char>>| #[trigger] has_path(r, path) <==> has_path(s1, path) by {
        if has_path(r, path) {
            let j = choose|j: int| 0 <= j < r.names.len() && path_of(r, j) == path;
            assert(path_of(s1, j) == path);
        }
        if has_path(s1, path) {
            let j = choose|j: int| 0 <= j < s1.names.len() && path_of(s1, j) == path;
            assert(path_of(r, j) == path);
        }
    }
    assert forall|path: Seq<Seq<char>>|
        #[trigger] path_count(r, path) == if path == frames {
            sat(path_count(s, path) + count) as int
        } else {
            path_count(s, path)
        } by {
        if has_path(r, path) {
            let j = choose|j: int| 0 <= j < r.names.len() && path_of(r, j) == path;
            lemma_path_count_at(r, j);
            if j < n {
                lemma_path_count_at(s, j);
                assert(path_of(s, j) == path);
            } else {
                assert(s1.counts[j] == 0);
                if has_path(s, path) {
                    let i = choose|i: int| 0 <= i < n && path_of(s, i) == path;
                    assert(path_of(s1, i) == path);
                    assert(path_of(s1, j) == path);
                }
            }
            if j == leaf {
                assert(path == frames);
            } else {
                assert(path_of(s1, leaf) == frames);
                assert(path_of(s1, j) != path_of(s1, leaf));
            }
        } else {
            assert(!has_path(s1, path));
            if has_path(s, path) {
                let i = choose|i: int| 0 <= i < n && path_of(s, i) == path;
                assert(path_of(s1, i) == path);
            }
            assert(path_of(s1, leaf) == frames);
            assert(path != frames);
        }
    }
}

/// The inclusive count at `path`: the own counts at and below its node,
/// added with saturation, as the tree's totals hold them; 0 without a node.
pub open spec fn path_total(s: Shape, path: Seq<Seq<char>>) -> int {
    if has_path(s, path) {
        sat(
            subtree_sum(
                s.parents,
                s.counts,
                choose|j: int| 0 <= j < s.names.len() && path_of(s, j) == path,
                s.names.len() as int,
            ),
        ) as int
    } else {
        0
    }
}

/// In a tidy shape, `a` is an ancestor of `k` exactly when the path of `a`
/// begins the path of `k`.
proof fn lemma_ancestor_is_prefix(s: Shape, a: int, k: int)
    requires
        tidy(s),
        0 <= a < s.names.len(),
        0 <= k < s.names.len(),
    ensures
        is_ancestor(s.parents, a, k) <==> prefix_of(path_of(s, a), path_of(s, k)),
    decreases k,
{
    let pa = path_of(s, a);
    let pk = path_of(s, k);
    if a == k {
        assert(pk.take(pa.len() as int) =~= pa);
    } else if k == 0 {
        assert(pk.len() == 0);
        if prefix_of(pa, pk) {
            assert(pa.len() == 0);
            assert(pa =~= path_of(s, 0));
        }
    } else {
        let q = s.parents[k] as int;
        assert(q < k);
        assert(pk == path_of(s, q).push(s.names[k]));
        lemma_ancestor_is_prefix(s, a, q);
        if prefix_of(pa, pk) {
            if pa.len() == pk.len() {
                assert(pa =~= pk);
            } else {
                assert(path_of(s, q).take(pa.len() as int) =~= pk.take(pa.len() as int));
            }
        }
        if prefix_of(pa, path_of(s, q)) {
            assert(pk.take(pa.len() as int) =~= path_of(s, q).take(pa.len() as int));
        }
    }
}

/// Looking a child up, adding it when missing, keeps the summed counts at
/// and below the old nodes; a new node has none below it.
proof fn lemma_get_or_insert_sums(s: Shape, p: int, name: Seq<char>)
    requires
        tidy(s),
        0 <= p < s.names.len(),
    ensures
        ({
            let (s1, c) = shape_get_or_insert(s, p, name);
            let n = s.names.len() as int;
            forall|a: int|
                0 <= a < s1.names.len() ==> #[trigger] subtree_sum(s1.parents, s1.counts, a, s1.names.len() as int)
                    == if a < n {
                    subtree_sum(s.parents, s.counts, a, n)
                } else {
                    0
                }
        }),
{
    let n = s.names.len() as int;
    let (s1, c) = shape_get_or_insert(s, p, name);
    lemma_get_or_insert_paths(s, p, name);
    if s1.names.len() == n + 1 {
        assert forall|a: int| 0 <= a < s1.names.len() implies #[trigger] subtree_sum(
            s1.parents,
            s1.counts,
            a,
            s1.names.len() as int,
        ) == if a < n {
            subtree_sum(s.parents, s.counts, a, n)
        } else {
            0
        } by {
            lemma_subtree_sum_push(s.parents, s.counts, p as NodeId, 0, a, n);
            assert(s1.counts[n] == 0);
            if a == n {
                lemma_subtree_sum_below(s1.parents, s1.counts, a, n);
            }
        }
    }
}

/// Following the way `frames`, adding the missing nodes, keeps the summed
/// counts at and below the old nodes; the new nodes have none below them.
proof fn lemma_insert_path_sums(s: Shape, p: int, frames: Seq<Seq<char>>)
    requires
        tidy(s),
        0 <= p < s.names.len(),
        shape_insert_path(s, p, frames).0.names.len() <= u32::MAX + 1,
    ensures
        ({
            let (s1, leaf) = shape_insert_path(s, p, frames);
            let n = s.names.len() as int;
            forall|a: int|
                0 <= a < s1.names.len() ==> #[trigger] subtree_sum(s1.parents, s1.counts, a, s1.names.len() as int)
                    == if a < n {
                    subtree_sum(s.parents, s.counts, a, n)
                } else {
                    0
                }
        }),
    decreases frames.len(),
{
    if frames.len() > 0 {
        let n = s.names.len() as int;
        let (s1, c) = shape_get_or_insert(s, p, frames[0]);
        lemma_insert_path_grows(s1, c, frames.drop_first());
        lemma_get_or_insert_paths(s, p, frames[0]);
        lemma_get_or_insert_sums(s, p, frames[0]);
        lemma_insert_path_sums(s1, c, frames.drop_first());
        let (s2, leaf) = shape_insert_path(s1, c, frames.drop_first());
        let n1 = s1.names.len() as int;
        assert forall|a: int| 0 <= a < s2.names.len() implies #[trigger] subtree_sum(
            s2.parents,
            s2.counts,
            a,
            s2.names.len() as int,
        ) == if a < n {
            subtree_sum(s.parents, s.counts, a, n)
        } else {
            0
        } by {
            if a < n1 {
                assert(subtree_sum(s1.parents, s1.counts, a, n1) == if a < n {
                    subtree_sum(s.parents, s.counts, a, n)
                } else {
                    0
                });
            }
        }
    }
}

/// Recording `count` samples of `frames` adds them (saturating) to the
/// inclusive count at every prefix of the stack, and changes no other.
pub proof fn lemma_record_totals(s: Shape, frames: Seq<Seq<char>>, count: u64)
    requires
        tidy(s),
        path_size(s, frames) <= u32::MAX + 1,
    ensures
        forall|path: Seq<Seq<char>>|
            #[trigger] path_total(shape_record(s, frames, count), path) == if prefix_of(path, frames) {
                sat(path_total(s, path) + count) as int
            } else {
                path_total(s, path)
            },
{
    let n = s.names.len() as int;
    lemma_insert_path_paths(s, 0, frames);
    lemma_insert_path_sums(s, 0, frames);
    lemma_record_paths(s, frames, count);
    let (s1, leaf) = shape_insert_path(s, 0, frames);
    let r = shape_add(s1, leaf, count);
    let n1 = s1.names.len() as int;
    let e = Seq::<Seq<char>>::empty();
    assert(path_of(s, 0) == e);
    assert(e + frames =~= frames);
    assert(path_of(s1, leaf) == frames);
    let cl = s1.counts[leaf];
    assert forall|path: Seq<Seq<char>>|
        #[trigger] path_total(r, path) == if prefix_of(path, frames) {
            sat(path_total(s, path) + count) as int
        } else {
            path_total(s, path)
        } by {
        if has_path(r, path) {
            let j = choose|j: int| 0 <= j < r.names.len() && path_of(r, j) == path;
            assert(path_of(s1, j) == path);
            lemma_subtree_sum_update(s1.parents, s1.counts, leaf, sat(cl + count), j, n1);
            lemma_ancestor_is_prefix(s1, j, leaf);
            let big_s = if j < n {
                subtree_sum(s.parents, s.counts, j, n)
            } else {
                0
            };
            assert(subtree_sum(s1.parents, s1.counts, j, n1) == big_s);
            if j < n {
                assert(path_of(s, j) == path);
                let k = choose|k: int| 0 <= k < n && path_of(s, k) == path;
                assert(k == j);
                assert(path_total(s, path) == sat(big_s) as int);
            } else {
                if has_path(s, path) {
                    let i = choose|i: int| 0 <= i < n && path_of(s, i) == path;
                    assert(path_of(s1, i) == path);
                }
                assert(path_total(s, path) == 0);
            }
            lemma_subtree_sum_nonneg(s.parents, s.counts, j, n);
            if prefix_of(path, frames) {
                lemma_subtree_sum_contains(s1.parents, s1.counts, j, leaf, n1);
                assert(big_s >= cl);
            }
        } else {
            if has_path(s, path) {
                let i = choose|i: int| 0 <= i < n && path_of(s, i) == path;
                assert(path_of(s1, i) == path);
                assert(has_path(s1, path));
            }
        }
    }
}

/// The paths at which `s` has nodes.
pub open spec fn paths(s: Shape) -> Set<Seq<Seq<char>>> {
    Set::new(|path: Seq<Seq<char>>| has_path(s, path))
}

/// A tidy shape has one node per path present.
proof fn lemma_len_is_paths(s: Shape)
    requires
        tidy(s),
    ensures
        paths(s).finite(),
        paths(s).len() == s.names.len(),
{
    let n = s.names.len() as int;
    let x = vstd::set_lib::set_int_range(0, n);
    let f = |j: int| path_of(s, j);
    vstd::set_lib::lemma_int_range(0, n);
    assert(vstd::relations::injective_on(f, x));
    assert(x.map(f) =~= paths(s)) by {
        assert forall|path: Seq<Seq<char>>| #[trigger] paths(s).contains(path) implies x.map(f).contains(path) by {
            let j = choose|j: int| 0 <= j < n && path_of(s, j) == path;
            assert(x.contains(j) && f(j) == path);
        }
    }
    vstd::set_lib::lemma_map_size(x, paths(s), f);
}

/// Following the way `frames` from `p` adds no more nodes than a tidy shape
/// `t` holds, when `t` has every path of `s` and every path on the way.
proof fn lemma_size_within(s: Shape, p: int, frames: Seq<Seq<char>>, t: Shape)
    requires
        tidy(s),
        tidy(t),
        0 <= p < s.names.len(),
        forall|path: Seq<Seq<char>>| #[trigger] has_path(s, path) ==> has_path(t, path),
        forall|path: Seq<Seq<char>>| on_way(path_of(s, p), frames, path) ==> #[trigger] has_path(t, path),
    ensures
        shape_insert_path(s, p, frames).0.names.len() <= t.names.len(),
    decreases frames.len(),
{
    let n = s.names.len() as int;
    let base = path_of(s, p);
    lemma_len_is_paths(s);
    lemma_len_is_paths(t);
    assert(paths(s).subset_of(paths(t)));
    vstd::set_lib::lemma_len_subset(paths(s), paths(t));
    if frames.len() > 0 {
        let f0 = frames[0];
        let rest = frames.drop_first();
        let (s1, c) = shape_get_or_insert(s, p, f0);
        let b1 = base.push(f0);
        assert(on_way(base, frames, b1)) by {
            assert(base + frames.take(1) =~= b1);
        }
        if !has_path(s, b1) {
            assert(paths(s).subset_of(paths(t).remove(b1)));
            vstd::set_lib::lemma_len_subset(paths(s), paths(t).remove(b1));
        }
        assert(s1.names.len() <= n + 1);
        lemma_get_or_insert_paths(s, p, f0);
        assert(s1.names.len() <= t.names.len());
        assert forall|path: Seq<Seq<char>>| #[trigger] has_path(s1, path) implies has_path(t, path) by {
            let j = choose|j: int| 0 <= j < s1.names.len() && path_of(s1, j) == path;
            if j < n {
                assert(path_of(s, j) == path);
                assert(has_path(s, path));
            } else {
                assert(j == c);
            }
        }
        assert forall|path: Seq<Seq<char>>| on_way(b1, rest, path) implies #[trigger] has_path(t, path) by {
            let k = path.len() - b1.len();
            assert(base + frames.take(k + 1) =~= b1 + rest.take(k));
            assert(on_way(base, frames, path));
        }
        lemma_size_within(s1, c, rest, t);
    }
}

/// `s` and `t` hold the same stacks: nodes at the same paths, with the
/// same own and inclusive counts.
pub open spec fn same_stacks(s: Shape, t: Shape) -> bool {
    &&& forall|path: Seq<Seq<char>>| #[trigger] has_path(s, path) == has_path(t, path)
    &&& forall|path: Seq<Seq<char>>| #[trigger] path_count(s, path) == path_count(t, path)
    &&& forall|path: Seq<Seq<char>>| #[trigger] path_total(s, path) == path_total(t, path)
}

/// What recording a stack makes of two shapes with the same stacks.
proof fn lemma_record_same(s: Shape, t: Shape, frames: Seq<Seq<char>>, count: u64)
    requires
        tidy(s),
        tidy(t),
        same_stacks(s, t),
        path_size(s, frames) <= u32::MAX + 1,
    ensures
        path_size(t, frames) <= u32::MAX + 1,
        tidy(shape_record(s, frames, count)),
        tidy(shape_record(t, frames, count)),
        same_stacks(shape_record(s, frames, count), shape_record(t, frames, count)),
{
    lemma_record_paths(s, frames, count);
    let s2 = shape_record(s, frames, count);
    let e = Seq::<Seq<char>>::empty();
    assert(path_of(t, 0) == e);
    assert forall|path: Seq<Seq<char>>| on_way(path_of(t, 0), frames, path) implies #[trigger] has_path(s2, path) by {
        assert(e + frames.take(path.len() - e.len()) =~= frames.take(path.len() as int));
        assert(prefix_of(path, frames));
    }
    lemma_size_within(t, 0, frames, s2);
    lemma_record_paths(t, frames, count);
    lemma_record_totals(s, frames, count);
    lemma_record_totals(t, frames, count);
}

/// Loading the same lines into two shapes with the same stacks: where one
/// load succeeds, so does the other, and the two hold the same stacks.
pub proof fn lemma_load_same_stacks(s: Shape, t: Shape, lines: Seq<Seq<u8>>, n: int, m: int)
    requires
        tidy(s),
        tidy(t),
        same_stacks(s, t),
        load_lines(s, lines, n) is Ok,
    ensures
        load_lines(t, lines, m) is Ok,
        tidy(load_lines(s, lines, n)->Ok_0),
        tidy(load_lines(t, lines, m)->Ok_0),
        same_stacks(load_lines(s, lines, n)->Ok_0, load_lines(t, lines, m)->Ok_0),
    decreases lines.len(),
{
    if lines.len() > 0 {
        match parse_line(decode_utf8(lines[0])) {
            LineSpec::Blank => {
                lemma_load_same_stacks(s, t, lines.drop_first(), n + 1, m + 1);
            },
            LineSpec::Bad => {},
            LineSpec::Sample { frames, count } => {
                lemma_record_same(s, t, frames, count);
                lemma_load_same_stacks(
                    shape_record(s, frames, count),
                    shape_record(t, frames, count),
                    lines.drop_first(),
                    n + 1,
                    m + 1,
                );
            },
        }
    }
}

/// Loading `front + rest` is loading `front`, then `rest` into what came of it.
proof fn lemma_load_split(s: Shape, front: Seq<Seq<u8>>, rest: Seq<Seq<u8>>, n: int)
    ensures
        load_lines(s, front + rest, n) == match load_lines(s, front, n) {
            Ok(s1) => load_lines(s1, rest, n + front.len()),
            Err(e) => Err(e),
        },
    decreases front.len(),
{
    if front.len() == 0 {
        assert(front + rest =~= rest);
    } else {
        assert((front + rest)[0] == front[0]);
        assert((front + rest).drop_first() =~= front.drop_first() + rest);
        match parse_line(decode_utf8(front[0])) {
            LineSpec::Blank => lemma_load_split(s, front.drop_first(), rest, n + 1),
            LineSpec::Bad => {},
            LineSpec::Sample { frames, count } => lemma_load_split(
                shape_record(s, frames, count),
                front.drop_first(),
                rest,
                n + 1,
            ),
        }
    }
}

/// Where loading `a`, `b`, then `rest` into a tidy shape succeeds, loading
/// `b`, `a`, then `rest` succeeds too, with the same stacks.
proof fn lemma_swap_first(s: Shape, a: Seq<u8>, b: Seq<u8>, rest: Seq<Seq<u8>>, n: int)
    requires
        tidy(s),
        load_lines(s, seq![a, b] + rest, n) is Ok,
    ensures
        load_lines(s, seq![b, a] + rest, n) is Ok,
        same_stacks(load_lines(s, seq![a, b] + rest, n)->Ok_0, load_lines(s, seq![b, a] + rest, n)->Ok_0),
{
    let ab = seq![a, b] + rest;
    let ba = seq![b, a] + rest;
    assert(ab[0] == a && ab.drop_first() =~= seq![b] + rest);
    assert(ba[0] == b && ba.drop_first() =~= seq![a] + rest);
    assert((seq![b] + rest)[0] == b && (seq![b] + rest).drop_first() =~= rest);
    assert((seq![a] + rest)[0] == a && (seq![a] + rest).drop_first() =~= rest);
    match (parse_line(decode_utf8(a)), parse_line(decode_utf8(b))) {
        (LineSpec::Sample { frames: f, count: x }, LineSpec::Sample { frames: g, count: y }) => {
            let sa = shape_record(s, f, x);
            let sab = shape_record(sa, g, y);
            assert(valid_utf8(a) && path_size(s, f) <= u32::MAX + 1);
            assert(load_lines(s, ab, n) == load_lines(sa, seq![b] + rest, n + 1));
            assert(valid_utf8(b) && path_size(sa, g) <= u32::MAX + 1);
            assert(load_lines(sa, seq![b] + rest, n + 1) == load_lines(sab, rest, n + 2));
            lemma_record_paths(s, f, x);
            lemma_record_paths(sa, g, y);
            let e = Seq::<Seq<char>>::empty();
            assert(path_of(s, 0) == e);
            assert forall|path: Seq<Seq<char>>| on_way(path_of(s, 0), g, path) implies #[trigger] has_path(sab, path) by {
                assert(e + g.take(path.len() - e.len()) =~= g.take(path.len() as int));
                assert(prefix_of(path, g));
            }
            lemma_size_within(s, 0, g, sab);
            lemma_record_paths(s, g, y);
            let sb = shape_record(s, g, y);
            assert(path_of(sb, 0) == e);
            assert forall|path: Seq<Seq<char>>| on_way(path_of(sb, 0), f, path) implies #[trigger] has_path(sab, path) by {
                assert(e + f.take(path.len() - e.len()) =~= f.take(path.len() as int));
                assert(prefix_of(path, f));
            }
            lemma_size_within(sb, 0, f, sab);
            lemma_record_paths(sb, f, x);
            let sba = shape_record(sb, f, x);
            lemma_record_totals(s, f, x);
            lemma_record_totals(sa, g, y);
            lemma_record_totals(s, g, y);
            lemma_record_totals(sb, f, x);
            assert(same_stacks(sab, sba)) by {
                assert forall|path: Seq<Seq<char>>| #[trigger] path_count(sab, path) == path_count(sba, path) by {
                    let c0 = path_count(s, path);
                    assert(c0 >= 0);
                }
                assert forall|path: Seq<Seq<char>>| #[trigger] path_total(sab, path) == path_total(sba, path) by {
                    let t0 = path_total(s, path);
                    assert(t0 >= 0);
                    assert(path_total(sa, path) >= 0);
                    assert(path_total(sb, path) >= 0);
                }
            }
            lemma_load_same_stacks(sab, sba, rest, n + 2, n + 2);
            assert(load_lines(s, ba, n) == load_lines(sb, seq![a] + rest, n + 1));
            assert(load_lines(sb, seq![a] + rest, n + 1) == load_lines(sba, rest, n + 2));
        },
        (LineSpec::Blank, LineSpec::Blank) => {
            assert(load_lines(s, ab, n) == load_lines(s, seq![b] + rest, n + 1));
            assert(load_lines(s, seq![b] + rest, n + 1) == load_lines(s, rest, n + 2));
            assert(load_lines(s, ba, n) == load_lines(s, seq![a] + rest, n + 1));
            assert(load_lines(s, seq![a] + rest, n + 1) == load_lines(s, rest, n + 2));
        },
        (LineSpec::Blank, LineSpec::Sample { frames: g, count: y }) => {
            let sb = shape_record(s, g, y);
            assert(load_lines(s, ab, n) == load_lines(s, seq![b] + rest, n + 1));
            assert(valid_utf8(b) && path_size(s, g) <= u32::MAX + 1);
            assert(load_lines(s, seq![b] + rest, n + 1) == load_lines(sb, rest, n + 2));
            assert(load_lines(s, ba, n) == load_lines(sb, seq![a] + rest, n + 1));
            assert(load_lines(sb, seq![a] + rest, n + 1) == load_lines(sb, rest, n + 2));
        },
        (LineSpec::Sample { frames: f, count: x }, LineSpec::Blank) => {
            let sa = shape_record(s, f, x);
            assert(valid_utf8(a) && path_size(s, f) <= u32::MAX + 1);
            assert(load_lines(s, ab, n) == load_lines(sa, seq![b] + rest, n + 1));
            assert(load_lines(sa, seq![b] + rest, n + 1) == load_lines(sa, rest, n + 2));
            assert(load_lines(s, ba, n) == load_lines(s, seq![a] + rest, n + 1));
            assert(load_lines(s, seq![a] + rest, n + 1) == load_lines(sa, rest, n + 2));
        },
        (LineSpec::Bad, _) => {
            assert(load_lines(s, ab, n) is Err);
        },
        (LineSpec::Blank, LineSpec::Bad) => {
            assert(load_lines(s, ab, n) == load_lines(s, seq![b] + rest, n + 1));
        },
        (LineSpec::Sample { frames: f, count: x }, LineSpec::Bad) => {
            let sa = shape_record(s, f, x);
            assert(load_lines(s, ab, n) == load_lines(sa, seq![b] + rest, n + 1));
        },
    }
}

/// The shape of a new tree: the root alone.
proof fn lemma_root_tidy()
    ensures
        tidy(root_shape()),
{
    let r = root_shape();
    assert forall|i: int, j: int|
        0 <= i < r.names.len() && 0 <= j < r.names.len() && i != j implies path_of(r, i) != path_of(r, j) by {}
}

/// Swapping two neighbouring lines, loaded into a tidy shape, changes
/// neither whether loading succeeds nor, when it does, the stacks it holds.
proof fn lemma_swap_at(s: Shape, front: Seq<Seq<u8>>, a: Seq<u8>, b: Seq<u8>, rest: Seq<Seq<u8>>, n: int)
    requires
        tidy(s),
    ensures
        load_lines(s, front + seq![a, b] + rest, n) is Ok <==> load_lines(s, front + seq![b, a] + rest, n) is Ok,
        load_lines(s, front + seq![a, b] + rest, n) is Ok ==> same_stacks(
            load_lines(s, front + seq![a, b] + rest, n)->Ok_0,
            load_lines(s, front + seq![b, a] + rest, n)->Ok_0,
        ),
{
    assert(front + seq![a, b] + rest =~= front + (seq![a, b] + rest));
    assert(front + seq![b, a] + rest =~= front + (seq![b, a] + rest));
    lemma_load_split(s, front, seq![a, b] + rest, n);
    lemma_load_split(s, front, seq![b, a] + rest, n);
    if let Ok(s1) = load_lines(s, front, n) {
        lemma_load_same_stacks(s, s, front, n, n);
        let m: int = n + front.len();
        if load_lines(s1, seq![a, b] + rest, m) is Ok {
            lemma_swap_first(s1, a, b, rest, m);
        }
        if load_lines(s1, seq![b, a] + rest, m) is Ok {
            lemma_swap_first(s1, b, a, rest, m);
        }
    }
}

/// Holding the same stacks is transitive.
proof fn lemma_same_stacks_trans(x: Shape, y: Shape, z: Shape)
    requires
        same_stacks(x, y),
        same_stacks(y, z),
    ensures
        same_stacks(x, z),
{
}

/// Moving line `k` to the front changes neither whether loading succeeds
/// nor, when it does, the stacks it holds.
proof fn lemma_move_to_front(s: Shape, lines: Seq<Seq<u8>>, k: int, n: int)
    requires
        tidy(s),
        0 <= k < lines.len(),
    ensures
        load_lines(s, lines, n) is Ok <==> load_lines(s, seq![lines[k]] + lines.remove(k), n) is Ok,
        load_lines(s, lines, n) is Ok ==> same_stacks(
            load_lines(s, lines, n)->Ok_0,
            load_lines(s, seq![lines[k]] + lines.remove(k), n)->Ok_0,
        ),
    decreases k,
{
    if k == 0 {
        assert(seq![lines[0]] + lines.remove(0) =~= lines);
    } else {
        let front = lines.take(k - 1);
        let rest = lines.skip(k + 1);
        let x = lines[k - 1];
        let y = lines[k];
        assert(lines =~= front + seq![x, y] + rest);
        let swapped = front + seq![y, x] + rest;
        lemma_swap_at(s, front, x, y, rest, n);
        assert(swapped[k - 1] == y);
        assert(swapped.remove(k - 1) =~= lines.remove(k));
        lemma_move_to_front(s, swapped, k - 1, n);
        if load_lines(s, lines, n) is Ok {
            lemma_same_stacks_trans(
                load_lines(s, lines, n)->Ok_0,
                load_lines(s, swapped, n)->Ok_0,
                load_lines(s, seq![y] + lines.remove(k), n)->Ok_0,
            );
        }
    }
}

/// Loading a reordering of lines that load into a tidy shape succeeds too,
/// with the same stacks.
proof fn lemma_reorder_from(s: Shape, a: Seq<Seq<u8>>, b: Seq<Seq<u8>>, n: int)
    requires
        tidy(s),
        a.to_multiset() == b.to_multiset(),
        load_lines(s, a, n) is Ok,
    ensures
        load_lines(s, b, n) is Ok,
        same_stacks(load_lines(s, a, n)->Ok_0, load_lines(s, b, n)->Ok_0),
    decreases a.len(),
{
    broadcast use vstd::seq_lib::group_to_multiset_ensures;

    if a.len() == 0 {
        assert(a.to_multiset().len() == 0);
        assert(b.to_multiset().len() == b.len());
        assert(b.len() == 0);
        assert(b =~= a);
    } else {
        let x = a[0];
        assert(a.contains(x));
        assert(b.to_multiset().count(x) > 0);
        assert(b.contains(x));
        let k = choose|k: int| 0 <= k < b.len() && b[k] == x;
        let a2 = a.remove(0);
        let b2 = b.remove(k);
        assert(a2.to_multiset() == b2.to_multiset());
        let moved = seq![x] + b2;
        assert(a =~= seq![x] + a2);
        assert(moved[0] == x && moved.drop_first() =~= b2);
        assert(a.drop_first() =~= a2);
        match parse_line(decode_utf8(x)) {
            LineSpec::Blank => {
                lemma_reorder_from(s, a2, b2, n + 1);
            },
            LineSpec::Bad => {},
            LineSpec::Sample { frames, count } => {
                lemma_record_paths(s, frames, count);
                lemma_reorder_from(shape_record(s, frames, count), a2, b2, n + 1);
            },
        }
        lemma_move_to_front(s, b, k, n);
        lemma_same_stacks_trans(
            load_lines(s, a, n)->Ok_0,
            load_lines(s, moved, n)->Ok_0,
            load_lines(s, b, n)->Ok_0,
        );
    }
}

/// Loading does not depend on the order of the lines: loading any
/// reordering of the same lines (the same lines, each as often) succeeds
/// exactly when loading them in the first order does, and then the two
/// trees have nodes at the same stacks, with the same own and inclusive
/// counts at each (see `lemma_counts_at_path` for the trees' nodes).
pub proof fn lemma_reorder_lines(a: Seq<Seq<u8>>, b: Seq<Seq<u8>>)
    requires
        a.to_multiset() == b.to_multiset(),
    ensures
        load_lines(root_shape(), a, 1) is Ok <==> load_lines(root_shape(), b, 1) is Ok,
        load_lines(root_shape(), a, 1) is Ok ==> same_stacks(
            load_lines(root_shape(), a, 1)->Ok_0,
            load_lines(root_shape(), b, 1)->Ok_0,
        ),
        load_lines(root_shape(), a, 1) is Ok ==> tidy(load_lines(root_shape(), a, 1)->Ok_0) && tidy(
            load_lines(root_shape(), b, 1)->Ok_0,
        ),
{
    lemma_root_tidy();
    if load_lines(root_shape(), a, 1) is Ok {
        lemma_load_same_stacks(root_shape(), root_shape(), a, 1, 1);
    }
    if load_lines(root_shape(), b, 1) is Ok {
        lemma_load_same_stacks(root_shape(), root_shape(), b, 1, 1);
    }
    if load_lines(root_shape(), a, 1) is Ok {
        lemma_reorder_from(root_shape(), a, b, 1);
    }
    if load_lines(root_shape(), b, 1) is Ok {
        lemma_reorder_from(root_shape(), b, a, 1);
    }
}

/// In a tree whose nodes lie at distinct paths, as every loaded tree's do,
/// a node's own and inclusive counts are those its shape records at the
/// node's path: trees with the same stacks agree on both at every path.
pub proof fn lemma_counts_at_path(t: FlameTree, j: int)
    requires
        t.wf(),
        tidy(t.shape()),
        0 <= j < t.len(),
    ensures
        t.nodes()[j].self_count == path_count(t.shape(), path_of(t.shape(), j)),
        t.nodes()[j].total_count == path_total(t.shape(), path_of(t.shape(), j)),
{
    t.lemma_total_is_subtree_sum(j);
    lemma_path_count_at(t.shape(), j);
    let k = choose|k: int| 0 <= k < t.shape().names.len() && path_of(t.shape(), k) == path_of(t.shape(), j);
    assert(k == j);
}

} // verus!
