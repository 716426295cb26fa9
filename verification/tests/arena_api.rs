use flameview::arena::FlameTree;

#[test]
fn get_or_insert_child_is_idempotent() {
    let mut tree = FlameTree::new();
    let a = tree.get_or_insert_child(0, "a");
    let n = tree.node_count();
    let again = tree.get_or_insert_child(0, "a");
    assert_eq!(a, again);
    assert_eq!(tree.node_count(), n);
    assert_eq!(tree[a].name, "a");
    assert_eq!(tree[a].self_count, 0);
}

#[test]
fn find_child_prefers_most_recent_duplicate() {
    let mut tree = FlameTree::new();
    let first = tree.insert_child(0, "x", 1);
    let second = tree.insert_child(0, "x", 2);
    assert_ne!(first, second);
    assert_eq!(tree.find_child(0, "x"), Some(second));
    assert_eq!(tree.find_child(0, "y"), None);
    assert_eq!(tree.find_child(first, "x"), None);
}

#[test]
fn add_samples_updates_ancestors_only() {
    let mut tree = FlameTree::new();
    let a = tree.insert_child(0, "a", 0);
    let b = tree.insert_child(a, "b", 0);
    let c = tree.insert_child(0, "c", 4);
    tree.add_samples(b, 3);
    assert_eq!(tree[b].self_count, 3);
    assert_eq!(tree[b].total_count, 3);
    assert_eq!(tree[a].self_count, 0);
    assert_eq!(tree[a].total_count, 3);
    assert_eq!(tree[c].total_count, 4);
    assert_eq!(tree.total_samples(), 7);
}

#[test]
fn counts_saturate_at_u64_max() {
    let mut tree = FlameTree::new();
    let a = tree.insert_child(0, "a", u64::MAX - 1);
    tree.add_samples(a, 5);
    assert_eq!(tree[a].self_count, u64::MAX);
    assert_eq!(tree.total_samples(), u64::MAX);
    let b = tree.insert_child(0, "b", 1);
    assert_eq!(tree[b].total_count, 1);
    assert_eq!(tree.total_samples(), u64::MAX);
}

#[test]
fn new_tree_has_only_root() {
    let tree = FlameTree::default();
    assert_eq!(tree.node_count(), 1);
    assert_eq!(tree.root(), 0);
    assert_eq!(tree[0].name, "root");
    assert_eq!(tree[0].first_child, None);
    assert_eq!(tree.total_samples(), 0);
}

#[test]
fn child_ids_lists_youngest_first() {
    let mut tree = FlameTree::new();
    let a = tree.insert_child(0, "a", 1);
    let b = tree.insert_child(0, "b", 1);
    let c = tree.insert_child(0, "c", 1);
    assert_eq!(tree.child_ids(0), vec![c, b, a]);
    assert_eq!(tree.child_ids(a), Vec::<u32>::new());
}

#[test]
fn total_is_own_count_plus_children_totals() {
    let tree = flameview::loader::collapsed::load_slice(b"a;b 3\na 2\na;c;d 4\ne 1\n").unwrap();
    for id in 0..tree.node_count() as u32 {
        let node = &tree[id];
        let children: u64 = tree.child_ids(id).iter().map(|&c| tree[c].total_count).sum();
        assert_eq!(node.total_count, node.self_count + children, "node {}", node.name);
    }
    assert_eq!(tree.total_samples(), 10);
    assert_eq!(tree[tree.root()].self_count, 0);
}

#[test]
fn saturated_total_is_saturated_sum_of_parts() {
    let mut tree = FlameTree::new();
    let a = tree.insert_child(0, "a", u64::MAX - 5);
    let b = tree.insert_child(0, "b", 10);
    tree.add_samples(0, 3);
    let parts = tree[a]
        .total_count
        .saturating_add(tree[b].total_count)
        .saturating_add(tree[0].self_count);
    assert_eq!(tree[0].total_count, u64::MAX);
    assert_eq!(tree[0].total_count, parts);
}
