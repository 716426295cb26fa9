use flameview::arena::FlameTree;
use flameview::loader::collapsed::load_slice;
use flameview::summarize::SummaryRow;

fn never(_running: u64, _total: u64) -> bool {
    false
}

fn fraction(f: f64) -> impl Fn(u64, u64) -> bool {
    move |running: u64, total: u64| running as f64 / total as f64 >= f
}

fn names(tree: &FlameTree, rows: &[SummaryRow]) -> Vec<(String, usize)> {
    rows.iter().map(|r| (tree[r.id].name.clone(), r.depth)).collect()
}

#[test]
fn depth_first_heaviest_first() {
    let tree = load_slice(b"a;x 1\nb;y 5\nb;z 2\na;w 3\nc 1\n").unwrap();
    let rows = tree.summary_rows(100, &never);
    let got = names(&tree, &rows);
    let want: Vec<(String, usize)> = vec![
        ("b".into(), 1),
        ("y".into(), 2),
        ("z".into(), 2),
        ("a".into(), 1),
        ("w".into(), 2),
        ("x".into(), 2),
        ("c".into(), 1),
    ];
    assert_eq!(got, want);
}

#[test]
fn equal_totals_keep_sibling_order() {
    let tree = load_slice(b"p 2\nq 2\nr 2\n").unwrap();
    let rows = tree.summary_rows(10, &never);
    // siblings are listed youngest first, and the sort is stable
    let got: Vec<String> = rows.iter().map(|r| tree[r.id].name.clone()).collect();
    assert_eq!(got, vec!["r", "q", "p"]);
}

#[test]
fn max_lines_truncates() {
    let tree = load_slice(b"a;b;c 2\nd 1\n").unwrap();
    let rows = tree.summary_rows(2, &never);
    assert_eq!(names(&tree, &rows), vec![("a".to_string(), 1), ("b".to_string(), 2)]);
    let rows = tree.summary_rows(3, &never);
    assert_eq!(rows.len(), 3);
    assert_eq!(tree[rows[2].id].name, "c");
    assert!(tree.summary_rows(0, &never).is_empty());
}

#[test]
fn empty_tree_has_no_rows() {
    let tree = load_slice(b"a 0\n").unwrap();
    assert_eq!(tree.total_samples(), 0);
    assert!(tree.summary_rows(10, &never).is_empty());
}

#[test]
fn ordered_children_by_total() {
    let tree = load_slice(b"a 1\nb 3\nc 2\n").unwrap();
    let ids = tree.ordered_child_ids(0);
    let got: Vec<&str> = ids.iter().map(|&i| tree[i].name.as_str()).collect();
    assert_eq!(got, vec!["b", "c", "a"]);
}

#[test]
fn coverage_stops_summary() {
    let tree = load_slice(b"a 1\nb 3\nc 2\n").unwrap();
    // b alone covers half of the samples
    let rows = tree.summary_rows(10, &fraction(0.5));
    assert_eq!(names(&tree, &rows), vec![("b".to_string(), 1)]);
    let rows = tree.summary_rows(10, &fraction(0.8));
    assert_eq!(names(&tree, &rows), vec![("b".to_string(), 1), ("c".to_string(), 1)]);
    // nothing is needed when no coverage is asked for
    assert!(tree.summary_rows(10, &fraction(0.0)).is_empty());
    assert_eq!(tree.summary_rows(10, &fraction(1.0)).len(), 3);
}

#[test]
fn coverage_counts_own_samples_only() {
    // a has no own samples: listing it covers nothing yet
    let tree = load_slice(b"a;b 4\nc 1\n").unwrap();
    let rows = tree.summary_rows(10, &fraction(0.5));
    assert_eq!(names(&tree, &rows), vec![("a".to_string(), 1), ("b".to_string(), 2)]);
}

#[test]
fn full_summary_counts_every_sample() {
    let tree = load_slice(b"a;b 3\na 2\na;c;d 4\ne 1\nf;g 0\n").unwrap();
    let rows = tree.summary_rows(usize::MAX, &never);
    assert_eq!(rows.len(), tree.node_count() - 1);
    let mut ids: Vec<u32> = rows.iter().map(|r| r.id).collect();
    ids.sort();
    let expected: Vec<u32> = (1..tree.node_count() as u32).collect();
    assert_eq!(ids, expected);
    let own: u64 = rows.iter().map(|r| tree[r.id].self_count).sum();
    assert_eq!(own + tree[tree.root()].self_count, tree.total_samples());
    assert_eq!(own, 10);
}
