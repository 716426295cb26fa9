use flameview::arena::FlameTree;
use flameview::loader::collapsed::load_slice;
use flameview::viewer::app::{Action, App, Key};
use flameview::viewer::spark_tree_view::{Row, RowState, SparkTreeView};

fn never(_running: u64, _total: u64) -> bool {
    false
}

fn fraction(f: f64) -> impl Fn(u64, u64) -> bool {
    move |running: u64, total: u64| running as f64 / total as f64 >= f
}

fn sample() -> FlameTree {
    load_slice(b"a;b 3\na;c 1\nd 2\ne 1\n").unwrap()
}

fn label(tree: &FlameTree, row: &Row) -> String {
    match row.state {
        RowState::Other => "Other".to_string(),
        _ => tree[row.node_id].name.clone(),
    }
}

fn labels<F: Fn(u64, u64) -> bool>(view: &SparkTreeView<F>) -> Vec<(String, usize, u64)> {
    let tree = view.tree_ref();
    view.rows().iter().map(|r| (label(tree, r), r.depth, r.cum_count)).collect()
}

fn depth_one_sum<F: Fn(u64, u64) -> bool>(view: &SparkTreeView<F>) -> u64 {
    view.rows().iter().filter(|r| r.depth == 1).map(|r| r.cum_count).sum()
}

#[test]
fn new_view_shows_root_children_and_other() {
    let tree = sample();
    let view = SparkTreeView::new(&tree, 3, never);
    assert_eq!(
        labels(&view),
        vec![
            ("root".to_string(), 0, 7),
            ("a".to_string(), 1, 4),
            ("d".to_string(), 1, 2),
            ("Other".to_string(), 1, 1),
        ]
    );
    assert_eq!(view.rows()[0].state, RowState::Expanded);
    assert_eq!(view.rows()[1].state, RowState::Collapsed);
    assert_eq!(view.rows()[3].node_id, 0);
    assert_eq!(view.cursor(), 0);
    assert!(view.show_spark());
}

#[test]
fn coverage_limits_shown_children() {
    let tree = sample();
    let view = SparkTreeView::new(&tree, 10, fraction(0.5));
    assert_eq!(
        labels(&view),
        vec![
            ("root".to_string(), 0, 7),
            ("a".to_string(), 1, 4),
            ("Other".to_string(), 1, 3),
        ]
    );
    let all = SparkTreeView::new(&tree, 10, never);
    assert_eq!(all.rows().len(), 4);
}

#[test]
fn first_level_counts_every_sample() {
    let tree = sample();
    for cov in [0.1, 0.5, 0.6, 0.7, 0.8, 0.9, 0.95, 0.99] {
        for lines in [0, 1, 2, 3, 4, 50] {
            let view = SparkTreeView::new(&tree, lines, fraction(cov));
            assert_eq!(depth_one_sum(&view), tree.total_samples(), "coverage {cov}, lines {lines}");
        }
    }
}

#[test]
fn expand_and_collapse_a_frame() {
    let tree = sample();
    let mut view = SparkTreeView::new(&tree, 3, never);
    view.down();
    assert_eq!(view.cursor(), 1);
    view.expand();
    assert_eq!(
        labels(&view),
        vec![
            ("root".to_string(), 0, 7),
            ("a".to_string(), 1, 4),
            ("b".to_string(), 2, 3),
            ("c".to_string(), 2, 1),
            ("d".to_string(), 1, 2),
            ("Other".to_string(), 1, 1),
        ]
    );
    assert_eq!(view.current_row().unwrap().state, RowState::Expanded);
    assert_eq!(depth_one_sum(&view), 7);
    view.collapse();
    assert_eq!(view.rows().len(), 4);
    assert_eq!(view.cursor(), 1);
}

#[test]
fn expanding_other_shows_all_children() {
    let tree = sample();
    let mut view = SparkTreeView::new(&tree, 3, never);
    view.up();
    assert_eq!(view.cursor(), 3);
    assert_eq!(view.current_row().unwrap().state, RowState::Other);
    view.expand();
    assert_eq!(
        labels(&view),
        vec![
            ("root".to_string(), 0, 7),
            ("a".to_string(), 1, 4),
            ("d".to_string(), 1, 2),
            ("e".to_string(), 1, 1),
        ]
    );
    assert_eq!(view.cursor(), 3);
}

#[test]
fn collapse_on_leaf_moves_to_parent_row() {
    let tree = sample();
    let mut view = SparkTreeView::new(&tree, 3, never);
    view.down();
    view.expand();
    view.down();
    view.down();
    assert_eq!(label(&tree, view.current_row().unwrap()), "c");
    view.collapse();
    assert_eq!(view.cursor(), 1);
    // the root row has no row above it
    view.up();
    view.collapse();
    assert_eq!(view.rows().len(), 1);
    view.collapse();
    assert_eq!(view.cursor(), 0);
}

#[test]
fn cursor_wraps_both_ways() {
    let tree = sample();
    let mut view = SparkTreeView::new(&tree, 3, never);
    view.up();
    assert_eq!(view.cursor(), 3);
    view.down();
    assert_eq!(view.cursor(), 0);
    view.down();
    view.up();
    assert_eq!(view.cursor(), 0);
}

#[test]
fn expanding_a_leaf_changes_nothing() {
    let tree = sample();
    let mut view = SparkTreeView::new(&tree, 10, never);
    view.down();
    view.down();
    assert_eq!(label(&tree, view.current_row().unwrap()), "d");
    let before = labels(&view);
    view.expand();
    assert_eq!(labels(&view), before);
    assert_eq!(view.cursor(), 2);
}

#[test]
fn toggling_sparks() {
    let tree = sample();
    let mut view = SparkTreeView::new(&tree, 3, never);
    view.toggle_spark();
    assert!(!view.show_spark());
    view.toggle_spark();
    assert!(view.show_spark());
}

#[test]
fn empty_tree_has_one_row() {
    let tree = FlameTree::new();
    let mut view = SparkTreeView::new(&tree, 5, never);
    assert_eq!(view.rows().len(), 1);
    assert_eq!(view.rows()[0].state, RowState::Collapsed);
    view.expand();
    view.down();
    assert_eq!(view.cursor(), 0);
}

#[test]
fn keys_drive_the_view() {
    let tree = sample();
    let mut app = App::new(&tree, 3, never);
    assert_eq!(app.on_key(Key::Down), Action::Continue);
    assert_eq!(app.view().cursor(), 1);
    assert_eq!(app.on_key(Key::Char('l')), Action::Continue);
    assert_eq!(app.view().rows().len(), 6);
    assert_eq!(app.on_key(Key::Char('h')), Action::Continue);
    assert_eq!(app.view().rows().len(), 4);
    app.on_key(Key::Enter);
    assert_eq!(app.view().rows().len(), 6);
    app.on_key(Key::Backspace);
    assert_eq!(app.view().rows().len(), 4);
    app.on_key(Key::Right);
    app.on_key(Key::Left);
    assert_eq!(app.view().rows().len(), 4);
    app.on_key(Key::Up);
    assert_eq!(app.view().cursor(), 0);
    app.on_key(Key::Char('s'));
    assert!(!app.view().show_spark());
    assert_eq!(app.on_key(Key::Other), Action::Continue);
    assert_eq!(app.on_key(Key::Char('x')), Action::Continue);
    assert_eq!(app.view().cursor(), 0);
    assert_eq!(app.on_key(Key::Char('q')), Action::Exit);
    assert_eq!(app.on_key(Key::Char('Q')), Action::Exit);
}

#[test]
fn row_labels_mark_state() {
    let tree = sample();
    let mut view = SparkTreeView::new(&tree, 3, never);
    let labels: Vec<String> = view.rows().iter().map(|r| view.row_label(r)).collect();
    assert_eq!(labels, vec!["▼ root", "  ▶ a", "    d", "  … Other"]);
    view.down();
    view.expand();
    let labels: Vec<String> = view.rows().iter().map(|r| view.row_label(r)).collect();
    assert_eq!(labels, vec!["▼ root", "  ▼ a", "      b", "      c", "    d", "  … Other"]);
}

#[test]
fn each_frame_has_one_row_at_most() {
    let tree = load_slice(b"a;b;c 3\na;b;d 1\na;e 2\nf 1\ng 1\n").unwrap();
    let mut view = SparkTreeView::new(&tree, 3, never);
    for _ in 0..12 {
        view.down();
        view.expand();
        let mut seen = std::collections::HashSet::new();
        for r in view.rows().iter().filter(|r| r.state != RowState::Other) {
            assert!(seen.insert(r.node_id), "frame {} shown twice", r.node_id);
        }
    }
}

#[test]
fn collapse_after_expand_restores_the_view() {
    let tree = load_slice(b"a;b;c 3\na;b;d 1\na;e 2\nf 1\ng 1\n").unwrap();
    let mut view = SparkTreeView::new(&tree, 3, never);
    view.down();
    view.expand();
    view.down();
    let before = labels(&view);
    let cursor = view.cursor();
    view.expand();
    assert!(view.rows().len() > before.len());
    view.collapse();
    assert_eq!(labels(&view), before);
    assert_eq!(view.cursor(), cursor);
}

#[test]
fn first_row_stays_the_root() {
    let tree = sample();
    let mut view = SparkTreeView::new(&tree, 3, never);
    view.down();
    view.expand();
    view.down();
    view.collapse();
    view.up();
    view.up();
    view.up();
    view.collapse();
    view.toggle_spark();
    assert_eq!(view.rows()[0].node_id, tree.root());
    assert_eq!(view.rows()[0].depth, 0);
    assert!(view.current_row().is_some());
}
