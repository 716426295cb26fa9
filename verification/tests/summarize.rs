use flameview::arena::FlameTree;
use flameview::loader::collapsed::load_slice;

fn covers(fraction: f64) -> impl Fn(u64, u64) -> bool {
    move |running: u64, total: u64| running as f64 / total as f64 >= fraction
}

/// The summary text: the root, then the summary rows indented by depth.
fn summarize(tree: &FlameTree, max_lines: usize, coverage: f64) -> String {
    let total = tree[tree.root()].total_count;
    let mut out = format!("(root) (100.0%, {total})");
    for row in tree.summary_rows(max_lines, &covers(coverage)) {
        let node = &tree[row.id];
        out.push('\n');
        out.push_str(&"  ".repeat(row.depth));
        out.push_str(&format!(
            "{} ({:.1}%, {})",
            node.name,
            node.total_count as f64 / total as f64 * 100.0,
            node.total_count
        ));
    }
    out
}

const SMALL: &[u8] = b"main;parse;lex 30\nmain;parse;tree 20\nmain;eval 25\nmain;eval;call;add 10\nmain;io 5\nidle 10\nmain;parse;lex;next 4\n";

#[test]
fn summary_limits_lines_and_coverage() {
    let tree = load_slice(SMALL).unwrap();
    let out = summarize(&tree, 5, 0.90);
    let n = out.lines().count();
    assert!(n <= 6, "root + \u{2264}5 children");
    assert!(out.contains("(root)"));
    assert!(out.contains("  "));
}

#[test]
fn summarize_handles_large_counts() {
    let data = b"a 18446744073709551615\nb;c 18446744073709551615\na;d 18446744073709551615\nb 7\n";
    let tree = load_slice(data).expect("load fuzz artifact");
    let _ = summarize(&tree, 100, 1.0);
    assert_eq!(tree.total_samples(), u64::MAX);
}
