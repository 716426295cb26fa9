use std::io::Cursor;

use flameview::arena::FlameTree;
use flameview::loader::collapsed::{load_line, load_slice, load_stream};
use flameview::loader::Error;

fn path_count(tree: &FlameTree, path: &[&str]) -> Option<u64> {
    let mut node = tree.root();
    for name in path {
        node = tree.find_child(node, name)?;
    }
    Some(tree[node].self_count)
}

fn path_total(tree: &FlameTree, path: &[&str]) -> Option<u64> {
    let mut node = tree.root();
    for name in path {
        node = tree.find_child(node, name)?;
    }
    Some(tree[node].total_count)
}

#[test]
fn repeated_stacks_add_up() {
    let tree = load_slice(b"a;b 3\na;b 4\na 1\n").unwrap();
    assert_eq!(path_count(&tree, &["a", "b"]), Some(7));
    assert_eq!(path_count(&tree, &["a"]), Some(1));
    assert_eq!(tree.total_samples(), 8);
    assert_eq!(tree.node_count(), 3);
}

#[test]
fn blank_lines_and_white_space_are_skipped() {
    let tree = load_slice(b"\n   \n\t a;b 2 \r\n\n").unwrap();
    assert_eq!(path_count(&tree, &["a", "b"]), Some(2));
    assert_eq!(tree.total_samples(), 2);
}

#[test]
fn unicode_white_space_is_trimmed() {
    let tree = load_slice("\u{3000}a 5\u{2003}\n".as_bytes()).unwrap();
    assert_eq!(path_count(&tree, &["a"]), Some(5));
}

#[test]
fn count_after_last_space() {
    let tree = load_slice(b"main;do work 2\n").unwrap();
    assert_eq!(path_count(&tree, &["main", "do work"]), Some(2));
}

#[test]
fn plus_sign_and_tab_before_count() {
    let tree = load_slice(b"a +3\nb \t4\n").unwrap();
    assert_eq!(path_count(&tree, &["a"]), Some(3));
    assert_eq!(path_count(&tree, &["b"]), Some(4));
}

#[test]
fn empty_frames_are_kept() {
    let tree = load_slice(b"a;;b 1\n").unwrap();
    assert_eq!(path_count(&tree, &["a", "", "b"]), Some(1));
}

#[test]
fn bad_counts_are_errors() {
    for (input, line) in [
        (&b"a -1\n"[..], 1usize),
        (&b"a 1\na x\n"[..], 2),
        (&b"a 18446744073709551616\n"[..], 1),
        (&b"a +\n"[..], 1),
        (&b"a 1.5\n"[..], 1),
        (&b"\nnospace\n"[..], 2),
    ] {
        match load_slice(input) {
            Err(Error::BadLine(n)) => assert_eq!(n, line),
            other => panic!("unexpected {:?}", other.map(|t| t.total_samples())),
        }
    }
}

#[test]
fn largest_count_is_accepted() {
    let tree = load_slice(b"a 18446744073709551615\n").unwrap();
    assert_eq!(tree.total_samples(), u64::MAX);
}

#[test]
fn invalid_utf8_is_an_io_error() {
    let data = b"a 1\n\xff\xfe 2\n";
    assert!(matches!(load_slice(data), Err(Error::Io(_))));
    assert!(matches!(load_stream(Cursor::new(&data[..])), Err(Error::Io(_))));
}

#[test]
fn stream_and_slice_agree() {
    let data = b"x;y 1\nx;z 2\n\nw 3";
    let a = load_slice(data).unwrap();
    let b = load_stream(Cursor::new(&data[..])).unwrap();
    assert_eq!(a.total_samples(), b.total_samples());
    assert_eq!(a.node_count(), b.node_count());
    assert_eq!(path_count(&b, &["x", "z"]), Some(2));
    assert_eq!(path_count(&b, &["w"]), Some(3));
}

#[test]
fn load_line_reports_its_number() {
    let mut tree = FlameTree::new();
    assert!(load_line(&mut tree, "   ", 4).is_ok());
    assert_eq!(tree.node_count(), 1);
    assert!(matches!(load_line(&mut tree, "oops", 7), Err(Error::BadLine(7))));
    assert!(load_line(&mut tree, "a;b 9", 8).is_ok());
    assert_eq!(tree.total_samples(), 9);
}

#[test]
fn total_is_sum_of_line_counts() {
    let tree = load_slice(b"a;b 1\nb 2\na;c 3\nc;d;e 4\n").unwrap();
    assert_eq!(tree.total_samples(), 10);
}

#[test]
fn load_reads_through_a_buffer() {
    let data: &[u8] = b"a;b 3\na;c 2\n";
    let tree = flameview::loader::collapsed::load(data).unwrap();
    assert_eq!(tree.total_samples(), 5);
    assert!(matches!(
        flameview::loader::collapsed::load(&b"x\n"[..]),
        Err(flameview::loader::Error::BadLine(1))
    ));
}

#[test]
fn line_order_does_not_change_stack_counts() {
    let one = load_slice(b"a;b 3\nc 1\na 2\na;b 4\n").unwrap();
    let two = load_slice(b"a 2\na;b 4\nc 1\na;b 3\n").unwrap();
    for path in [&["a"][..], &["a", "b"][..], &["c"][..], &["b"][..], &[][..]] {
        assert_eq!(path_count(&one, path), path_count(&two, path), "{:?}", path);
        assert_eq!(path_total(&one, path), path_total(&two, path), "{:?}", path);
    }
    assert_eq!(path_total(&one, &["a"]), Some(9));
    assert_eq!(path_count(&one, &["a", "b"]), Some(7));
    assert_eq!(one.node_count(), two.node_count());
    assert_eq!(one.total_samples(), two.total_samples());
    assert!(load_slice(b"a 1\nbad\n").is_err());
    assert!(load_slice(b"bad\na 1\n").is_err());
}
