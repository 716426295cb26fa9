use flameview::add_one;

#[test]
fn adds_one() {
    assert_eq!(add_one(41), 42);
}
