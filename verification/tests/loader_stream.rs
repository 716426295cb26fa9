use std::io::Cursor;

use flameview::loader::{self, collapsed};

#[test]
fn bad_line_number_zero_based() {
    let data = b"a;b 1\nc;d 2\nfoo\n";
    let err = collapsed::load_stream(Cursor::new(&data[..]))
        .err()
        .unwrap();
    assert!(matches!(err, loader::Error::BadLine(3)));
}
