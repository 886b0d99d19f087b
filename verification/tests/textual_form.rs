use sparse_matrix::matrix::{MatrixError, SparseMatrix};

fn mat(rows: i64, cols: i64, cells: &[(i64, i64, i64)]) -> SparseMatrix {
    let mut m = SparseMatrix::new(rows, cols);
    for &(r, c, v) in cells {
        m.add_to_value(r, c, v);
    }
    m
}

fn peek(m: &SparseMatrix, r: i64, c: i64) -> Option<i64> {
    m.peek_value(r, c).expect("coordinate within extents")
}

#[test]
fn to_text_renders_headers_and_entries() {
    let m = mat(2, 3, &[(1, 2, -7)]);
    let text = m.to_text();
    assert_eq!(text, b"rows=2\ncols=3\n(1, 2, -7)\n".to_vec());
}

#[test]
fn to_text_of_empty_matrix() {
    let m = SparseMatrix::new(5, 6);
    assert_eq!(m.to_text(), b"rows=5\ncols=6\n".to_vec());
}

#[test]
fn from_source_reads_headers_and_entries() {
    let m = SparseMatrix::from_source(b"rows=2\ncols=2\n(1, 1, 5)\n(2, 2, -3)\n").unwrap();
    assert_eq!(m.rows, 2);
    assert_eq!(m.cols, 2);
    assert_eq!(peek(&m, 1, 1), Some(5));
    assert_eq!(peek(&m, 2, 2), Some(-3));
    assert_eq!(m.entries.len(), 2);
}

#[test]
fn from_source_accepts_headers_after_entries() {
    let m = SparseMatrix::from_source(b"(1, 1, 4)\nrows=1\ncols=1\n").unwrap();
    assert_eq!(m.rows, 1);
    assert_eq!(m.cols, 1);
    assert_eq!(peek(&m, 1, 1), Some(4));
}

#[test]
fn from_source_ignores_unrecognized_lines() {
    let m = SparseMatrix::from_source(b"# a comment\nrows=1\n\ncols=1\nnoise here\n(1, 1, 2)\n")
        .unwrap();
    assert_eq!(peek(&m, 1, 1), Some(2));
}

#[test]
fn from_source_trims_whitespace() {
    let m = SparseMatrix::from_source(b"  rows= 2 \r\n\tcols=2\n  (2, 1, 9)  \n").unwrap();
    assert_eq!(m.rows, 2);
    assert_eq!(m.cols, 2);
    assert_eq!(peek(&m, 2, 1), Some(9));
}

#[test]
fn from_source_drops_zero_valued_entries() {
    let m = SparseMatrix::from_source(b"rows=2\ncols=2\n(1, 1, 0)\n").unwrap();
    assert_eq!(m.entries.len(), 0);
    assert_eq!(peek(&m, 1, 1), None);
}

#[test]
fn from_source_lets_a_later_entry_win() {
    let m = SparseMatrix::from_source(b"rows=1\ncols=1\n(1, 1, 5)\n(1, 1, 6)\n").unwrap();
    assert_eq!(peek(&m, 1, 1), Some(6));
    assert_eq!(m.entries.len(), 1);
    let z = SparseMatrix::from_source(b"rows=1\ncols=1\n(1, 1, 5)\n(1, 1, 0)\n").unwrap();
    assert_eq!(peek(&z, 1, 1), None);
}

#[test]
fn from_source_rejects_bad_header_value() {
    assert_eq!(
        SparseMatrix::from_source(b"rows=two\ncols=2\n").unwrap_err(),
        MatrixError::ParseError
    );
    assert_eq!(SparseMatrix::from_source(b"rows\n").unwrap_err(), MatrixError::ParseError);
}

#[test]
fn from_source_rejects_bad_triples() {
    assert_eq!(
        SparseMatrix::from_source(b"rows=2\ncols=2\n(1, 2)\n").unwrap_err(),
        MatrixError::ParseError
    );
    assert_eq!(
        SparseMatrix::from_source(b"rows=2\ncols=2\n(1, 2, 3, 4)\n").unwrap_err(),
        MatrixError::ParseError
    );
    assert_eq!(
        SparseMatrix::from_source(b"rows=2\ncols=2\n(1, x, 3)\n").unwrap_err(),
        MatrixError::ParseError
    );
    assert_eq!(
        SparseMatrix::from_source(b"rows=2\ncols=2\n(1, 1, 99999999999999999999)\n").unwrap_err(),
        MatrixError::ParseError
    );
}

#[test]
fn from_source_rejects_out_of_extent_entries() {
    assert_eq!(
        SparseMatrix::from_source(b"rows=2\ncols=2\n(3, 1, 5)\n").unwrap_err(),
        MatrixError::BoundsError
    );
    assert_eq!(
        SparseMatrix::from_source(b"(1, 1, 5)\n").unwrap_err(),
        MatrixError::BoundsError
    );
}

#[test]
fn from_source_reads_extreme_values() {
    let m = SparseMatrix::from_source(
        b"rows=1\ncols=2\n(1, 1, 9223372036854775807)\n(1, 2, -9223372036854775808)\n",
    )
    .unwrap();
    assert_eq!(peek(&m, 1, 1), Some(i64::MAX));
    assert_eq!(peek(&m, 1, 2), Some(i64::MIN));
}

#[test]
fn round_trip_preserves_the_matrix() {
    let m = mat(3, 4, &[(1, 1, 42), (2, 3, -17), (3, 4, i64::MAX), (1, 4, i64::MIN)]);
    let back = SparseMatrix::from_source(&m.to_text()).unwrap();
    assert_eq!(back.rows, m.rows);
    assert_eq!(back.cols, m.cols);
    assert_eq!(back.entries.len(), m.entries.len());
    for r in 1..=3 {
        for c in 1..=4 {
            assert_eq!(peek(&back, r, c), peek(&m, r, c));
        }
    }
}

#[test]
fn round_trip_of_empty_matrix() {
    let m = SparseMatrix::new(7, 9);
    let back = SparseMatrix::from_source(&m.to_text()).unwrap();
    assert_eq!(back.rows, 7);
    assert_eq!(back.cols, 9);
    assert_eq!(back.entries.len(), 0);
}
