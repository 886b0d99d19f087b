use sparse_matrix::matrix::{MatrixError, SparseMatrix};
use sparse_matrix::ops::{parse_op, Op};

fn mat(rows: i64, cols: i64, cells: &[(i64, i64, i64)]) -> SparseMatrix {
    let mut m = SparseMatrix::new(rows, cols);
    for &(r, c, v) in cells {
        m.add_to_value(r, c, v);
    }
    m
}

fn peek(m: &SparseMatrix, r: i64, c: i64) -> Option<i64> {
    m.peek_value(r, c).expect("coordinate within extents")
}

#[test]
fn new_is_empty() {
    let m = SparseMatrix::new(4, 7);
    assert_eq!(m.rows, 4);
    assert_eq!(m.cols, 7);
    assert_eq!(m.entries.len(), 0);
    assert_eq!(peek(&m, 1, 1), None);
    assert_eq!(peek(&m, 4, 7), None);
}

#[test]
fn peek_out_of_bounds_is_error() {
    let m = SparseMatrix::new(2, 2);
    assert_eq!(m.peek_value(3, 1), Err(MatrixError::BoundsError));
    assert_eq!(m.peek_value(1, 0), Err(MatrixError::BoundsError));
    assert_eq!(m.peek_value(0, 1), Err(MatrixError::BoundsError));
}

#[test]
fn consume_removes_the_entry() {
    let mut m = mat(2, 2, &[(1, 2, 9)]);
    assert_eq!(m.consume_value(1, 2), Ok(Some(9)));
    assert_eq!(peek(&m, 1, 2), None);
    assert_eq!(m.consume_value(1, 2), Ok(None));
    assert_eq!(m.consume_value(3, 3), Err(MatrixError::BoundsError));
}

#[test]
fn accumulate_prunes_zero() {
    let mut m = SparseMatrix::new(3, 3);
    m.add_to_value(2, 2, 5);
    assert_eq!(peek(&m, 2, 2), Some(5));
    m.add_to_value(2, 2, -5);
    assert_eq!(peek(&m, 2, 2), None);
    assert_eq!(m.entries.len(), 0);
}

#[test]
fn accumulate_adds_to_existing() {
    let mut m = SparseMatrix::new(3, 3);
    m.add_to_value(1, 1, 5);
    m.add_to_value(1, 1, 3);
    assert_eq!(peek(&m, 1, 1), Some(8));
    m.add_to_value(1, 1, 0);
    assert_eq!(peek(&m, 1, 1), Some(8));
    assert_eq!(m.entries.len(), 1);
}

#[test]
fn add_combines_cells() {
    let a = mat(2, 2, &[(1, 1, 1), (1, 2, 2)]);
    let b = mat(2, 2, &[(1, 2, 5), (2, 1, 7)]);
    let s = a.add(&b).expect("shapes match");
    assert_eq!(s.rows, 2);
    assert_eq!(s.cols, 2);
    assert_eq!(peek(&s, 1, 1), Some(1));
    assert_eq!(peek(&s, 1, 2), Some(7));
    assert_eq!(peek(&s, 2, 1), Some(7));
    assert_eq!(peek(&s, 2, 2), None);
}

#[test]
fn add_prunes_cancelled_cells() {
    let a = mat(1, 1, &[(1, 1, 4)]);
    let b = mat(1, 1, &[(1, 1, -4)]);
    let s = a.add(&b).expect("shapes match");
    assert_eq!(s.entries.len(), 0);
}

#[test]
fn add_zero_is_identity() {
    let m = mat(3, 2, &[(1, 1, -2), (3, 2, 8)]);
    let z = SparseMatrix::new(3, 2);
    let s = m.add(&z).expect("shapes match");
    assert_eq!(peek(&s, 1, 1), Some(-2));
    assert_eq!(peek(&s, 3, 2), Some(8));
    assert_eq!(s.entries.len(), 2);
}

#[test]
fn add_commutes() {
    let a = mat(2, 3, &[(1, 1, 1), (2, 3, -6)]);
    let b = mat(2, 3, &[(1, 1, 2), (1, 3, 4)]);
    let ab = a.add(&b).expect("shapes match");
    let ba = b.add(&a).expect("shapes match");
    for r in 1..=2 {
        for c in 1..=3 {
            assert_eq!(peek(&ab, r, c), peek(&ba, r, c));
        }
    }
    assert_eq!(ab.entries.len(), ba.entries.len());
}

#[test]
fn sub_self_is_empty() {
    let a = mat(1, 1, &[(1, 1, 3)]);
    let b = mat(1, 1, &[(1, 1, 3)]);
    let d = a.sub(&b).expect("shapes match");
    assert_eq!(d.entries.len(), 0);
    assert_eq!(peek(&d, 1, 1), None);
}

#[test]
fn sub_negates_right_only_cells() {
    let a = mat(2, 2, &[(1, 1, 5)]);
    let b = mat(2, 2, &[(1, 1, 2), (2, 2, 3)]);
    let d = a.sub(&b).expect("shapes match");
    assert_eq!(peek(&d, 1, 1), Some(3));
    assert_eq!(peek(&d, 2, 2), Some(-3));
}

#[test]
fn add_rejects_shape_mismatch() {
    let a = SparseMatrix::new(2, 2);
    let b = SparseMatrix::new(2, 3);
    assert_eq!(a.add(&b).unwrap_err(), MatrixError::DimensionMismatchError);
    let c = SparseMatrix::new(3, 2);
    assert_eq!(a.sub(&c).unwrap_err(), MatrixError::DimensionMismatchError);
}

#[test]
fn mul_rejects_inner_mismatch() {
    let a = SparseMatrix::new(2, 3);
    let b = SparseMatrix::new(2, 2);
    assert_eq!(a.mul(&b).unwrap_err(), MatrixError::DimensionMismatchError);
}

#[test]
fn mul_identity_like_scenario() {
    let a = mat(2, 2, &[(1, 1, 1), (2, 2, 1)]);
    let b = mat(2, 2, &[(1, 1, 5), (1, 2, 3)]);
    let p = a.mul(&b).expect("inner extents match");
    assert_eq!(p.rows, 2);
    assert_eq!(p.cols, 2);
    assert_eq!(peek(&p, 1, 1), Some(5));
    assert_eq!(peek(&p, 1, 2), Some(3));
    assert_eq!(peek(&p, 2, 1), None);
    assert_eq!(peek(&p, 2, 2), None);
    assert_eq!(p.entries.len(), 2);
}

#[test]
fn mul_sums_partial_products() {
    // (1x2) * (2x1): a dot product with both terms present
    let a = mat(1, 2, &[(1, 1, 2), (1, 2, 3)]);
    let b = mat(2, 1, &[(1, 1, 10), (2, 1, 100)]);
    let p = a.mul(&b).expect("inner extents match");
    assert_eq!(p.rows, 1);
    assert_eq!(p.cols, 1);
    assert_eq!(peek(&p, 1, 1), Some(320));
}

#[test]
fn mul_prunes_cancelled_products() {
    let a = mat(1, 2, &[(1, 1, 1), (1, 2, 1)]);
    let b = mat(2, 1, &[(1, 1, 4), (2, 1, -4)]);
    let p = a.mul(&b).expect("inner extents match");
    assert_eq!(p.entries.len(), 0);
}

#[test]
fn mul_distributes_over_add() {
    let a = mat(2, 2, &[(1, 1, 2), (1, 2, -1), (2, 2, 3)]);
    let b = mat(2, 2, &[(1, 1, 1), (2, 1, 4)]);
    let c = mat(2, 2, &[(1, 1, -1), (2, 2, 5)]);
    let bc = b.add(&c).expect("shapes match");
    let left = a.mul(&bc).expect("inner extents match");
    let ab = a.mul(&b).expect("inner extents match");
    let ac = a.mul(&c).expect("inner extents match");
    let right = ab.add(&ac).expect("shapes match");
    for r in 1..=2 {
        for k in 1..=2 {
            assert_eq!(peek(&left, r, k), peek(&right, r, k));
        }
    }
    assert_eq!(left.entries.len(), right.entries.len());
}

#[test]
fn parse_op_recognizes_the_three_tokens() {
    assert_eq!(parse_op(b"add"), Ok(Op::Add('+')));
    assert_eq!(parse_op(b"sub"), Ok(Op::Sub('-')));
    assert_eq!(parse_op(b"mul"), Ok(Op::Mul('*')));
}

#[test]
fn parse_op_rejects_other_tokens() {
    assert_eq!(parse_op(b"div"), Err(MatrixError::InvalidOperationError));
    assert_eq!(parse_op(b"ADD"), Err(MatrixError::InvalidOperationError));
    assert_eq!(parse_op(b"addx"), Err(MatrixError::InvalidOperationError));
    assert_eq!(parse_op(b""), Err(MatrixError::InvalidOperationError));
}
