//! Addition, subtraction and multiplication of sparse matrices.
//!
//! Addition and subtraction walk the union of both operands' coordinates;
//! multiplication first groups the right operand's entries by row, then
//! accumulates one partial product per matching pair of entries.

use std::collections::HashMap;

use vstd::prelude::*;

use crate::matrix::{
    acc_map, key_of, lemma_map_at_index, lemma_map_dom, lemma_wf_map, map_of_entries, seq_has_key,
    val_at, Entry, MatrixError, SparseMatrix,
};

verus! {

broadcast use vstd::std_specs::hash::group_hash_axioms;

/// The magnitude of an integer.
pub open spec fn abs_of(x: int) -> int {
    if x < 0 {
        -x
    } else {
        x
    }
}

/// One cell of a product: the dot product of row `i` of `a` with column `k`
/// of `b`, the inner coordinate running over `1..=n`.
pub open spec fn mul_cell(a: Map<(int, int), int>, b: Map<(int, int), int>, n: int, i: int, k: int) -> int
    decreases n,
{
    if n <= 0 {
        0
    } else {
        mul_cell(a, b, n - 1, i, k) + val_at(a, i, n) * val_at(b, n, k)
    }
}

/// The same dot product over the magnitudes of the factors: a bound on every
/// partial sum the product computation can pass through, whatever the order.
pub open spec fn abs_mul_cell(a: Map<(int, int), int>, b: Map<(int, int), int>, n: int, i: int, k: int) -> int
    decreases n,
{
    if n <= 0 {
        0
    } else {
        abs_mul_cell(a, b, n - 1, i, k) + abs_of(val_at(a, i, n)) * abs_of(val_at(b, n, k))
    }
}

/// The entry mapping of `a * b` with inner extent `n`: every coordinate
/// carries its dot product, and zero dot products are absent.
pub open spec fn mul_map(a: Map<(int, int), int>, b: Map<(int, int), int>, n: int) -> Map<(int, int), int> {
    Map::new(
        |p: (int, int)| mul_cell(a, b, n, p.0, p.1) != 0,
        |p: (int, int)| mul_cell(a, b, n, p.0, p.1),
    )
}

/// Every magnitude dot product fits in the value type, so no partial sum of
/// the product can overflow.
pub open spec fn mul_fits(a: Map<(int, int), int>, b: Map<(int, int), int>, n: int) -> bool {
    forall|i: int, k: int| #[trigger] abs_mul_cell(a, b, n, i, k) <= i64::MAX
}

/// The cell-wise value of a sum or difference: subtraction when `sub` holds.
pub open spec fn lin_val(a: Map<(int, int), int>, b: Map<(int, int), int>, sub: bool, r: int, c: int) -> int {
    if sub {
        val_at(a, r, c) - val_at(b, r, c)
    } else {
        val_at(a, r, c) + val_at(b, r, c)
    }
}

/// The mapping of a sum or difference: every coordinate carries the cell-wise
/// combination, and coordinates whose combination is zero are absent.
pub open spec fn lin_map(a: Map<(int, int), int>, b: Map<(int, int), int>, sub: bool) -> Map<(int, int), int> {
    Map::new(
        |p: (int, int)| lin_val(a, b, sub, p.0, p.1) != 0,
        |p: (int, int)| lin_val(a, b, sub, p.0, p.1),
    )
}

/// The entry mapping of `a + b`.
pub open spec fn add_map(a: Map<(int, int), int>, b: Map<(int, int), int>) -> Map<(int, int), int> {
    lin_map(a, b, false)
}

/// The entry mapping of `a - b`.
pub open spec fn sub_map(a: Map<(int, int), int>, b: Map<(int, int), int>) -> Map<(int, int), int> {
    lin_map(a, b, true)
}

/// Every cell-wise combination of the two operands fits in the value type.
pub open spec fn lin_fits(a: Map<(int, int), int>, b: Map<(int, int), int>, sub: bool) -> bool {
    forall|r: int, c: int| i64::MIN <= #[trigger] lin_val(a, b, sub, r, c) <= i64::MAX
}

/// Reading a cell of a sum or difference gives the cell-wise combination.
pub proof fn lemma_lin_map_val(a: Map<(int, int), int>, b: Map<(int, int), int>, sub: bool, r: int, c: int)
    ensures
        val_at(lin_map(a, b, sub), r, c) == lin_val(a, b, sub, r, c),
        lin_map(a, b, sub).dom().contains((r, c)) <==> lin_val(a, b, sub, r, c) != 0,
{
}

/// Accumulating a delta changes the cell it names and no other.
pub proof fn lemma_acc_map_val(m: Map<(int, int), int>, r: int, c: int, d: int)
    ensures
        forall|r2: int, c2: int|
            #[trigger] val_at(acc_map(m, r, c, d), r2, c2) == if r2 == r && c2 == c {
                val_at(m, r, c) + d
            } else {
                val_at(m, r2, c2)
            },
{
}

/// Two mappings that agree on every cell and store no zero are equal.
pub proof fn lemma_no_zero_ext(m1: Map<(int, int), int>, m2: Map<(int, int), int>)
    requires
        forall|r: int, c: int| #[trigger] val_at(m1, r, c) == #[trigger] val_at(m2, r, c),
        forall|k: (int, int)| #[trigger] m1.dom().contains(k) ==> m1[k] != 0,
        forall|k: (int, int)| #[trigger] m2.dom().contains(k) ==> m2[k] != 0,
    ensures
        m1 == m2,
{
    assert forall|k: (int, int)| #[trigger] m1.dom().contains(k) implies m2.dom().contains(k) by {
        assert(val_at(m1, k.0, k.1) != 0);
        assert(val_at(m2, k.0, k.1) != 0);
    }
    assert forall|k: (int, int)| #[trigger] m2.dom().contains(k) implies m1.dom().contains(k) by {
        assert(val_at(m2, k.0, k.1) != 0);
        assert(val_at(m1, k.0, k.1) != 0);
    }
    assert forall|k: (int, int)| #[trigger] m1.dom().contains(k) implies m1[k] == m2[k] by {
        assert(val_at(m1, k.0, k.1) == m1[k]);
        assert(val_at(m2, k.0, k.1) == m2[k]);
    }
    assert(m1 =~= m2);
}

/// A pushed entry adds its coordinate to the stored set and nothing else.
pub proof fn lemma_has_key_push(s: Seq<Entry>, e: Entry, r: int, c: int)
    ensures
        seq_has_key(s.push(e), r, c) <==> seq_has_key(s, r, c) || key_of(e) == (r, c),
{
    if seq_has_key(s.push(e), r, c) {
        let i = choose|i: int| 0 <= i < s.push(e).len() && key_of(s.push(e)[i]) == (r, c);
        if i < s.len() {
            assert(s.push(e)[i] == s[i]);
        } else {
            assert(s.push(e)[i] == e);
        }
    }
    if seq_has_key(s, r, c) {
        let i = choose|i: int| 0 <= i < s.len() && key_of(s[i]) == (r, c);
        assert(s.push(e)[i] == s[i]);
    }
    if key_of(e) == (r, c) {
        assert(key_of(s.push(e)[s.len() as int]) == (r, c));
    }
}

/// The shared walk behind addition and subtraction: combines the cells at the
/// union of both coordinate sets into a fresh matrix of the common shape.
fn combine(a: &SparseMatrix, b: &SparseMatrix, subtract: bool) -> (r: SparseMatrix)
    requires
        a.wf(),
        b.wf(),
        a.rows == b.rows,
        a.cols == b.cols,
        lin_fits(a@, b@, subtract),
    ensures
        r.wf(),
        r.rows == a.rows,
        r.cols == a.cols,
        r@ == lin_map(a@, b@, subtract),
{
    let mut out = SparseMatrix::new(a.rows, a.cols);
    proof {
        lemma_wf_map(*a);
        lemma_wf_map(*b);
    }
    let mut i: usize = 0;
    while i < a.entries.len()
        invariant
            a.wf(),
            b.wf(),
            a.rows == b.rows,
            a.cols == b.cols,
            lin_fits(a@, b@, subtract),
            out.wf(),
            out.rows == a.rows,
            out.cols == a.cols,
            i <= a.entries@.len(),
            forall|r: int, c: int|
                #[trigger] val_at(out@, r, c) == if seq_has_key(a.entries@.take(i as int), r, c) {
                    lin_val(a@, b@, subtract, r, c)
                } else {
                    0
                },
        decreases a.entries@.len() - i,
    {
        let e = a.entries[i];
        proof {
            lemma_map_at_index(a.entries@, i as int);
            lemma_map_dom(b.entries@, e.row as int, e.col as int);
        }
        let bv = match find_entry(&b.entries, e.row, e.col) {
            Some(v) => v,
            None => 0,
        };
        proof {
            assert(bv as int == val_at(b@, e.row as int, e.col as int));
            assert(lin_val(a@, b@, subtract, e.row as int, e.col as int) == if subtract {
                e.val - bv
            } else {
                e.val + bv
            });
        }
        let cv = if subtract {
            e.val - bv
        } else {
            e.val + bv
        };
        let ghost pre = out@;
        proof {
            assert(val_at(out@, e.row as int, e.col as int) == 0) by {
                assert forall|j: int|
                    0 <= j < a.entries@.take(i as int).len() implies key_of(
                    #[trigger] a.entries@.take(i as int)[j]) != key_of(a.entries@[i as int]) by {
                    assert(a.entries@.take(i as int)[j] == a.entries@[j]);
                }
            }
        }
        out.add_to_value(e.row, e.col, cv);
        proof {
            lemma_acc_map_val(pre, e.row as int, e.col as int, cv as int);
            assert(a.entries@.take(i as int + 1) =~= a.entries@.take(i as int).push(
                a.entries@[i as int]));
            assert forall|r: int, c: int|
                #[trigger] val_at(out@, r, c) == (if seq_has_key(
                a.entries@.take(i as int + 1), r, c) {
                    lin_val(a@, b@, subtract, r, c)
                } else {
                    0
                }) by {
                lemma_has_key_push(a.entries@.take(i as int), a.entries@[i as int], r, c);
            }
        }
        i += 1;
    }
    let mut j: usize = 0;
    proof {
        assert(a.entries@.take(a.entries@.len() as int) =~= a.entries@);
    }
    while j < b.entries.len()
        invariant
            a.wf(),
            b.wf(),
            a.rows == b.rows,
            a.cols == b.cols,
            lin_fits(a@, b@, subtract),
            out.wf(),
            out.rows == a.rows,
            out.cols == a.cols,
            j <= b.entries@.len(),
            forall|r: int, c: int|
                #[trigger] val_at(out@, r, c) == if seq_has_key(a.entries@, r, c) || seq_has_key(
                    b.entries@.take(j as int),
                    r,
                    c,
                ) {
                    lin_val(a@, b@, subtract, r, c)
                } else {
                    0
                },
        decreases b.entries@.len() - j,
    {
        let e = b.entries[j];
        proof {
            lemma_map_at_index(b.entries@, j as int);
            lemma_map_dom(a.entries@, e.row as int, e.col as int);
        }
        match find_entry(&a.entries, e.row, e.col) {
            Some(_) => {
                proof {
                    assert(b.entries@.take(j as int + 1) =~= b.entries@.take(j as int).push(
                        b.entries@[j as int]));
                    assert forall|r: int, c: int|
                        #[trigger] val_at(out@, r, c) == (if seq_has_key(a.entries@, r, c)
                            || seq_has_key(b.entries@.take(j as int + 1), r, c) {
                            lin_val(a@, b@, subtract, r, c)
                        } else {
                            0
                        }) by {
                        lemma_has_key_push(b.entries@.take(j as int), b.entries@[j as int], r, c);
                    }
                }
            },
            None => {
                proof {
                    assert(val_at(a@, e.row as int, e.col as int) == 0);
                    assert(lin_val(a@, b@, subtract, e.row as int, e.col as int) == if subtract {
                        0 - e.val
                    } else {
                        e.val as int
                    });
                    assert(val_at(out@, e.row as int, e.col as int) == 0) by {
                        assert forall|jj: int|
                            0 <= jj < b.entries@.take(j as int).len() implies key_of(
                            #[trigger] b.entries@.take(j as int)[jj]) != key_of(
                            b.entries@[j as int]) by {
                            assert(b.entries@.take(j as int)[jj] == b.entries@[jj]);
                        }
                    }
                }
                let cv = if subtract {
                    0 - e.val
                } else {
                    e.val
                };
                let ghost pre = out@;
                out.add_to_value(e.row, e.col, cv);
                proof {
                    lemma_acc_map_val(pre, e.row as int, e.col as int, cv as int);
                    assert(b.entries@.take(j as int + 1) =~= b.entries@.take(j as int).push(
                        b.entries@[j as int]));
                    assert forall|r: int, c: int|
                        #[trigger] val_at(out@, r, c) == (if seq_has_key(a.entries@, r, c)
                            || seq_has_key(b.entries@.take(j as int + 1), r, c) {
                            lin_val(a@, b@, subtract, r, c)
                        } else {
                            0
                        }) by {
                        lemma_has_key_push(b.entries@.take(j as int), b.entries@[j as int], r, c);
                    }
                }
            },
        }
        j += 1;
    }
    proof {
        assert(b.entries@.take(b.entries@.len() as int) =~= b.entries@);
        lemma_wf_map(out);
        assert forall|r: int, c: int|
            #[trigger] val_at(out@, r, c) == #[trigger] val_at(lin_map(a@, b@, subtract), r, c) by {
            lemma_map_dom(a.entries@, r, c);
            lemma_map_dom(b.entries@, r, c);
            lemma_lin_map_val(a@, b@, subtract, r, c);
        }
        assert forall|k: (int, int)|
            #[trigger] lin_map(a@, b@, subtract).dom().contains(k) implies lin_map(
            a@, b@, subtract)[k] != 0 by {
            lemma_lin_map_val(a@, b@, subtract, k.0, k.1);
        }
        assert forall|k: (int, int)| #[trigger] out@.dom().contains(k) implies out@[k] != 0 by {
            assert(out@.dom().contains((k.0, k.1)));
        }
        lemma_no_zero_ext(out@, lin_map(a@, b@, subtract));
    }
    out
}

/// The value stored at a coordinate of an entry list, if one is.
fn find_entry(entries: &Vec<Entry>, row: i64, col: i64) -> (r: Option<i64>)
    requires
        crate::matrix::unique_keys(entries@),
    ensures
        match r {
            Some(v) => seq_has_key(entries@, row as int, col as int) && map_of_entries(entries@)[
                (row as int, col as int)] == v as int,
            None => !seq_has_key(entries@, row as int, col as int),
        },
{
    let mut i: usize = 0;
    while i < entries.len()
        invariant
            i <= entries@.len(),
            crate::matrix::unique_keys(entries@),
            forall|j: int| 0 <= j < i ==> key_of(#[trigger] entries@[j]) != (row as int, col as int),
        decreases entries@.len() - i,
    {
        let e = entries[i];
        if e.row == row && e.col == col {
            proof {
                lemma_map_at_index(entries@, i as int);
            }
            return Some(e.val);
        }
        i += 1;
    }
    None
}

impl SparseMatrix {
    /// The sum of two matrices of one shape: every cell carries the sum of the
    /// operands' cells, and no zero-valued cell is stored. Operands of unequal
    /// shape are rejected.
    pub fn add(&self, other: &SparseMatrix) -> (r: Result<SparseMatrix, MatrixError>)
        requires
            self.wf(),
            other.wf(),
            lin_fits(self@, other@, false),
        ensures
            (r matches Ok(m) ==> {
                &&& self.rows == other.rows && self.cols == other.cols
                &&& m.wf()
                &&& m.rows == self.rows
                &&& m.cols == self.cols
                &&& m@ == add_map(self@, other@)
            }),
            (r matches Err(e) ==> e == MatrixError::DimensionMismatchError && !(self.rows
                == other.rows && self.cols == other.cols)),
            (self.rows == other.rows && self.cols == other.cols <==> r matches Ok(_)),
    {
        if self.rows != other.rows || self.cols != other.cols {
            return Err(MatrixError::DimensionMismatchError);
        }
        Ok(combine(self, other, false))
    }

    /// The difference of two matrices of one shape: every cell carries the
    /// left cell minus the right cell, zero-valued cells pruned; a coordinate
    /// held only on the right contributes its negation. Operands of unequal
    /// shape are rejected.
    pub fn sub(&self, other: &SparseMatrix) -> (r: Result<SparseMatrix, MatrixError>)
        requires
            self.wf(),
            other.wf(),
            lin_fits(self@, other@, true),
        ensures
            (r matches Ok(m) ==> {
                &&& self.rows == other.rows && self.cols == other.cols
                &&& m.wf()
                &&& m.rows == self.rows
                &&& m.cols == self.cols
                &&& m@ == sub_map(self@, other@)
            }),
            (r matches Err(e) ==> e == MatrixError::DimensionMismatchError && !(self.rows
                == other.rows && self.cols == other.cols)),
            (self.rows == other.rows && self.cols == other.cols <==> r matches Ok(_)),
    {
        if self.rows != other.rows || self.cols != other.cols {
            return Err(MatrixError::DimensionMismatchError);
        }
        Ok(combine(self, other, true))
    }
}

/// What one entry of the left operand adds to the product cell `(i, k)`.
pub open spec fn cell_contrib(e: Entry, b: Map<(int, int), int>, i: int, k: int) -> int {
    if e.row as int == i {
        (e.val as int) * val_at(b, e.col as int, k)
    } else {
        0
    }
}

/// The magnitude of what one entry of the left operand adds.
pub open spec fn abs_cell_contrib(e: Entry, b: Map<(int, int), int>, i: int, k: int) -> int {
    if e.row as int == i {
        abs_of(e.val as int) * abs_of(val_at(b, e.col as int, k))
    } else {
        0
    }
}

/// What a list of left entries adds to the product cell `(i, k)`.
pub open spec fn sum_contrib(s: Seq<Entry>, b: Map<(int, int), int>, i: int, k: int) -> int
    decreases s.len(),
{
    if s.len() == 0 {
        0
    } else {
        sum_contrib(s.drop_last(), b, i, k) + cell_contrib(s.last(), b, i, k)
    }
}

/// The sum of the magnitudes of those additions.
pub open spec fn abs_sum_contrib(s: Seq<Entry>, b: Map<(int, int), int>, i: int, k: int) -> int
    decreases s.len(),
{
    if s.len() == 0 {
        0
    } else {
        abs_sum_contrib(s.drop_last(), b, i, k) + abs_cell_contrib(s.last(), b, i, k)
    }
}

/// The `(col, val)` pairs of the entries of a list that sit in row `r`, in
/// storage order: one bucket of the row-grouping index.
pub open spec fn row_cells(s: Seq<Entry>, r: int) -> Seq<(i64, i64)>
    decreases s.len(),
{
    if s.len() == 0 {
        Seq::<(i64, i64)>::empty()
    } else if s.last().row as int == r {
        row_cells(s.drop_last(), r).push((s.last().col, s.last().val))
    } else {
        row_cells(s.drop_last(), r)
    }
}

/// The value a bucket holds at column `k`: the sum of its values stored
/// under that column.
pub open spec fn cells_dot(cells: Seq<(i64, i64)>, k: int) -> int
    decreases cells.len(),
{
    if cells.len() == 0 {
        0
    } else {
        cells_dot(cells.drop_last(), k) + if cells.last().0 as int == k {
            cells.last().1 as int
        } else {
            0
        }
    }
}

/// The sum of the magnitudes a bucket holds at column `k`.
pub open spec fn abs_cells_dot(cells: Seq<(i64, i64)>, k: int) -> int
    decreases cells.len(),
{
    if cells.len() == 0 {
        0
    } else {
        abs_cells_dot(cells.drop_last(), k) + if cells.last().0 as int == k {
            abs_of(cells.last().1 as int)
        } else {
            0
        }
    }
}

/// Magnitudes multiply.
pub proof fn lemma_abs_mul(x: int, y: int)
    ensures
        abs_of(x * y) == abs_of(x) * abs_of(y),
{
    assert(abs_of(x * y) == abs_of(x) * abs_of(y)) by (nonlinear_arith);
}

/// Multiplying a non-negative factor keeps an inequality.
pub proof fn lemma_mul_le(a: int, b: int, c: int)
    requires
        0 <= a,
        b <= c,
    ensures
        a * b <= a * c,
{
    assert(a * b <= a * c) by (nonlinear_arith)
        requires
            0 <= a,
            b <= c,
    ;
}

/// A product over a matrix with an all-zero row is zero.
proof fn lemma_mul_cell_empty_row(a: Map<(int, int), int>, b: Map<(int, int), int>, n: int, i: int, k: int)
    requires
        forall|j: int| #[trigger] val_at(a, i, j) == 0,
    ensures
        mul_cell(a, b, n, i, k) == 0,
        abs_mul_cell(a, b, n, i, k) == 0,
    decreases n,
{
    if n > 0 {
        lemma_mul_cell_empty_row(a, b, n - 1, i, k);
        assert(val_at(a, i, n) == 0);
        assert(abs_of(val_at(a, i, n)) * abs_of(val_at(b, n, k)) == 0) by (nonlinear_arith)
            requires
                abs_of(val_at(a, i, n)) == 0,
        ;
    }
}

/// Inserting a fresh coordinate shifts the dot product by exactly that
/// coordinate's term.
proof fn lemma_mul_cell_insert(
    a: Map<(int, int), int>,
    b: Map<(int, int), int>,
    n: int,
    i: int,
    k: int,
    r0: int,
    c0: int,
    v: int,
)
    requires
        !a.dom().contains((r0, c0)),
    ensures
        mul_cell(a.insert((r0, c0), v), b, n, i, k) == mul_cell(a, b, n, i, k) + if i == r0 && 1
            <= c0 <= n {
            v * val_at(b, c0, k)
        } else {
            0
        },
        abs_mul_cell(a.insert((r0, c0), v), b, n, i, k) == abs_mul_cell(a, b, n, i, k) + if i == r0
            && 1 <= c0 <= n {
            abs_of(v) * abs_of(val_at(b, c0, k))
        } else {
            0
        },
    decreases n,
{
    if n > 0 {
        lemma_mul_cell_insert(a, b, n - 1, i, k, r0, c0, v);
        if i == r0 && c0 == n {
            assert(val_at(a, i, n) == 0);
            assert(val_at(a.insert((r0, c0), v), i, n) == v);
            assert(abs_of(val_at(a, i, n)) * abs_of(val_at(b, n, k)) == 0) by (nonlinear_arith)
                requires
                    abs_of(val_at(a, i, n)) == 0,
            ;
        }
    }
}

/// The contribution of an entry list equals the dot product of the mapping
/// it denotes, provided coordinates are unique and columns lie in `1..=n`.
proof fn lemma_sum_contrib_eq(s: Seq<Entry>, b: Map<(int, int), int>, n: int, i: int, k: int)
    requires
        crate::matrix::unique_keys(s),
        forall|j: int| 0 <= j < s.len() ==> 1 <= (#[trigger] s[j]).col as int <= n,
    ensures
        sum_contrib(s, b, i, k) == mul_cell(map_of_entries(s), b, n, i, k),
        abs_sum_contrib(s, b, i, k) == abs_mul_cell(map_of_entries(s), b, n, i, k),
    decreases s.len(),
{
    if s.len() == 0 {
        lemma_mul_cell_empty_row(map_of_entries(s), b, n, i, k);
    } else {
        let t = s.drop_last();
        let e = s.last();
        assert(crate::matrix::unique_keys(t) && forall|j: int|
            0 <= j < t.len() ==> 1 <= (#[trigger] t[j]).col as int <= n) by {
            assert(forall|j: int| 0 <= j < t.len() ==> t[j] == s[j]);
        }
        lemma_sum_contrib_eq(t, b, n, i, k);
        assert(!seq_has_key(t, e.row as int, e.col as int)) by {
            assert(forall|j: int| 0 <= j < t.len() ==> t[j] == s[j]);
        }
        crate::matrix::lemma_map_absent(t, e.row as int, e.col as int);
        lemma_mul_cell_insert(
            map_of_entries(t),
            b,
            n,
            i,
            k,
            e.row as int,
            e.col as int,
            e.val as int,
        );
        if e.row as int == i {
            lemma_abs_mul(e.val as int, val_at(b, e.col as int, k));
        }
    }
}

/// A sum of contributions is bounded by the sum of their magnitudes.
proof fn lemma_sum_contrib_bound(s: Seq<Entry>, b: Map<(int, int), int>, i: int, k: int)
    ensures
        abs_of(sum_contrib(s, b, i, k)) <= abs_sum_contrib(s, b, i, k),
    decreases s.len(),
{
    if s.len() > 0 {
        lemma_sum_contrib_bound(s.drop_last(), b, i, k);
        let e = s.last();
        if e.row as int == i {
            lemma_abs_mul(e.val as int, val_at(b, e.col as int, k));
        }
    }
}

/// Magnitude sums only grow along a prefix.
proof fn lemma_abs_sum_contrib_mono(s: Seq<Entry>, b: Map<(int, int), int>, m: int, i: int, k: int)
    requires
        0 <= m <= s.len(),
    ensures
        abs_sum_contrib(s.take(m), b, i, k) <= abs_sum_contrib(s, b, i, k),
    decreases s.len() - m,
{
    if m == s.len() {
        assert(s.take(m) =~= s);
    } else {
        assert(s.take(m + 1).drop_last() =~= s.take(m));
        assert(s.take(m + 1).last() == s[m]);
        if s[m].row as int == i {
            lemma_abs_mul(s[m].val as int, val_at(b, s[m].col as int, k));
        }
        lemma_abs_sum_contrib_mono(s, b, m + 1, i, k);
    }
}

/// A bucket's prefix column sum is bounded by its magnitude column sum.
proof fn lemma_cells_dot_le(cells: Seq<(i64, i64)>, m: int, k: int)
    requires
        0 <= m <= cells.len(),
    ensures
        abs_of(cells_dot(cells.take(m), k)) <= abs_cells_dot(cells.take(m), k),
    decreases m,
{
    if m > 0 {
        assert(cells.take(m).drop_last() =~= cells.take(m - 1));
        assert(cells.take(m).last() == cells[m - 1]);
        lemma_cells_dot_le(cells, m - 1, k);
    }
}

/// A bucket's magnitude column sum only grows along a prefix.
proof fn lemma_abs_cells_dot_mono(cells: Seq<(i64, i64)>, m: int, k: int)
    requires
        0 <= m <= cells.len(),
    ensures
        abs_cells_dot(cells.take(m), k) <= abs_cells_dot(cells, k),
    decreases cells.len() - m,
{
    if m == cells.len() {
        assert(cells.take(m) =~= cells);
    } else {
        assert(cells.take(m + 1).drop_last() =~= cells.take(m));
        assert(cells.take(m + 1).last() == cells[m]);
        lemma_abs_cells_dot_mono(cells, m + 1, k);
    }
}

/// The bucket of row `j` holds, column by column, exactly the values the
/// denoted mapping holds in that row.
proof fn lemma_row_cells_dot(s: Seq<Entry>, j: int, k: int)
    requires
        crate::matrix::unique_keys(s),
    ensures
        cells_dot(row_cells(s, j), k) == val_at(map_of_entries(s), j, k),
        abs_cells_dot(row_cells(s, j), k) == abs_of(val_at(map_of_entries(s), j, k)),
    decreases s.len(),
{
    if s.len() == 0 {
        crate::matrix::lemma_map_absent(s, j, k);
    } else {
        let t = s.drop_last();
        let e = s.last();
        assert(crate::matrix::unique_keys(t)) by {
            assert(forall|a: int| 0 <= a < t.len() ==> t[a] == s[a]);
        }
        lemma_row_cells_dot(t, j, k);
        assert(!seq_has_key(t, e.row as int, e.col as int)) by {
            assert(forall|a: int| 0 <= a < t.len() ==> t[a] == s[a]);
        }
        crate::matrix::lemma_map_absent(t, e.row as int, e.col as int);
        if e.row as int == j {
            assert(row_cells(s, j) == row_cells(t, j).push((e.col, e.val)));
            assert(row_cells(t, j).push((e.col, e.val)).drop_last() =~= row_cells(t, j));
        }
    }
}

/// Every pair a bucket holds comes from an entry of the list in that row.
proof fn lemma_row_cells_member(s: Seq<Entry>, j: int, m: int)
    requires
        0 <= m < row_cells(s, j).len(),
    ensures
        exists|a: int|
            0 <= a < s.len() && (#[trigger] s[a]).row as int == j && s[a].col == row_cells(s, j)[m].0
                && s[a].val == row_cells(s, j)[m].1,
    decreases s.len(),
{
    let e = s.last();
    if s.len() > 0 && e.row as int == j && m == row_cells(s, j).len() - 1 {
        assert(s[s.len() - 1] == e);
        assert(row_cells(s, j)[m] == (e.col, e.val));
    } else {
        lemma_row_cells_member(s.drop_last(), j, m);
        let a = choose|a: int|
            0 <= a < s.drop_last().len() && (#[trigger] s.drop_last()[a]).row as int == j
                && s.drop_last()[a].col == row_cells(s.drop_last(), j)[m].0 && s.drop_last()[a].val
                == row_cells(s.drop_last(), j)[m].1;
        assert(s[a] == s.drop_last()[a]);
    }
}

impl SparseMatrix {
    /// The product of two matrices whose shapes chain: cell `(i, k)` of the
    /// result is the dot product of row `i` of the left operand with column
    /// `k` of the right one, and zero dot products are not stored. The right
    /// operand is first grouped by row so that only entry pairs with matching
    /// inner coordinate are visited. Operands with `left.cols != right.rows`
    /// are rejected.
    pub fn mul(&self, other: &SparseMatrix) -> (r: Result<SparseMatrix, MatrixError>)
        requires
            self.wf(),
            other.wf(),
            mul_fits(self@, other@, self.cols as int),
        ensures
            (r matches Ok(m) ==> {
                &&& self.cols == other.rows
                &&& m.wf()
                &&& m.rows == self.rows
                &&& m.cols == other.cols
                &&& m@ == mul_map(self@, other@, self.cols as int)
            }),
            (r matches Err(e) ==> e == MatrixError::DimensionMismatchError && self.cols
                != other.rows),
            (self.cols == other.rows <==> r matches Ok(_)),
    {
        if self.cols != other.rows {
            return Err(MatrixError::DimensionMismatchError);
        }
        let ghost bents = other.entries@;
        let mut grouped: HashMap<i64, Vec<(i64, i64)>> = HashMap::new();
        let mut n: usize = 0;
        while n < other.entries.len()
            invariant
                n <= bents.len(),
                other.entries@ == bents,
                forall|r: i64| #[trigger]
                    grouped@.contains_key(r) ==> grouped@[r]@ == row_cells(
                        bents.take(n as int),
                        r as int,
                    ),
                forall|r: i64|
                    !(#[trigger] grouped@.contains_key(r)) ==> row_cells(
                        bents.take(n as int),
                        r as int,
                    ).len() == 0,
            decreases bents.len() - n,
        {
            let e = other.entries[n];
            let mut cells = match grouped.remove(&e.row) {
                Some(c) => c,
                None => Vec::new(),
            };
            proof {
                assert(cells@ =~= row_cells(bents.take(n as int), e.row as int));
            }
            cells.push((e.col, e.val));
            grouped.insert(e.row, cells);
            proof {
                assert(bents.take(n as int + 1).drop_last() =~= bents.take(n as int));
                assert(bents.take(n as int + 1).last() == bents[n as int]);
                assert forall|r: i64| #[trigger]
                    grouped@.contains_key(r) implies grouped@[r]@ == row_cells(
                    bents.take(n as int + 1),
                    r as int,
                ) by {}
                assert forall|r: i64|
                    !(#[trigger] grouped@.contains_key(r)) implies row_cells(
                    bents.take(n as int + 1),
                    r as int,
                ).len() == 0 by {}
            }
            n += 1;
        }
        proof {
            assert(bents.take(bents.len() as int) =~= bents);
        }
        let ghost aents = self.entries@;
        let ghost inner = self.cols as int;
        let mut out = SparseMatrix::new(self.rows, other.cols);
        proof {
            lemma_wf_map(*self);
            lemma_wf_map(*other);
        }
        let mut p: usize = 0;
        while p < self.entries.len()
            invariant
                self.wf(),
                other.wf(),
                self.entries@ == aents,
                other.entries@ == bents,
                self.cols == other.rows,
                mul_fits(self@, other@, inner),
                inner == self.cols as int,
                out.wf(),
                out.rows == self.rows,
                out.cols == other.cols,
                p <= aents.len(),
                forall|r: i64| #[trigger]
                    grouped@.contains_key(r) ==> grouped@[r]@ == row_cells(bents, r as int),
                forall|r: i64|
                    !(#[trigger] grouped@.contains_key(r)) ==> row_cells(bents, r as int).len()
                        == 0,
                forall|i: int, k: int|
                    #[trigger] val_at(out@, i, k) == sum_contrib(aents.take(p as int), other@, i, k),
            decreases aents.len() - p,
        {
            let e = self.entries[p];
            let ghost i0 = e.row as int;
            let ghost j0 = e.col as int;
            proof {
                lemma_map_at_index(aents, p as int);
            }
            match grouped.get(&e.col) {
                Some(cells) => {
                    let ghost cs = cells@;
                    proof {
                        assert(cs == row_cells(bents, j0));
                        lemma_row_cells_dot(bents, j0, 0);
                    }
                    let mut m: usize = 0;
                    while m < cells.len()
                        invariant
                            self.wf(),
                            other.wf(),
                            self.entries@ == aents,
                            other.entries@ == bents,
                            self.cols == other.rows,
                            mul_fits(self@, other@, inner),
                            inner == self.cols as int,
                            out.wf(),
                            out.rows == self.rows,
                            out.cols == other.cols,
                            p < aents.len(),
                            e == aents[p as int],
                            i0 == e.row as int,
                            j0 == e.col as int,
                            cells@ == cs,
                            cs == row_cells(bents, j0),
                            m <= cs.len(),
                            forall|i: int, k: int|
                                #[trigger] val_at(out@, i, k) == sum_contrib(
                                    aents.take(p as int),
                                    other@,
                                    i,
                                    k,
                                ) + if i == i0 {
                                    (e.val as int) * cells_dot(cs.take(m as int), k)
                                } else {
                                    0
                                },
                        decreases cs.len() - m,
                    {
                        let (c, w) = cells[m];
                        let ghost kc = c as int;
                        proof {
                            lemma_row_cells_member(bents, j0, m as int);
                            let a = choose|a: int|
                                0 <= a < bents.len() && (#[trigger] bents[a]).row as int == j0
                                    && bents[a].col == c && bents[a].val == w;
                            assert(crate::matrix::entry_ok(bents[a], other.rows as int, other.cols as int));
                            // the running value at (i0, kc) and the term to add both sit
                            // under the magnitude bound
                            lemma_overflow_bound(aents, bents, other@, self@, inner, p as int, cs, m as int, i0, j0, kc, e);
                        }
                        let ghost pre = out@;
                        let prod = e.val * w;
                        out.add_to_value(e.row, c, prod);
                        proof {
                            lemma_acc_map_val(pre, i0, kc, prod as int);
                            assert(cs.take(m as int + 1).drop_last() =~= cs.take(m as int));
                            assert(cs.take(m as int + 1).last() == cs[m as int]);
                            assert forall|i: int, k: int|
                                #[trigger] val_at(out@, i, k) == sum_contrib(
                                aents.take(p as int),
                                other@,
                                i,
                                k,
                            ) + (if i == i0 {
                                (e.val as int) * cells_dot(cs.take(m as int + 1), k)
                            } else {
                                0
                            }) by {
                                if i == i0 {
                                    lemma_dot_step(cs, m as int, k, kc, e.val as int, w as int);
                                }
                            }
                        }
                        m += 1;
                    }
                    proof {
                        assert(cs.take(cs.len() as int) =~= cs);
                        assert forall|i: int, k: int|
                            #[trigger] val_at(out@, i, k) == sum_contrib(
                            aents.take(p as int + 1),
                            other@,
                            i,
                            k,
                        ) by {
                            lemma_row_cells_dot(bents, j0, k);
                            lemma_take_step(aents, p as int, other@, i, k);
                        }
                    }
                },
                None => {
                    proof {
                        assert(row_cells(bents, j0).len() == 0);
                        assert forall|i: int, k: int|
                            #[trigger] val_at(out@, i, k) == sum_contrib(
                            aents.take(p as int + 1),
                            other@,
                            i,
                            k,
                        ) by {
                            lemma_row_cells_dot(bents, j0, k);
                            assert(cells_dot(row_cells(bents, j0), k) == 0);
                            assert(val_at(other@, j0, k) == 0);
                            lemma_take_step(aents, p as int, other@, i, k);
                        }
                    }
                },
            }
            p += 1;
        }
        proof {
            assert(aents.take(aents.len() as int) =~= aents);
            assert forall|i: int, k: int|
                #[trigger] val_at(out@, i, k) == #[trigger] val_at(
                mul_map(self@, other@, inner),
                i,
                k,
            ) by {
                lemma_sum_contrib_eq(aents, other@, inner, i, k);
            }
            assert forall|k: (int, int)| #[trigger] out@.dom().contains(k) implies out@[k] != 0 by {
                lemma_wf_map(out);
                assert(out@.dom().contains((k.0, k.1)));
            }
            assert forall|k: (int, int)|
                #[trigger] mul_map(self@, other@, inner).dom().contains(k) implies mul_map(
                self@,
                other@,
                inner,
            )[k] != 0 by {}
            lemma_no_zero_ext(out@, mul_map(self@, other@, inner));
        }
        Ok(out)
    }
}

/// One step of a bucket walk moves the column sum by the visited pair.
proof fn lemma_dot_step(cs: Seq<(i64, i64)>, m: int, k: int, kc: int, v: int, w: int)
    requires
        0 <= m < cs.len(),
        cs[m].0 as int == kc,
        cs[m].1 as int == w,
    ensures
        v * cells_dot(cs.take(m + 1), k) == v * cells_dot(cs.take(m), k) + if k == kc {
            v * w
        } else {
            0
        },
{
    assert(cs.take(m + 1).drop_last() =~= cs.take(m));
    assert(cs.take(m + 1).last() == cs[m]);
    assert(cells_dot(cs.take(m + 1), k) == cells_dot(cs.take(m), k) + if k == kc {
        w
    } else {
        0
    });
    assert(v * (cells_dot(cs.take(m), k) + w) == v * cells_dot(cs.take(m), k) + v * w)
        by (nonlinear_arith);
}

/// Extending the folded prefix by one entry adds that entry's contribution.
proof fn lemma_take_step(aents: Seq<Entry>, p: int, bm: Map<(int, int), int>, i: int, k: int)
    requires
        0 <= p < aents.len(),
    ensures
        sum_contrib(aents.take(p + 1), bm, i, k) == sum_contrib(aents.take(p), bm, i, k)
            + cell_contrib(aents[p], bm, i, k),
{
    assert(aents.take(p + 1).drop_last() =~= aents.take(p));
    assert(aents.take(p + 1).last() == aents[p]);
}

/// The running value plus the next partial product stays within the bound
/// that `mul_fits` promises.
proof fn lemma_overflow_bound(
    aents: Seq<Entry>,
    bents: Seq<Entry>,
    bm: Map<(int, int), int>,
    am: Map<(int, int), int>,
    inner: int,
    p: int,
    cs: Seq<(i64, i64)>,
    m: int,
    i0: int,
    j0: int,
    kc: int,
    e: Entry,
)
    requires
        crate::matrix::unique_keys(aents),
        crate::matrix::unique_keys(bents),
        am == map_of_entries(aents),
        bm == map_of_entries(bents),
        forall|j: int| 0 <= j < aents.len() ==> 1 <= (#[trigger] aents[j]).col as int <= inner,
        forall|i: int, k: int| #[trigger] abs_mul_cell(am, bm, inner, i, k) <= i64::MAX,
        0 <= p < aents.len(),
        aents[p] == e,
        i0 == e.row as int,
        j0 == e.col as int,
        cs == row_cells(bents, j0),
        0 <= m < cs.len(),
        kc == cs[m].0 as int,
    ensures
        i64::MIN <= sum_contrib(aents.take(p), bm, i0, kc) + (e.val as int) * cells_dot(
            cs.take(m),
            kc,
        ) + (e.val as int) * (cs[m].1 as int),
        sum_contrib(aents.take(p), bm, i0, kc) + (e.val as int) * cells_dot(cs.take(m), kc) + (
        e.val as int) * (cs[m].1 as int) <= i64::MAX,
        i64::MIN <= (e.val as int) * (cs[m].1 as int) && (e.val as int) * (cs[m].1 as int)
            <= i64::MAX,
{
    let v = e.val as int;
    let w = cs[m].1 as int;
    // the partial bucket sum after this step is a prefix column sum
    assert(cs.take(m + 1).drop_last() =~= cs.take(m));
    assert(cs.take(m + 1).last() == cs[m]);
    let dot1 = cells_dot(cs.take(m + 1), kc);
    assert(dot1 == cells_dot(cs.take(m), kc) + w);
    assert(v * dot1 == v * cells_dot(cs.take(m), kc) + v * w) by (nonlinear_arith)
        requires
            dot1 == cells_dot(cs.take(m), kc) + w,
    ;
    // bound the running prefix of left entries
    lemma_sum_contrib_bound(aents.take(p), bm, i0, kc);
    // bound the bucket part
    lemma_cells_dot_le(cs, m + 1, kc);
    lemma_abs_cells_dot_mono(cs, m + 1, kc);
    lemma_row_cells_dot(bents, j0, kc);
    lemma_abs_mul(v, dot1);
    lemma_mul_le(abs_of(v), abs_of(dot1), abs_cells_dot(cs, kc));
    // the full bucket term is this entry's magnitude contribution
    assert(abs_of(v) * abs_cells_dot(cs, kc) == abs_cell_contrib(e, bm, i0, kc));
    // one more prefix step ties it to the total magnitude sum
    assert(aents.take(p + 1).drop_last() =~= aents.take(p));
    assert(aents.take(p + 1).last() == aents[p]);
    assert(abs_sum_contrib(aents.take(p + 1), bm, i0, kc) == abs_sum_contrib(
        aents.take(p),
        bm,
        i0,
        kc,
    ) + abs_cell_contrib(e, bm, i0, kc));
    lemma_abs_sum_contrib_mono(aents, bm, p + 1, i0, kc);
    lemma_sum_contrib_eq(aents, bm, inner, i0, kc);
    // the single partial product also sits under the same bound: its
    // magnitude is one term of the bucket's magnitude column sum
    lemma_cells_dot_le(cs, m, kc);
    assert(0 <= abs_cells_dot(cs.take(m), kc));
    assert(abs_cells_dot(cs.take(m + 1), kc) == abs_cells_dot(cs.take(m), kc) + abs_of(w));
    assert(abs_of(w) <= abs_cells_dot(cs, kc));
    lemma_abs_mul(v, w);
    lemma_mul_le(abs_of(v), abs_of(w), abs_cells_dot(cs, kc));
}

} // verus!
