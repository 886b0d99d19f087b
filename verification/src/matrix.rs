//! The sparse matrix data type: storage of non-zero cells, element access,
//! and the accumulate operation through which every arithmetic result flows.

use vstd::prelude::*;

verus! {

/// One stored cell: a 1-indexed coordinate and the value held there.
#[derive(Clone, Copy, PartialEq, Eq, Structural, Debug)]
pub struct Entry {
    pub row: i64,
    pub col: i64,
    pub val: i64,
}

/// The failures the library reports; every one is terminal for the operation
/// that raised it.
#[derive(Clone, Copy, PartialEq, Eq, Structural, Debug)]
pub enum MatrixError {
    /// An input path could not be read or an output path could not be written.
    FileError,
    /// A header value or an entry triple in the textual form is malformed.
    ParseError,
    /// The operands' shapes do not fit the requested operation.
    DimensionMismatchError,
    /// A coordinate outside the declared extents was addressed or stored.
    BoundsError,
    /// An operation token is not one of the recognized mnemonics.
    InvalidOperationError,
}

/// The coordinate under which an entry is stored.
pub open spec fn key_of(e: Entry) -> (int, int) {
    (e.row as int, e.col as int)
}

/// The mapping that a list of entries denotes; a later entry for a coordinate
/// overrides an earlier one.
pub open spec fn map_of_entries(s: Seq<Entry>) -> Map<(int, int), int>
    decreases s.len(),
{
    if s.len() == 0 {
        Map::<(int, int), int>::empty()
    } else {
        map_of_entries(s.drop_last()).insert(key_of(s.last()), s.last().val as int)
    }
}

/// The value of a cell: the stored value when present, zero otherwise.
pub open spec fn val_at(m: Map<(int, int), int>, r: int, c: int) -> int {
    if m.dom().contains((r, c)) {
        m[(r, c)]
    } else {
        0
    }
}

/// Some entry of the list sits at the given coordinate.
pub open spec fn seq_has_key(s: Seq<Entry>, r: int, c: int) -> bool {
    exists|i: int| 0 <= i < s.len() && key_of(#[trigger] s[i]) == (r, c)
}

/// No two entries of the list share a coordinate.
pub open spec fn unique_keys(s: Seq<Entry>) -> bool {
    forall|i: int, j: int|
        0 <= i < j < s.len() ==> key_of(#[trigger] s[i]) != key_of(#[trigger] s[j])
}

/// An entry that a well-formed matrix of the given extents may store:
/// non-zero, and within [1, rows] x [1, cols].
pub open spec fn entry_ok(e: Entry, rows: int, cols: int) -> bool {
    &&& e.val != 0
    &&& 1 <= e.row as int && e.row as int <= rows
    &&& 1 <= e.col as int && e.col as int <= cols
}

/// A mapping from coordinates to the non-zero values stored there, together
/// with declared row and column extents.
#[derive(Clone, Debug)]
pub struct SparseMatrix {
    pub rows: i64,
    pub cols: i64,
    pub entries: Vec<Entry>,
}

impl View for SparseMatrix {
    type V = Map<(int, int), int>;

    open spec fn view(&self) -> Map<(int, int), int> {
        map_of_entries(self.entries@)
    }
}

impl SparseMatrix {
    /// The structural invariant: coordinates are unique, every stored value is
    /// non-zero, and every coordinate lies within the declared extents.
    pub open spec fn wf(self) -> bool {
        &&& unique_keys(self.entries@)
        &&& forall|i: int|
            0 <= i < self.entries@.len() ==> entry_ok(
                #[trigger] self.entries@[i],
                self.rows as int,
                self.cols as int,
            )
    }
}

/// A coordinate absent from the entry list is absent from the denoted mapping.
pub proof fn lemma_map_absent(s: Seq<Entry>, r: int, c: int)
    requires
        !seq_has_key(s, r, c),
    ensures
        !map_of_entries(s).dom().contains((r, c)),
    decreases s.len(),
{
    if s.len() > 0 {
        assert(!seq_has_key(s.drop_last(), r, c)) by {
            assert forall|i: int|
                0 <= i < s.drop_last().len() implies key_of(s.drop_last()[i]) != (r, c) by {
                assert(s.drop_last()[i] == s[i]);
            }
        }
        lemma_map_absent(s.drop_last(), r, c);
        assert(key_of(s.last()) != (r, c));
    }
}

/// Under unique coordinates, the mapping holds exactly the value of the entry
/// stored at each index.
pub proof fn lemma_map_at_index(s: Seq<Entry>, i: int)
    requires
        unique_keys(s),
        0 <= i < s.len(),
    ensures
        map_of_entries(s).dom().contains(key_of(s[i])),
        map_of_entries(s)[key_of(s[i])] == s[i].val as int,
    decreases s.len(),
{
    if i == s.len() - 1 {
    } else {
        assert(unique_keys(s.drop_last()));
        assert(s.drop_last()[i] == s[i]);
        lemma_map_at_index(s.drop_last(), i);
        assert(key_of(s[i]) != key_of(s.last()));
    }
}

/// The domain of the denoted mapping is exactly the set of stored coordinates.
pub proof fn lemma_map_dom(s: Seq<Entry>, r: int, c: int)
    ensures
        map_of_entries(s).dom().contains((r, c)) <==> seq_has_key(s, r, c),
{
    if seq_has_key(s, r, c) {
        let i = choose|i: int| 0 <= i < s.len() && key_of(s[i]) == (r, c);
        lemma_map_contains_at(s, i);
    } else {
        lemma_map_absent(s, r, c);
    }
}

/// A coordinate stored at some index is in the mapping's domain, uniqueness
/// or not.
proof fn lemma_map_contains_at(s: Seq<Entry>, i: int)
    requires
        0 <= i < s.len(),
    ensures
        map_of_entries(s).dom().contains(key_of(s[i])),
    decreases s.len(),
{
    if i < s.len() - 1 {
        assert(s.drop_last()[i] == s[i]);
        lemma_map_contains_at(s.drop_last(), i);
    }
}

/// What well-formedness yields at the level of the mapping: every held
/// coordinate is in bounds and every held value is non-zero.
pub proof fn lemma_wf_map(m: SparseMatrix)
    requires
        m.wf(),
    ensures
        forall|r: int, c: int|
            #[trigger] m@.dom().contains((r, c)) ==> 1 <= r <= m.rows as int && 1 <= c
                <= m.cols as int && m@[(r, c)] != 0,
{
    assert forall|r: int, c: int| #[trigger] m@.dom().contains((r, c)) implies 1 <= r
        <= m.rows as int && 1 <= c <= m.cols as int && m@[(r, c)] != 0 by {
        lemma_map_dom(m.entries@, r, c);
        let i = choose|i: int| 0 <= i < m.entries@.len() && key_of(m.entries@[i]) == (r, c);
        lemma_map_at_index(m.entries@, i);
    }
}

/// Appending an entry inserts its coordinate into the denoted mapping.
pub proof fn lemma_map_push(s: Seq<Entry>, e: Entry)
    ensures
        map_of_entries(s.push(e)) == map_of_entries(s).insert(key_of(e), e.val as int),
{
    assert(s.push(e).drop_last() =~= s);
    assert(s.push(e).last() == e);
}

/// Removing the entry at an index removes its coordinate from the denoted
/// mapping, provided coordinates are unique.
pub proof fn lemma_map_remove(s: Seq<Entry>, i: int)
    requires
        unique_keys(s),
        0 <= i < s.len(),
    ensures
        map_of_entries(s.remove(i)) == map_of_entries(s).remove(key_of(s[i])),
    decreases s.len(),
{
    let k = key_of(s[i]);
    if i == s.len() - 1 {
        assert(s.remove(i) =~= s.drop_last());
        assert(!seq_has_key(s.drop_last(), k.0, k.1)) by {
            assert forall|j: int|
                0 <= j < s.drop_last().len() implies key_of(s.drop_last()[j]) != k by {
                assert(s.drop_last()[j] == s[j]);
            }
        }
        lemma_map_absent(s.drop_last(), k.0, k.1);
        assert(map_of_entries(s.drop_last()).insert(k, s[i].val as int).remove(k)
            =~= map_of_entries(s.drop_last()));
    } else {
        let t = s.remove(i);
        assert(t.len() == s.len() - 1);
        assert(t.last() == s.last());
        assert(t.drop_last() =~= s.drop_last().remove(i));
        assert(unique_keys(s.drop_last())) by {
            assert forall|a: int, b: int|
                0 <= a < b < s.drop_last().len() implies key_of(s.drop_last()[a]) != key_of(
                s.drop_last()[b]) by {
                assert(s.drop_last()[a] == s[a] && s.drop_last()[b] == s[b]);
            }
        }
        assert(s.drop_last()[i] == s[i]);
        lemma_map_remove(s.drop_last(), i);
        assert(key_of(s.last()) != k);
        assert(map_of_entries(s.drop_last()).remove(k).insert(key_of(s.last()), s.last().val as int)
            =~= map_of_entries(s.drop_last()).insert(key_of(s.last()), s.last().val as int).remove(
            k));
    }
}

/// Removing an index keeps the remaining coordinates unique and drops exactly
/// the removed coordinate from the stored set.
pub proof fn lemma_unique_remove(s: Seq<Entry>, i: int)
    requires
        unique_keys(s),
        0 <= i < s.len(),
    ensures
        unique_keys(s.remove(i)),
        !seq_has_key(s.remove(i), key_of(s[i]).0, key_of(s[i]).1),
        forall|j: int|
            0 <= j < s.remove(i).len() ==> exists|n: int|
                0 <= n < s.len() && s[n] == #[trigger] s.remove(i)[j],
{
    let t = s.remove(i);
    assert forall|j: int| 0 <= j < t.len() implies exists|n: int|
        0 <= n < s.len() && s[n] == #[trigger] t[j] by {
        if j < i {
            assert(s[j] == t[j]);
        } else {
            assert(s[j + 1] == t[j]);
        }
    }
    assert forall|a: int, b: int| 0 <= a < b < t.len() implies key_of(#[trigger] t[a]) != key_of(
        #[trigger] t[b]) by {
        let a0: int = if a < i { a } else { a + 1 };
        let b0: int = if b < i { b } else { b + 1 };
        assert(t[a] == s[a0] && t[b] == s[b0]);
    }
    assert forall|j: int| 0 <= j < t.len() implies key_of(#[trigger] t[j]) != key_of(s[i]) by {
        let j0: int = if j < i { j } else { j + 1 };
        assert(t[j] == s[j0]);
    }
}

/// The stored value and the accumulated delta at one coordinate: when the sum
/// is zero the cell is pruned, otherwise the sum replaces the cell.
pub open spec fn acc_map(m: Map<(int, int), int>, r: int, c: int, d: int) -> Map<(int, int), int> {
    if val_at(m, r, c) + d == 0 {
        m.remove((r, c))
    } else {
        m.insert((r, c), val_at(m, r, c) + d)
    }
}

/// The index at which a coordinate is stored, if it is.
pub(crate) fn find_index(entries: &Vec<Entry>, row: i64, col: i64) -> (r: Option<usize>)
    ensures
        match r {
            Some(i) => i < entries@.len() && key_of(entries@[i as int]) == (
                row as int,
                col as int,
            ),
            None => !seq_has_key(entries@, row as int, col as int),
        },
{
    let mut i: usize = 0;
    while i < entries.len()
        invariant
            i <= entries@.len(),
            forall|j: int| 0 <= j < i ==> key_of(#[trigger] entries@[j]) != (row as int, col as int),
        decreases entries@.len() - i,
    {
        let e = entries[i];
        if e.row == row && e.col == col {
            return Some(i);
        }
        i += 1;
    }
    None
}

impl SparseMatrix {
    /// An empty matrix with the given declared extents.
    pub fn new(rows: i64, cols: i64) -> (r: SparseMatrix)
        ensures
            r.wf(),
            r.rows == rows,
            r.cols == cols,
            r@ == Map::<(int, int), int>::empty(),
    {
        SparseMatrix { rows, cols, entries: Vec::new() }
    }

    /// Whether a coordinate lies within the declared extents.
    pub open spec fn in_bounds(self, row: int, col: int) -> bool {
        1 <= row && row <= self.rows as int && 1 <= col && col <= self.cols as int
    }

    /// The stored value at an in-bounds coordinate, or `None` for an implicit
    /// zero; a coordinate outside the declared extents is a `BoundsError`.
    pub fn peek_value(&self, row: i64, col: i64) -> (r: Result<Option<i64>, MatrixError>)
        requires
            self.wf(),
        ensures
            self.in_bounds(row as int, col as int) ==> r == Ok::<Option<i64>, MatrixError>(
                if self@.dom().contains((row as int, col as int)) {
                    Some(self@[(row as int, col as int)] as i64)
                } else {
                    None
                },
            ),
            !self.in_bounds(row as int, col as int) ==> r == Err::<Option<i64>, MatrixError>(
                MatrixError::BoundsError,
            ),
    {
        if !(1 <= row && row <= self.rows && 1 <= col && col <= self.cols) {
            return Err(MatrixError::BoundsError);
        }
        match find_index(&self.entries, row, col) {
            Some(i) => {
                proof {
                    lemma_map_at_index(self.entries@, i as int);
                }
                Ok(Some(self.entries[i].val))
            },
            None => {
                proof {
                    lemma_map_absent(self.entries@, row as int, col as int);
                }
                Ok(None)
            },
        }
    }

    /// Like `peek_value`, but removes the entry it found, so that a coordinate
    /// visited once is not processed again.
    pub fn consume_value(&mut self, row: i64, col: i64) -> (r: Result<Option<i64>, MatrixError>)
        requires
            old(self).wf(),
        ensures
            final(self).wf(),
            final(self).rows == old(self).rows,
            final(self).cols == old(self).cols,
            old(self).in_bounds(row as int, col as int) ==> {
                &&& r == Ok::<Option<i64>, MatrixError>(
                    if old(self)@.dom().contains((row as int, col as int)) {
                        Some(old(self)@[(row as int, col as int)] as i64)
                    } else {
                        None
                    },
                )
                &&& final(self)@ == old(self)@.remove((row as int, col as int))
            },
            !old(self).in_bounds(row as int, col as int) ==> r == Err::<Option<i64>, MatrixError>(
                MatrixError::BoundsError,
            ) && final(self)@ == old(self)@,
    {
        if !(1 <= row && row <= self.rows && 1 <= col && col <= self.cols) {
            return Err(MatrixError::BoundsError);
        }
        match find_index(&self.entries, row, col) {
            Some(i) => {
                proof {
                    lemma_map_at_index(self.entries@, i as int);
                    lemma_map_remove(self.entries@, i as int);
                    lemma_unique_remove(self.entries@, i as int);
                }
                let e = self.entries[i];
                self.entries.remove(i);
                Ok(Some(e.val))
            },
            None => {
                proof {
                    lemma_map_absent(self.entries@, row as int, col as int);
                    assert(self@.remove((row as int, col as int)) =~= self@);
                }
                Ok(None)
            },
        }
    }

    /// Adds a delta to the cell at an in-bounds coordinate, treating absence
    /// as zero, and prunes the cell when the new value is zero: the one choke
    /// point through which every arithmetic result flows.
    pub fn add_to_value(&mut self, row: i64, col: i64, value: i64)
        requires
            old(self).wf(),
            old(self).in_bounds(row as int, col as int),
            i64::MIN <= val_at(old(self)@, row as int, col as int) + value,
            val_at(old(self)@, row as int, col as int) + value <= i64::MAX,
        ensures
            final(self).wf(),
            final(self).rows == old(self).rows,
            final(self).cols == old(self).cols,
            final(self)@ == acc_map(old(self)@, row as int, col as int, value as int),
    {
        let ghost k = (row as int, col as int);
        match find_index(&self.entries, row, col) {
            Some(i) => {
                proof {
                    lemma_map_at_index(self.entries@, i as int);
                    lemma_map_remove(self.entries@, i as int);
                    lemma_unique_remove(self.entries@, i as int);
                }
                let old_val = self.entries[i].val;
                self.entries.remove(i);
                let new_val = old_val + value;
                if new_val != 0 {
                    proof {
                        lemma_map_push(self.entries@, Entry { row, col, val: new_val });
                        lemma_map_dom(self.entries@, row as int, col as int);
                        assert(old(self)@.remove(k).insert(k, new_val as int) =~= old(self)@.insert(
                            k,
                            new_val as int,
                        ));
                    }
                    self.entries.push(Entry { row, col, val: new_val });
                    assert forall|j: int|
                        0 <= j < self.entries@.len() implies entry_ok(
                        #[trigger] self.entries@[j],
                        self.rows as int,
                        self.cols as int,
                    ) by {
                        if j < self.entries@.len() - 1 {
                            assert(entry_ok(old(self).entries@.remove(i as int)[j], self.rows as int, self.cols as int));
                        }
                    }
                }
            },
            None => {
                proof {
                    lemma_map_absent(self.entries@, row as int, col as int);
                }
                if value != 0 {
                    proof {
                        lemma_map_push(self.entries@, Entry { row, col, val: value });
                        lemma_map_dom(self.entries@, row as int, col as int);
                    }
                    self.entries.push(Entry { row, col, val: value });
                } else {
                    proof {
                        assert(old(self)@.remove(k) =~= old(self)@);
                    }
                }
            },
        }
    }
}

} // verus!
