//! The textual form of a sparse matrix: `rows=`/`cols=` header lines followed
//! by one `(row, col, value)` line per stored cell, and the tolerant
//! line-by-line parser that reads it back.

use vstd::prelude::*;

use crate::matrix::{
    key_of, lemma_map_absent, lemma_map_at_index, lemma_map_dom, lemma_map_push, lemma_map_remove,
    lemma_unique_remove, map_of_entries, seq_has_key, unique_keys, Entry, MatrixError,
    SparseMatrix,
};

verus! {

/// The ASCII whitespace bytes that trimming strips.
pub open spec fn is_space(b: u8) -> bool {
    b == 32 || (9 <= b && b <= 13)
}

/// An ASCII decimal digit.
pub open spec fn is_digit(b: u8) -> bool {
    48 <= b && b <= 57
}

/// How many leading whitespace bytes a line carries.
pub open spec fn leading_spaces(s: Seq<u8>) -> int
    decreases s.len(),
{
    if s.len() == 0 {
        0
    } else if is_space(s[0]) {
        1 + leading_spaces(s.drop_first())
    } else {
        0
    }
}

/// How many trailing whitespace bytes a line carries.
pub open spec fn trailing_spaces(s: Seq<u8>) -> int
    decreases s.len(),
{
    if s.len() == 0 {
        0
    } else if is_space(s.last()) {
        1 + trailing_spaces(s.drop_last())
    } else {
        0
    }
}

/// The line with its leading and trailing whitespace stripped.
pub open spec fn trim(s: Seq<u8>) -> Seq<u8> {
    let t = s.skip(leading_spaces(s));
    t.take(t.len() - trailing_spaces(t))
}

/// The leading whitespace count marks the first non-space byte.
pub proof fn lemma_leading_spaces(s: Seq<u8>)
    ensures
        0 <= leading_spaces(s) <= s.len(),
        forall|j: int| 0 <= j < leading_spaces(s) ==> is_space(#[trigger] s[j]),
        leading_spaces(s) < s.len() ==> !is_space(s[leading_spaces(s)]),
    decreases s.len(),
{
    if s.len() > 0 && is_space(s[0]) {
        lemma_leading_spaces(s.drop_first());
        assert forall|j: int| 0 <= j < leading_spaces(s) implies is_space(#[trigger] s[j]) by {
            if j > 0 {
                assert(s.drop_first()[j - 1] == s[j]);
            }
        }
        if leading_spaces(s) < s.len() {
            assert(s.drop_first()[leading_spaces(s) - 1] == s[leading_spaces(s)]);
        }
    }
}

/// The trailing whitespace count marks the last non-space byte.
pub proof fn lemma_trailing_spaces(s: Seq<u8>)
    ensures
        0 <= trailing_spaces(s) <= s.len(),
        forall|j: int| s.len() - trailing_spaces(s) <= j < s.len() ==> is_space(#[trigger] s[j]),
        trailing_spaces(s) < s.len() ==> !is_space(s[s.len() - 1 - trailing_spaces(s)]),
    decreases s.len(),
{
    if s.len() > 0 && is_space(s.last()) {
        lemma_trailing_spaces(s.drop_last());
        assert forall|j: int| s.len() - trailing_spaces(s) <= j < s.len() implies is_space(
            #[trigger] s[j]) by {
            if j < s.len() - 1 {
                assert(s.drop_last()[j] == s[j]);
            }
        }
        if trailing_spaces(s) < s.len() {
            assert(s.drop_last()[s.len() - 2 - (trailing_spaces(s) - 1)] == s[s.len() - 1
                - trailing_spaces(s)]);
        }
    }
}

/// A line whose first and last bytes are not whitespace trims to itself.
pub proof fn lemma_trim_noop(s: Seq<u8>)
    requires
        s.len() > 0,
        !is_space(s[0]),
        !is_space(s.last()),
    ensures
        trim(s) == s,
{
    assert(trim(s) =~= s);
}

/// The trim of the empty line is empty.
pub proof fn lemma_trim_empty()
    ensures
        trim(Seq::<u8>::empty()) == Seq::<u8>::empty(),
{
    assert(trim(Seq::<u8>::empty()) =~= Seq::<u8>::empty());
}

/// Whether a byte is ASCII whitespace.
fn is_space_byte(b: u8) -> (r: bool)
    ensures
        r == is_space(b),
{
    b == 32 || (9 <= b && b <= 13)
}

/// The trimmed line, as a borrowed slice.
pub fn trim_slice<'a>(s: &'a [u8]) -> (r: &'a [u8])
    ensures
        r@ == trim(s@),
{
    proof {
        lemma_leading_spaces(s@);
    }
    let mut st: usize = 0;
    while st < s.len() && is_space_byte(s[st])
        invariant
            0 <= st <= s@.len(),
            forall|j: int| 0 <= j < st ==> is_space(#[trigger] s@[j]),
        decreases s@.len() - st,
    {
        st += 1;
    }
    proof {
        assert(st as int == leading_spaces(s@));
        lemma_trailing_spaces(s@.skip(st as int));
    }
    let mut en: usize = s.len();
    while en > st && is_space_byte(s[en - 1])
        invariant
            st <= en <= s@.len(),
            forall|j: int| en <= j < s@.len() ==> is_space(#[trigger] s@[j]),
        decreases en,
    {
        en -= 1;
    }
    proof {
        let t = s@.skip(st as int);
        assert forall|j: int| en - st <= j < t.len() implies is_space(#[trigger] t[j]) by {
            assert(t[j] == s@[j + st]);
        }
        if en > st {
            assert(t[en - st - 1] == s@[en - 1]);
            assert(!is_space(t[en - st - 1]));
        }
        let tr = trailing_spaces(t);
        assert(en - st == t.len() - tr) by {
            if tr < t.len() - (en - st) {
                assert(is_space(t[t.len() - 1 - tr]));
            }
            if tr > t.len() - (en - st) {
                assert(en > st);
                assert(is_space(t[en - st - 1]));
            }
        }
        assert(s@.subrange(st as int, en as int) =~= trim(s@));
    }
    vstd::slice::slice_subrange(s, st, en)
}

/// The index of the first occurrence of a byte, or the length when absent.
pub open spec fn find_byte(s: Seq<u8>, b: u8) -> int
    decreases s.len(),
{
    if s.len() == 0 {
        0
    } else if s[0] == b {
        0
    } else {
        1 + find_byte(s.drop_first(), b)
    }
}

/// The pieces of a line between occurrences of a separator byte; one more
/// piece than there are separators, empty pieces kept.
pub open spec fn split_on(s: Seq<u8>, b: u8) -> Seq<Seq<u8>>
    decreases s.len(),
{
    if s.len() == 0 {
        seq![Seq::<u8>::empty()]
    } else if s[0] == b {
        seq![Seq::<u8>::empty()] + split_on(s.drop_first(), b)
    } else {
        let r = split_on(s.drop_first(), b);
        seq![seq![s[0]] + r[0]] + r.skip(1)
    }
}

/// What the first separator occurrence says of the split: everything before
/// it is the first piece, and the rest splits on its own; a separator-free
/// line is one piece.
pub proof fn lemma_split_at_first(s: Seq<u8>, b: u8)
    ensures
        0 <= find_byte(s, b) <= s.len(),
        forall|j: int| 0 <= j < find_byte(s, b) ==> #[trigger] s[j] != b,
        find_byte(s, b) < s.len() ==> s[find_byte(s, b)] == b && split_on(s, b) == seq![
            s.take(find_byte(s, b)),
        ] + split_on(s.skip(find_byte(s, b) + 1), b),
        find_byte(s, b) == s.len() ==> split_on(s, b) == seq![s],
        split_on(s, b).len() >= 1,
    decreases s.len(),
{
    if s.len() == 0 {
        assert(split_on(s, b) == seq![s]) by {
            assert(s =~= Seq::<u8>::empty());
        }
    } else if s[0] == b {
        assert(s.take(0) =~= Seq::<u8>::empty());
        assert(s.skip(1) =~= s.drop_first());
    } else {
        let t = s.drop_first();
        lemma_split_at_first(t, b);
        let f = find_byte(s, b);
        assert(f == 1 + find_byte(t, b));
        assert forall|j: int| 0 <= j < f implies #[trigger] s[j] != b by {
            if j > 0 {
                assert(t[j - 1] == s[j]);
            }
        }
        if f < s.len() {
            assert(t[f - 1] == s[f]);
            assert(s.take(f) =~= seq![s[0]] + t.take(f - 1));
            assert(s.skip(f + 1) =~= t.skip(f));
            let r = split_on(t, b);
            assert(r == seq![t.take(f - 1)] + split_on(t.skip(f), b));
            assert(split_on(s, b) == seq![seq![s[0]] + r[0]] + r.skip(1));
            assert(r[0] == t.take(f - 1));
            assert(r.skip(1) =~= split_on(t.skip(f), b));
            assert(split_on(s, b) =~= seq![s.take(f)] + split_on(s.skip(f + 1), b));
        } else {
            let r = split_on(t, b);
            assert(r == seq![t]);
            assert(seq![s[0]] + r[0] =~= s);
            assert(r.skip(1) =~= Seq::<Seq<u8>>::empty());
            assert(split_on(s, b) =~= seq![s]);
        }
    }
}

/// The index of the first occurrence of a byte in a slice, or its length.
pub fn scan_byte(s: &[u8], b: u8) -> (r: usize)
    ensures
        r as int == find_byte(s@, b),
        r <= s@.len(),
{
    proof {
        lemma_split_at_first(s@, b);
    }
    let mut i: usize = 0;
    while i < s.len()
        invariant
            0 <= i <= s@.len(),
            forall|j: int| 0 <= j < i ==> #[trigger] s@[j] != b,
        decreases s@.len() - i,
    {
        if s[i] == b {
            proof {
                lemma_split_at_first(s@, b);
                let f = find_byte(s@, b);
                if f < i {
                    assert(s@[f] != b);
                }
            }
            return i;
        }
        i += 1;
    }
    i
}

/// The numeric value of a digit string, most significant digit first.
pub open spec fn digits_val(s: Seq<u8>) -> int
    decreases s.len(),
{
    if s.len() == 0 {
        0
    } else {
        10 * digits_val(s.drop_last()) + (s.last() - 48)
    }
}

/// Every byte is a decimal digit.
pub open spec fn all_digits(s: Seq<u8>) -> bool {
    forall|i: int| 0 <= i < s.len() ==> is_digit(#[trigger] s[i])
}

/// The integer a literal denotes: an optional sign followed by at least one
/// digit; anything else denotes nothing.
pub open spec fn parsed_int(s: Seq<u8>) -> Option<int> {
    if s.len() >= 1 && (s[0] == 45 || s[0] == 43) {
        let d = s.drop_first();
        if d.len() > 0 && all_digits(d) {
            Some(
                if s[0] == 45 {
                    -digits_val(d)
                } else {
                    digits_val(d)
                },
            )
        } else {
            None
        }
    } else if s.len() > 0 && all_digits(s) {
        Some(digits_val(s))
    } else {
        None
    }
}

/// The value a literal denotes when that value fits the value type.
pub open spec fn parsed_i64(s: Seq<u8>) -> Option<int> {
    match parsed_int(s) {
        Some(v) => if i64::MIN <= v <= i64::MAX {
            Some(v)
        } else {
            None
        },
        None => None,
    }
}

/// A digit string denotes a non-negative value.
pub proof fn lemma_digits_val_nonneg(s: Seq<u8>)
    requires
        all_digits(s),
    ensures
        digits_val(s) >= 0,
    decreases s.len(),
{
    if s.len() > 0 {
        assert(forall|i: int| 0 <= i < s.drop_last().len() ==> s.drop_last()[i] == s[i]);
        lemma_digits_val_nonneg(s.drop_last());
    }
}

/// A digit string denotes at least what any of its prefixes denotes.
pub proof fn lemma_digits_val_mono(s: Seq<u8>, m: int)
    requires
        all_digits(s),
        0 <= m <= s.len(),
    ensures
        digits_val(s.take(m)) <= digits_val(s),
        digits_val(s.take(m)) >= 0,
    decreases s.len() - m,
{
    assert(forall|i: int| 0 <= i < m ==> s.take(m)[i] == s[i]);
    lemma_digits_val_nonneg(s.take(m));
    if m < s.len() {
        assert(s.take(m + 1).drop_last() =~= s.take(m));
        assert(s.take(m + 1).last() == s[m]);
        lemma_digits_val_mono(s, m + 1);
    } else {
        assert(s.take(m) =~= s);
    }
}

/// Reads a decimal integer literal: an optional sign, then digits; rejects
/// anything else and any value outside the value type's range.
pub fn parse_i64(s: &[u8]) -> (r: Option<i64>)
    ensures
        match r {
            Some(v) => parsed_i64(s@) == Some(v as int),
            None => parsed_i64(s@) is None,
        },
{
    let mut idx: usize = 0;
    let mut neg = false;
    if s.len() > 0 && (s[0] == 45 || s[0] == 43) {
        neg = s[0] == 45;
        idx = 1;
    }
    if idx == s.len() {
        return None;
    }
    let ghost d = s@.skip(idx as int);
    let mut acc: u128 = 0;
    let mut i: usize = idx;
    while i < s.len()
        invariant
            idx <= i <= s@.len(),
            idx == 0 || idx == 1,
            idx < s@.len(),
            idx == 1 ==> s@[0] == 45 || s@[0] == 43,
            idx == 0 ==> !(s@.len() >= 1 && (s@[0] == 45 || s@[0] == 43)),
            neg <==> (idx == 1 && s@[0] == 45),
            d == s@.skip(idx as int),
            all_digits(d.take(i - idx)),
            acc as int == digits_val(d.take(i - idx)),
            acc <= 0x8000_0000_0000_0000u128,
        decreases s@.len() - i,
    {
        let b = s[i];
        proof {
            assert(d[i - idx] == s@[i as int]);
        }
        if !(48 <= b && b <= 57) {
            proof {
                assert(!is_digit(d[i - idx]));
                assert(!all_digits(d));
                if idx == 0 {
                    assert(d =~= s@);
                }
            }
            return None;
        }
        let dd = (b - 48) as u128;
        let new_acc = acc * 10 + dd;
        proof {
            assert(d.take(i - idx + 1).drop_last() =~= d.take(i - idx));
            assert(d.take(i - idx + 1).last() == d[i - idx]);
            assert(new_acc as int == digits_val(d.take(i - idx + 1)));
        }
        if new_acc > 0x8000_0000_0000_0000u128 {
            proof {
                if all_digits(d) {
                    lemma_digits_val_mono(d, i - idx + 1);
                    assert(digits_val(d) > 0x8000_0000_0000_0000);
                }
                if idx == 0 {
                    assert(d =~= s@);
                }
            }
            return None;
        }
        acc = new_acc;
        i += 1;
    }
    proof {
        assert(d.take(i - idx) =~= d);
        if idx == 0 {
            assert(d =~= s@);
        }
        assert(d.len() > 0);
    }
    if neg {
        if acc == 0x8000_0000_0000_0000u128 {
            Some(i64::MIN)
        } else {
            Some(-(acc as i64))
        }
    } else {
        if acc == 0x8000_0000_0000_0000u128 {
            None
        } else {
            Some(acc as i64)
        }
    }
}

/// The decimal digits of a non-negative value, most significant first.
pub open spec fn dec_of_nat(n: int) -> Seq<u8>
    decreases n,
{
    if n < 10 {
        seq![(48 + n) as u8]
    } else {
        dec_of_nat(n / 10).push((48 + n % 10) as u8)
    }
}

/// The decimal form of a value: a minus sign before the digits of its
/// magnitude when it is negative.
pub open spec fn dec_of_int(v: int) -> Seq<u8> {
    if v < 0 {
        seq![45u8] + dec_of_nat(-v)
    } else {
        dec_of_nat(v)
    }
}

/// The decimal digits of a non-negative value denote it back.
pub proof fn lemma_dec_of_nat(n: int)
    requires
        n >= 0,
    ensures
        all_digits(dec_of_nat(n)),
        dec_of_nat(n).len() >= 1,
        digits_val(dec_of_nat(n)) == n,
    decreases n,
{
    if n < 10 {
        assert(dec_of_nat(n) == seq![(48 + n) as u8]);
        assert(digits_val(dec_of_nat(n)) == 10 * digits_val(dec_of_nat(n).drop_last()) + (48 + n
            - 48));
        assert(dec_of_nat(n).drop_last() =~= Seq::<u8>::empty());
    } else {
        lemma_dec_of_nat(n / 10);
        let t = dec_of_nat(n / 10);
        let w = dec_of_nat(n);
        assert(w == t.push((48 + n % 10) as u8));
        assert(w.drop_last() =~= t);
        assert(w.last() == (48 + n % 10) as u8);
        assert(digits_val(w) == 10 * (n / 10) + n % 10);
        assert forall|j: int| 0 <= j < w.len() implies is_digit(#[trigger] w[j]) by {
            if j < t.len() {
                assert(w[j] == t[j]);
            }
        }
    }
}

/// A rendered value parses back to itself.
pub proof fn lemma_parse_of_dec(v: int)
    requires
        i64::MIN <= v <= i64::MAX,
    ensures
        parsed_i64(dec_of_int(v)) == Some(v),
{
    if v < 0 {
        lemma_dec_of_nat(-v);
        let s = dec_of_int(v);
        assert(s[0] == 45);
        assert(s.drop_first() =~= dec_of_nat(-v));
        assert(parsed_int(s) == Some(-digits_val(dec_of_nat(-v))));
    } else {
        lemma_dec_of_nat(v);
        let s = dec_of_int(v);
        assert(is_digit(s[0]));
        assert(parsed_int(s) == Some(digits_val(s)));
    }
}

/// What reading lines has gathered so far: the two declared extents and the
/// mapping of cells collected.
pub struct ParseState {
    pub rows: int,
    pub cols: int,
    pub cells: Map<(int, int), int>,
}

/// The bytes of `rows`, the first header tag.
pub open spec fn rows_tag() -> Seq<u8> {
    seq![114u8, 111u8, 119u8, 115u8]
}

/// The bytes of `cols`, the second header tag.
pub open spec fn cols_tag() -> Seq<u8> {
    seq![99u8, 111u8, 108u8, 115u8]
}

/// The line begins with the given bytes.
pub open spec fn starts_with(s: Seq<u8>, p: Seq<u8>) -> bool {
    s.len() >= p.len() && s.take(p.len() as int) == p
}

/// The value part of a header line: what stands between the first `=` and
/// the next one or the end, trimmed; a header without `=` has none.
pub open spec fn header_value(t: Seq<u8>) -> Option<Seq<u8>> {
    let f = find_byte(t, 61);
    if f == t.len() {
        None
    } else {
        let rest = t.skip(f + 1);
        Some(trim(rest.take(find_byte(rest, 61))))
    }
}

/// Storing a read cell: the latest value read for a coordinate wins, and a
/// zero value leaves the coordinate unoccupied.
pub open spec fn set_cell(cells: Map<(int, int), int>, r: int, c: int, v: int) -> Map<(int, int), int> {
    if v == 0 {
        cells.remove((r, c))
    } else {
        cells.insert((r, c), v)
    }
}

/// An entry line's interior must be a comma-separated triple of integers;
/// the triple read is stored, anything else is a parse failure.
pub open spec fn entry_update(st: ParseState, interior: Seq<u8>) -> Result<ParseState, MatrixError> {
    let ps = split_on(interior, 44);
    if ps.len() == 3 {
        match (parsed_i64(trim(ps[0])), parsed_i64(trim(ps[1])), parsed_i64(trim(ps[2]))) {
            (Some(r), Some(c), Some(v)) => Ok(
                ParseState { rows: st.rows, cols: st.cols, cells: set_cell(st.cells, r, c, v) },
            ),
            _ => Err(MatrixError::ParseError),
        }
    } else {
        Err(MatrixError::ParseError)
    }
}

/// One line of input: a `rows`/`cols` header sets an extent, a parenthesized
/// line stores a cell, and any other line is ignored.
pub open spec fn process_line(st: ParseState, line: Seq<u8>) -> Result<ParseState, MatrixError> {
    let t = trim(line);
    if starts_with(t, rows_tag()) {
        match header_value(t) {
            Some(hv) => match parsed_i64(hv) {
                Some(n) => Ok(ParseState { rows: n, cols: st.cols, cells: st.cells }),
                None => Err(MatrixError::ParseError),
            },
            None => Err(MatrixError::ParseError),
        }
    } else if starts_with(t, cols_tag()) {
        match header_value(t) {
            Some(hv) => match parsed_i64(hv) {
                Some(n) => Ok(ParseState { rows: st.rows, cols: n, cells: st.cells }),
                None => Err(MatrixError::ParseError),
            },
            None => Err(MatrixError::ParseError),
        }
    } else if t.len() >= 2 && t[0] == 40 && t.last() == 41 {
        entry_update(st, t.subrange(1, t.len() - 1))
    } else {
        Ok(st)
    }
}

/// The lines of the input folded in order, stopping at the first failure.
pub open spec fn parse_lines(lines: Seq<Seq<u8>>, st: ParseState) -> Result<ParseState, MatrixError>
    decreases lines.len(),
{
    if lines.len() == 0 {
        Ok(st)
    } else {
        match process_line(st, lines[0]) {
            Ok(st2) => parse_lines(lines.drop_first(), st2),
            Err(e) => Err(e),
        }
    }
}

/// Before any line is read: no extents, no cells.
pub open spec fn init_state() -> ParseState {
    ParseState { rows: 0, cols: 0, cells: Map::<(int, int), int>::empty() }
}

/// Every collected cell lies within the declared extents.
pub open spec fn in_extents(st: ParseState) -> bool {
    forall|k: (int, int)|
        #[trigger] st.cells.dom().contains(k) ==> 1 <= k.0 <= st.rows && 1 <= k.1 <= st.cols
}

/// The whole textual form: split into lines, folded, and checked against the
/// declared extents; a cell outside them is corrupt data.
pub open spec fn full_parse(s: Seq<u8>) -> Result<ParseState, MatrixError> {
    match parse_lines(split_on(s, 10), init_state()) {
        Ok(st) => if in_extents(st) {
            Ok(st)
        } else {
            Err(MatrixError::BoundsError)
        },
        Err(e) => Err(e),
    }
}

/// The state a set of locals stands for during parsing.
pub open spec fn state_of(rows: i64, cols: i64, s: Seq<Entry>) -> ParseState {
    ParseState { rows: rows as int, cols: cols as int, cells: map_of_entries(s) }
}

/// One line rendered for a stored cell, newline included.
pub open spec fn render_entry(e: Entry) -> Seq<u8> {
    seq![40u8] + dec_of_int(e.row as int) + seq![44u8, 32u8] + dec_of_int(e.col as int) + seq![
        44u8,
        32u8,
    ] + dec_of_int(e.val as int) + seq![41u8, 10u8]
}

/// The rendered lines of a list of cells, in storage order.
pub open spec fn render_entries(s: Seq<Entry>) -> Seq<u8>
    decreases s.len(),
{
    if s.len() == 0 {
        Seq::<u8>::empty()
    } else {
        render_entry(s[0]) + render_entries(s.drop_first())
    }
}

/// The whole textual form of a matrix: the two header lines, then one line
/// per stored cell.
pub open spec fn render(rows: int, cols: int, s: Seq<Entry>) -> Seq<u8> {
    rows_tag() + seq![61u8] + dec_of_int(rows) + seq![10u8] + cols_tag() + seq![61u8] + dec_of_int(
        cols,
    ) + seq![10u8] + render_entries(s)
}

/// Rendering one more cell appends its line.
pub proof fn lemma_render_entries_snoc(s: Seq<Entry>, e: Entry)
    ensures
        render_entries(s.push(e)) == render_entries(s) + render_entry(e),
    decreases s.len(),
{
    assert(render_entries(Seq::<Entry>::empty()) == Seq::<u8>::empty());
    if s.len() == 0 {
        assert(s.push(e)[0] == e);
        assert(s.push(e).drop_first() =~= Seq::<Entry>::empty());
        assert(render_entries(s.push(e)) == render_entry(e) + render_entries(
            s.push(e).drop_first()));
        assert(render_entries(s.push(e)) =~= render_entries(s) + render_entry(e));
    } else {
        assert(s.push(e)[0] == s[0]);
        assert(s.push(e).drop_first() =~= s.drop_first().push(e));
        lemma_render_entries_snoc(s.drop_first(), e);
        assert(render_entries(s.push(e)) == render_entry(s[0]) + render_entries(
            s.drop_first().push(e)));
        assert(render_entries(s) == render_entry(s[0]) + render_entries(s.drop_first()));
        assert(render_entry(s[0]) + (render_entries(s.drop_first()) + render_entry(e))
            =~= (render_entry(s[0]) + render_entries(s.drop_first())) + render_entry(e));
    }
}

/// The header value of a header slice, already parsed.
fn read_header_value(t: &[u8]) -> (r: Option<i64>)
    ensures
        match header_value(t@) {
            Some(hv) => match parsed_i64(hv) {
                Some(n) => r matches Some(v) && v as int == n,
                None => r is None,
            },
            None => r is None,
        },
{
    let f = scan_byte(t, 61);
    if f == t.len() {
        return None;
    }
    let rest = vstd::slice::slice_subrange(t, f + 1, t.len());
    proof {
        assert(rest@ =~= t@.skip(f as int + 1));
    }
    let g = scan_byte(rest, 61);
    let piece = vstd::slice::slice_subrange(rest, 0, g);
    proof {
        assert(piece@ =~= rest@.take(g as int));
    }
    let tv = trim_slice(piece);
    parse_i64(tv)
}

/// Folds one line of input into the parsing locals.
fn handle_line(line: &[u8], rows: &mut i64, cols: &mut i64, ents: &mut Vec<Entry>) -> (r: Result<
    (),
    MatrixError,
>)
    requires
        unique_keys(old(ents)@),
        forall|i: int| 0 <= i < old(ents)@.len() ==> (#[trigger] old(ents)@[i]).val != 0,
    ensures
        match process_line(state_of(*old(rows), *old(cols), old(ents)@), line@) {
            Ok(st2) => {
                &&& r == Ok::<(), MatrixError>(())
                &&& state_of(*final(rows), *final(cols), final(ents)@) == st2
                &&& unique_keys(final(ents)@)
                &&& forall|i: int|
                    0 <= i < final(ents)@.len() ==> (#[trigger] final(ents)@[i]).val != 0
            },
            Err(e) => r == Err::<(), MatrixError>(e),
        },
{
    let t = trim_slice(line);
    let ghost st0 = state_of(*rows, *cols, ents@);
    if t.len() >= 4 && t[0] == 114 && t[1] == 111 && t[2] == 119 && t[3] == 115 {
        proof {
            assert(t@.take(4) =~= rows_tag());
        }
        match read_header_value(t) {
            Some(v) => {
                *rows = v;
                Ok(())
            },
            None => Err(MatrixError::ParseError),
        }
    } else if t.len() >= 4 && t[0] == 99 && t[1] == 111 && t[2] == 108 && t[3] == 115 {
        proof {
            assert(t@.take(4) =~= cols_tag());
            assert(!starts_with(t@, rows_tag())) by {
                if starts_with(t@, rows_tag()) {
                    assert(t@.take(4)[0] == 114);
                }
            }
        }
        match read_header_value(t) {
            Some(v) => {
                *cols = v;
                Ok(())
            },
            None => Err(MatrixError::ParseError),
        }
    } else if t.len() >= 2 && t[0] == 40 && t[t.len() - 1] == 41 {
        proof {
            assert(!starts_with(t@, rows_tag())) by {
                if starts_with(t@, rows_tag()) {
                    assert(t@.take(4)[0] == 114);
                }
            }
            assert(!starts_with(t@, cols_tag())) by {
                if starts_with(t@, cols_tag()) {
                    assert(t@.take(4)[0] == 99);
                }
            }
        }
        let interior = vstd::slice::slice_subrange(t, 1, t.len() - 1);
        proof {
            assert(interior@ =~= t@.subrange(1, t@.len() - 1));
            lemma_split_at_first(interior@, 44);
        }
        let ghost ps = split_on(interior@, 44);
        let f1 = scan_byte(interior, 44);
        if f1 == interior.len() {
            proof {
                assert(ps.len() == 1);
            }
            return Err(MatrixError::ParseError);
        }
        let p0 = vstd::slice::slice_subrange(interior, 0, f1);
        let rest1 = vstd::slice::slice_subrange(interior, f1 + 1, interior.len());
        proof {
            assert(p0@ =~= interior@.take(f1 as int));
            assert(rest1@ =~= interior@.skip(f1 as int + 1));
            lemma_split_at_first(rest1@, 44);
            assert(ps == seq![p0@] + split_on(rest1@, 44));
        }
        let f2 = scan_byte(rest1, 44);
        if f2 == rest1.len() {
            proof {
                assert(ps =~= seq![p0@, rest1@]);
            }
            return Err(MatrixError::ParseError);
        }
        let p1 = vstd::slice::slice_subrange(rest1, 0, f2);
        let rest2 = vstd::slice::slice_subrange(rest1, f2 + 1, rest1.len());
        proof {
            assert(p1@ =~= rest1@.take(f2 as int));
            assert(rest2@ =~= rest1@.skip(f2 as int + 1));
            lemma_split_at_first(rest2@, 44);
        }
        let f3 = scan_byte(rest2, 44);
        if f3 < rest2.len() {
            proof {
                assert(split_on(rest2@, 44).len() >= 2) by {
                    assert(split_on(rest2@.skip(f3 as int + 1), 44).len() >= 1) by {
                        lemma_split_at_first(rest2@.skip(f3 as int + 1), 44);
                    }
                }
                assert(ps.len() >= 4);
            }
            return Err(MatrixError::ParseError);
        }
        proof {
            assert(split_on(rest2@, 44) == seq![rest2@]);
            assert(ps =~= seq![p0@, p1@, rest2@]);
            assert(ps[0] == p0@ && ps[1] == p1@ && ps[2] == rest2@);
        }
        let v0 = parse_i64(trim_slice(p0));
        let v1 = parse_i64(trim_slice(p1));
        let v2 = parse_i64(trim_slice(rest2));
        match (v0, v1, v2) {
            (Some(er), Some(ec), Some(ev)) => {
                let ghost k = (er as int, ec as int);
                match crate::matrix::find_index(ents, er, ec) {
                    Some(i) => {
                        proof {
                            lemma_map_remove(ents@, i as int);
                            lemma_unique_remove(ents@, i as int);
                        }
                        ents.remove(i);
                    },
                    None => {
                        proof {
                            lemma_map_absent(ents@, er as int, ec as int);
                            assert(map_of_entries(ents@).remove(k) =~= map_of_entries(ents@));
                        }
                    },
                }
                proof {
                    assert(map_of_entries(ents@) == st0.cells.remove(k));
                }
                if ev != 0 {
                    proof {
                        lemma_map_push(ents@, Entry { row: er, col: ec, val: ev });
                        lemma_map_dom(ents@, er as int, ec as int);
                        assert(st0.cells.remove(k).insert(k, ev as int) =~= st0.cells.insert(
                            k,
                            ev as int,
                        ));
                    }
                    let ghost pre = ents@;
                    ents.push(Entry { row: er, col: ec, val: ev });
                    proof {
                        assert forall|a: int, b: int|
                            0 <= a < b < ents@.len() implies key_of(#[trigger] ents@[a]) != key_of(
                            #[trigger] ents@[b]) by {
                            if b < ents@.len() - 1 {
                                assert(ents@[a] == pre[a] && ents@[b] == pre[b]);
                            } else {
                                assert(ents@[b] == Entry { row: er, col: ec, val: ev });
                                assert(ents@[a] == pre[a]);
                                assert(!seq_has_key(pre, er as int, ec as int));
                            }
                        }
                    }
                }
                Ok(())
            },
            _ => Err(MatrixError::ParseError),
        }
    } else {
        proof {
            assert(!starts_with(t@, rows_tag())) by {
                if starts_with(t@, rows_tag()) {
                    assert(t@.take(4)[0] == 114 && t@.take(4)[1] == 111 && t@.take(4)[2] == 119
                        && t@.take(4)[3] == 115);
                }
            }
            assert(!starts_with(t@, cols_tag())) by {
                if starts_with(t@, cols_tag()) {
                    assert(t@.take(4)[0] == 99 && t@.take(4)[1] == 111 && t@.take(4)[2] == 108
                        && t@.take(4)[3] == 115);
                }
            }
        }
        Ok(())
    }
}

impl SparseMatrix {
    /// Reads a matrix from its textual form, line by line: header lines set
    /// the extents, parenthesized lines store cells, any other line is
    /// ignored; a malformed header or triple is a parse failure, and a cell
    /// outside the declared extents is corrupt data.
    pub fn from_source(text: &[u8]) -> (r: Result<SparseMatrix, MatrixError>)
        ensures
            match full_parse(text@) {
                Ok(st) => r matches Ok(m) && m.wf() && m.rows as int == st.rows && m.cols as int
                    == st.cols && m@ == st.cells,
                Err(e) => r == Err::<SparseMatrix, MatrixError>(e),
            },
    {
        let mut rows: i64 = 0;
        let mut cols: i64 = 0;
        let mut ents: Vec<Entry> = Vec::new();
        let ghost all_lines = split_on(text@, 10);
        let mut pos: usize = 0;
        proof {
            assert(text@.skip(0) =~= text@);
            assert(map_of_entries(ents@) =~= Map::<(int, int), int>::empty());
            assert(state_of(rows, cols, ents@) == init_state());
        }
        loop
            invariant_except_break
                parse_lines(all_lines, init_state()) == parse_lines(
                    split_on(text@.skip(pos as int), 10),
                    state_of(rows, cols, ents@),
                ),
            invariant
                pos <= text@.len(),
                unique_keys(ents@),
                forall|i: int| 0 <= i < ents@.len() ==> (#[trigger] ents@[i]).val != 0,
                all_lines == split_on(text@, 10),
            ensures
                unique_keys(ents@),
                forall|i: int| 0 <= i < ents@.len() ==> (#[trigger] ents@[i]).val != 0,
                parse_lines(all_lines, init_state()) == Ok::<ParseState, MatrixError>(
                    state_of(rows, cols, ents@),
                ),
                all_lines == split_on(text@, 10),
            decreases text@.len() - pos,
        {
            let rest = vstd::slice::slice_subrange(text, pos, text.len());
            proof {
                assert(rest@ =~= text@.skip(pos as int));
                lemma_split_at_first(rest@, 10);
            }
            let f = scan_byte(rest, 10);
            let line = vstd::slice::slice_subrange(rest, 0, f);
            proof {
                assert(line@ =~= rest@.take(f as int));
            }
            let ghost st_before = state_of(rows, cols, ents@);
            match handle_line(line, &mut rows, &mut cols, &mut ents) {
                Err(e) => {
                    proof {
                        if f < rest.len() {
                            assert(split_on(rest@, 10) == seq![line@] + split_on(
                                rest@.skip(f as int + 1),
                                10,
                            ));
                            assert(split_on(rest@, 10)[0] == line@);
                            assert(split_on(rest@, 10).drop_first() =~= split_on(
                                rest@.skip(f as int + 1),
                                10,
                            ));
                        } else {
                            assert(split_on(rest@, 10) == seq![line@]) by {
                                assert(rest@.take(f as int) =~= rest@);
                            }
                            assert(split_on(rest@, 10)[0] == line@);
                        }
                        assert(parse_lines(all_lines, init_state()) == Err::<
                            ParseState,
                            MatrixError,
                        >(e));
                    }
                    return Err(e);
                },
                Ok(()) => {
                    proof {
                        if f < rest.len() {
                            assert(split_on(rest@, 10) == seq![line@] + split_on(
                                rest@.skip(f as int + 1),
                                10,
                            ));
                            assert(split_on(rest@, 10)[0] == line@);
                            assert(split_on(rest@, 10).drop_first() =~= split_on(
                                rest@.skip(f as int + 1),
                                10,
                            ));
                            assert(text@.skip(pos + f as int + 1) =~= rest@.skip(f as int + 1));
                        } else {
                            assert(split_on(rest@, 10) == seq![line@]) by {
                                assert(rest@.take(f as int) =~= rest@);
                            }
                            assert(split_on(rest@, 10)[0] == line@);
                            assert(split_on(rest@, 10).drop_first()
                                =~= Seq::<Seq<u8>>::empty());
                            assert(split_on(rest@, 10).drop_first().len() == 0);
                        }
                    }
                    proof {
                        assert(parse_lines(split_on(rest@, 10), st_before) == parse_lines(
                            split_on(rest@, 10).drop_first(),
                            state_of(rows, cols, ents@),
                        ));
                    }
                    if f == rest.len() {
                        proof {
                            assert(parse_lines(Seq::<Seq<u8>>::empty(), state_of(rows, cols, ents@))
                                == Ok::<ParseState, MatrixError>(state_of(rows, cols, ents@)));
                            assert(parse_lines(split_on(rest@, 10), st_before) == parse_lines(
                                split_on(rest@, 10).drop_first(),
                                state_of(rows, cols, ents@),
                            ));
                            assert(parse_lines(all_lines, init_state()) == Ok::<
                                ParseState,
                                MatrixError,
                            >(state_of(rows, cols, ents@)));
                        }
                        break;
                    }
                    pos = pos + f + 1;
                },
            }
        }
        let ghost st = state_of(rows, cols, ents@);
        let mut i: usize = 0;
        while i < ents.len()
            invariant
                i <= ents@.len(),
                unique_keys(ents@),
                st == state_of(rows, cols, ents@),
                forall|j: int| 0 <= j < ents@.len() ==> (#[trigger] ents@[j]).val != 0,
                parse_lines(all_lines, init_state()) == Ok::<ParseState, MatrixError>(st),
                all_lines == split_on(text@, 10),
                forall|j: int|
                    0 <= j < i ==> crate::matrix::entry_ok(
                        #[trigger] ents@[j],
                        rows as int,
                        cols as int,
                    ),
            decreases ents@.len() - i,
        {
            let e = ents[i];
            if !(1 <= e.row && e.row <= rows && 1 <= e.col && e.col <= cols) {
                proof {
                    lemma_map_at_index(ents@, i as int);
                    assert(st.cells.dom().contains(key_of(ents@[i as int])));
                    assert(!in_extents(st));
                }
                return Err(MatrixError::BoundsError);
            }
            i += 1;
        }
        proof {
            assert(in_extents(st)) by {
                assert forall|k: (int, int)| #[trigger] st.cells.dom().contains(k) implies 1 <= k.0
                    <= st.rows && 1 <= k.1 <= st.cols by {
                    lemma_map_dom(ents@, k.0, k.1);
                    let j = choose|j: int| 0 <= j < ents@.len() && key_of(ents@[j]) == (k.0, k.1);
                    assert(crate::matrix::entry_ok(ents@[j], rows as int, cols as int));
                }
            }
        }
        Ok(SparseMatrix { rows, cols, entries: ents })
    }

    /// Renders the matrix in its textual form: `rows=` and `cols=` header
    /// lines, then one `(row, col, value)` line per stored cell, in storage
    /// order.
    #[verifier::rlimit(50)]
    pub fn to_text(&self) -> (r: Vec<u8>)
        ensures
            r@ == render(self.rows as int, self.cols as int, self.entries@),
    {
        let mut out: Vec<u8> = Vec::new();
        out.push(114);
        out.push(111);
        out.push(119);
        out.push(115);
        out.push(61);
        proof {
            assert(out@ =~= rows_tag() + seq![61u8]);
        }
        push_dec_i64(self.rows, &mut out);
        out.push(10);
        out.push(99);
        out.push(111);
        out.push(108);
        out.push(115);
        out.push(61);
        push_dec_i64(self.cols, &mut out);
        out.push(10);
        let ghost head = rows_tag() + seq![61u8] + dec_of_int(self.rows as int) + seq![10u8]
            + cols_tag() + seq![61u8] + dec_of_int(self.cols as int) + seq![10u8];
        proof {
            assert(out@ =~= head);
            assert(render_entries(self.entries@.take(0)) =~= Seq::<u8>::empty());
            assert(out@ =~= head + render_entries(self.entries@.take(0)));
        }
        let mut i: usize = 0;
        while i < self.entries.len()
            invariant
                i <= self.entries@.len(),
                head == rows_tag() + seq![61u8] + dec_of_int(self.rows as int) + seq![10u8]
                    + cols_tag() + seq![61u8] + dec_of_int(self.cols as int) + seq![10u8],
                out@ == head + render_entries(self.entries@.take(i as int)),
            decreases self.entries@.len() - i,
        {
            let e = self.entries[i];
            out.push(40);
            push_dec_i64(e.row, &mut out);
            out.push(44);
            out.push(32);
            push_dec_i64(e.col, &mut out);
            out.push(44);
            out.push(32);
            push_dec_i64(e.val, &mut out);
            out.push(41);
            out.push(10);
            proof {
                assert(self.entries@.take(i as int + 1) =~= self.entries@.take(i as int).push(
                    self.entries@[i as int]));
                lemma_render_entries_snoc(self.entries@.take(i as int), self.entries@[i as int]);
                assert(out@ =~= head + render_entries(self.entries@.take(i as int + 1)));
            }
            i += 1;
        }
        proof {
            assert(self.entries@.take(self.entries@.len() as int) =~= self.entries@);
            assert(out@ =~= render(self.rows as int, self.cols as int, self.entries@));
        }
        out
    }
}

/// Appends the decimal digits of a non-negative value.
fn push_dec_u64(n: u64, out: &mut Vec<u8>)
    ensures
        final(out)@ == old(out)@ + dec_of_nat(n as int),
    decreases n,
{
    if n < 10 {
        out.push(48 + n as u8);
        proof {
            assert(old(out)@.push((48 + n as int) as u8) =~= old(out)@ + dec_of_nat(n as int));
        }
    } else {
        push_dec_u64(n / 10, out);
        out.push(48 + (n % 10) as u8);
        proof {
            assert((old(out)@ + dec_of_nat(n as int / 10)).push((48 + n as int % 10) as u8)
                =~= old(out)@ + dec_of_nat(n as int));
        }
    }
}

/// Appends the decimal form of a value, minus sign included.
fn push_dec_i64(v: i64, out: &mut Vec<u8>)
    ensures
        final(out)@ == old(out)@ + dec_of_int(v as int),
{
    if v < 0 {
        out.push(45);
        let m: u64 = (-(v as i128)) as u64;
        proof {
            assert(m as int == -(v as int));
        }
        push_dec_u64(m, out);
        proof {
            assert(old(out)@.push(45u8) + dec_of_nat(m as int) =~= old(out)@ + dec_of_int(
                v as int,
            ));
        }
    } else {
        push_dec_u64(v as u64, out);
    }
}

} // verus!
