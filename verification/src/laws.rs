//! The algebraic laws of the arithmetic: proved once over the entry mappings
//! that the operations' contracts are stated with.

use vstd::prelude::*;

use crate::arith::{add_map, lemma_lin_map_val, lemma_no_zero_ext, mul_cell, mul_map, sub_map};
use crate::codec::{
    cols_tag, dec_of_int, dec_of_nat, find_byte, full_parse, header_value, init_state, is_digit, is_space,
    lemma_dec_of_nat, lemma_parse_of_dec, lemma_split_at_first, lemma_trim_empty, lemma_trim_noop,
    parse_lines, parsed_i64, process_line, render, render_entries, render_entry, rows_tag,
    set_cell, split_on, starts_with, trim, ParseState,
};
use crate::matrix::{acc_map, key_of, map_of_entries, val_at, Entry, SparseMatrix};

verus! {

/// A mapping that stores no zero value, as every well-formed matrix does.
pub open spec fn no_zeros(m: Map<(int, int), int>) -> bool {
    forall|k: (int, int)| #[trigger] m.dom().contains(k) ==> m[k] != 0
}

/// Accumulating keeps the no-zero invariant: a cell that becomes zero is
/// pruned rather than stored.
pub proof fn lemma_acc_map_no_zeros(m: Map<(int, int), int>, r: int, c: int, d: int)
    requires
        no_zeros(m),
    ensures
        no_zeros(acc_map(m, r, c, d)),
{
    assert forall|k: (int, int)| #[trigger] acc_map(m, r, c, d).dom().contains(k) implies acc_map(
        m,
        r,
        c,
        d,
    )[k] != 0 by {}
}

/// Accumulating a delta and then its negation at one coordinate restores the
/// mapping exactly; in particular a coordinate that held no entry holds none
/// afterwards.
pub proof fn lemma_accumulate_cancel(m: Map<(int, int), int>, r: int, c: int, v: int)
    requires
        no_zeros(m),
    ensures
        acc_map(acc_map(m, r, c, v), r, c, -v) == m,
        !m.dom().contains((r, c)) ==> !acc_map(acc_map(m, r, c, v), r, c, -v).dom().contains(
            (r, c),
        ),
{
    let m1 = acc_map(m, r, c, v);
    let m2 = acc_map(m1, r, c, -v);
    lemma_acc_map_no_zeros(m, r, c, v);
    lemma_acc_map_no_zeros(m1, r, c, -v);
    crate::arith::lemma_acc_map_val(m, r, c, v);
    crate::arith::lemma_acc_map_val(m1, r, c, -v);
    assert forall|r2: int, c2: int| #[trigger]
        val_at(m2, r2, c2) == #[trigger] val_at(m, r2, c2) by {}
    lemma_no_zero_ext(m2, m);
}

/// Adding the empty matrix changes nothing: `M + Zero = M`.
pub proof fn lemma_add_zero(m: Map<(int, int), int>)
    requires
        no_zeros(m),
    ensures
        add_map(m, Map::<(int, int), int>::empty()) == m,
{
    let z = Map::<(int, int), int>::empty();
    assert forall|r: int, c: int| #[trigger]
        val_at(add_map(m, z), r, c) == #[trigger] val_at(m, r, c) by {
        lemma_lin_map_val(m, z, false, r, c);
    }
    assert forall|k: (int, int)| #[trigger] add_map(m, z).dom().contains(k) implies add_map(
        m,
        z,
    )[k] != 0 by {
        lemma_lin_map_val(m, z, false, k.0, k.1);
    }
    lemma_no_zero_ext(add_map(m, z), m);
}

/// Subtracting a matrix from itself leaves the empty mapping: `M - M = Zero`.
pub proof fn lemma_sub_self(m: Map<(int, int), int>)
    ensures
        sub_map(m, m) == Map::<(int, int), int>::empty(),
{
    assert forall|k: (int, int)| !(#[trigger] sub_map(m, m).dom().contains(k)) by {
        lemma_lin_map_val(m, m, true, k.0, k.1);
    }
    assert(sub_map(m, m) =~= Map::<(int, int), int>::empty());
}

/// Addition is commutative: `A + B` has the same entry mapping as `B + A`.
pub proof fn lemma_add_comm(a: Map<(int, int), int>, b: Map<(int, int), int>)
    ensures
        add_map(a, b) == add_map(b, a),
{
    assert forall|r: int, c: int| #[trigger]
        val_at(add_map(a, b), r, c) == #[trigger] val_at(add_map(b, a), r, c) by {
        lemma_lin_map_val(a, b, false, r, c);
        lemma_lin_map_val(b, a, false, r, c);
    }
    assert forall|k: (int, int)| #[trigger] add_map(a, b).dom().contains(k) implies add_map(
        a,
        b,
    )[k] != 0 by {}
    assert forall|k: (int, int)| #[trigger] add_map(b, a).dom().contains(k) implies add_map(
        b,
        a,
    )[k] != 0 by {}
    lemma_no_zero_ext(add_map(a, b), add_map(b, a));
}

/// One cell of a product against a sum splits into the two products' cells.
proof fn lemma_mul_cell_distributes(
    a: Map<(int, int), int>,
    b: Map<(int, int), int>,
    c: Map<(int, int), int>,
    n: int,
    i: int,
    k: int,
)
    ensures
        mul_cell(a, add_map(b, c), n, i, k) == mul_cell(a, b, n, i, k) + mul_cell(a, c, n, i, k),
    decreases n,
{
    if n > 0 {
        lemma_mul_cell_distributes(a, b, c, n - 1, i, k);
        lemma_lin_map_val(b, c, false, n, k);
        let x = val_at(a, i, n);
        let y = val_at(b, n, k);
        let z = val_at(c, n, k);
        assert(x * (y + z) == x * y + x * z) by (nonlinear_arith);
    }
}

/// Multiplication distributes over addition:
/// `A * (B + C) = (A * B) + (A * C)`.
pub proof fn lemma_mul_distributes(
    a: Map<(int, int), int>,
    b: Map<(int, int), int>,
    c: Map<(int, int), int>,
    n: int,
)
    ensures
        mul_map(a, add_map(b, c), n) == add_map(mul_map(a, b, n), mul_map(a, c, n)),
{
    let lhs = mul_map(a, add_map(b, c), n);
    let rhs = add_map(mul_map(a, b, n), mul_map(a, c, n));
    assert forall|r: int, c2: int| #[trigger] val_at(lhs, r, c2) == #[trigger] val_at(
        rhs,
        r,
        c2,
    ) by {
        lemma_mul_cell_distributes(a, b, c, n, r, c2);
        lemma_lin_map_val(mul_map(a, b, n), mul_map(a, c, n), false, r, c2);
    }
    assert forall|k: (int, int)| #[trigger] lhs.dom().contains(k) implies lhs[k] != 0 by {}
    assert forall|k: (int, int)| #[trigger] rhs.dom().contains(k) implies rhs[k] != 0 by {
        lemma_lin_map_val(mul_map(a, b, n), mul_map(a, c, n), false, k.0, k.1);
    }
    lemma_no_zero_ext(lhs, rhs);
}

/// The bytes of a rendered value: a possible leading minus sign, then
/// digits; so none of them is a newline, a comma, an equals sign, a
/// parenthesis or whitespace.
proof fn lemma_dec_bytes(v: int)
    ensures
        dec_of_int(v).len() >= 1,
        forall|j: int|
            0 <= j < dec_of_int(v).len() ==> (#[trigger] dec_of_int(v)[j] == 45 || is_digit(
                dec_of_int(v)[j],
            )),
        is_digit(dec_of_int(v).last()),
{
    if v < 0 {
        lemma_dec_of_nat(-v);
        let d = dec_of_int(v);
        assert forall|j: int| 0 <= j < d.len() implies (#[trigger] d[j] == 45 || is_digit(
            d[j])) by {
            if j > 0 {
                assert(d[j] == dec_of_nat(-v)[j - 1]);
            }
        }
        assert(d.last() == dec_of_nat(-v).last());
    } else {
        lemma_dec_of_nat(v);
    }
}

/// Splitting a text that begins with a separator-free piece and a separator
/// yields that piece, then the split of the remainder.
proof fn lemma_split_prepend(l: Seq<u8>, rest: Seq<u8>, b: u8)
    requires
        forall|j: int| 0 <= j < l.len() ==> #[trigger] l[j] != b,
    ensures
        split_on(l + seq![b] + rest, b) == seq![l] + split_on(rest, b),
{
    let s = l + seq![b] + rest;
    lemma_split_at_first(s, b);
    let f = find_byte(s, b);
    assert(s[l.len() as int] == b);
    assert(f <= l.len());
    if f < l.len() {
        assert(s[f] == l[f]);
    }
    assert(f == l.len());
    assert(s.take(f) =~= l);
    assert(s.skip(f + 1) =~= rest);
}

/// A line trimming to itself, here from its edge bytes.
proof fn lemma_edges_keep(t: Seq<u8>)
    requires
        t.len() >= 1,
        t[0] == 45 || is_digit(t[0]) || t[0] == 40 || t[0] == 114 || t[0] == 99,
        is_digit(t.last()) || t.last() == 41,
    ensures
        trim(t) == t,
{
    lemma_trim_noop(t);
}

/// What stands after the first space of a space-prefixed value: the value.
proof fn lemma_trim_one_space(d: Seq<u8>)
    requires
        d.len() >= 1,
        !is_space(d[0]),
        !is_space(d.last()),
    ensures
        trim(seq![32u8] + d) == d,
{
    let s = seq![32u8] + d;
    assert(s.drop_first() =~= d);
    assert(crate::codec::leading_spaces(d) == 0);
    assert(crate::codec::leading_spaces(s) == 1);
    assert(s.skip(1) =~= d);
    assert(crate::codec::trailing_spaces(d) == 0);
    assert(trim(s) =~= d);
}

/// Reading back a rendered header line sets exactly the rendered extent.
proof fn lemma_header_round(tag: Seq<u8>, v: int)
    requires
        tag == rows_tag() || tag == cols_tag(),
        i64::MIN <= v <= i64::MAX,
    ensures
        trim(tag + seq![61u8] + dec_of_int(v)) == tag + seq![61u8] + dec_of_int(v),
        header_value(tag + seq![61u8] + dec_of_int(v)) == Some(dec_of_int(v)),
        parsed_i64(dec_of_int(v)) == Some(v),
        starts_with(tag + seq![61u8] + dec_of_int(v), tag),
{
    let l = tag + seq![61u8] + dec_of_int(v);
    lemma_dec_bytes(v);
    lemma_parse_of_dec(v);
    assert(l[0] == tag[0]);
    assert(l.last() == dec_of_int(v).last());
    lemma_edges_keep(l);
    assert(l.take(tag.len() as int) =~= tag);
    lemma_split_at_first(l, 61);
    let f = find_byte(l, 61);
    assert(l[4] == 61);
    assert(f <= 4);
    if f < 4 {
        assert(l[f] == tag[f]);
    }
    assert(f == 4);
    let rest = l.skip(5);
    assert(rest =~= dec_of_int(v));
    lemma_split_at_first(rest, 61);
    let g = find_byte(rest, 61);
    if g < rest.len() {
        assert(rest[g] == 61);
    }
    assert(g == rest.len());
    assert(rest.take(g) =~= rest);
    assert(trim(rest) == rest) by {
        lemma_edges_keep(rest);
    }
}

/// The interior of a rendered cell line, between its parentheses.
pub open spec fn entry_body(e: Entry) -> Seq<u8> {
    seq![40u8] + dec_of_int(e.row as int) + seq![44u8, 32u8] + dec_of_int(e.col as int) + seq![
        44u8,
        32u8,
    ] + dec_of_int(e.val as int) + seq![41u8]
}

/// No byte of a rendered cell line is a newline.
proof fn lemma_entry_body_clean(e: Entry)
    ensures
        forall|j: int| 0 <= j < entry_body(e).len() ==> #[trigger] entry_body(e)[j] != 10,
        render_entry(e) == entry_body(e) + seq![10u8],
{
    lemma_dec_bytes(e.row as int);
    lemma_dec_bytes(e.col as int);
    lemma_dec_bytes(e.val as int);
    assert(render_entry(e) =~= entry_body(e) + seq![10u8]);
}

/// Reading back one rendered cell line stores exactly that cell.
proof fn lemma_entry_round(st: ParseState, e: Entry)
    ensures
        process_line(st, entry_body(e)) == Ok::<ParseState, crate::matrix::MatrixError>(
            ParseState {
                rows: st.rows,
                cols: st.cols,
                cells: set_cell(st.cells, e.row as int, e.col as int, e.val as int),
            },
        ),
{
    let t = entry_body(e);
    lemma_dec_bytes(e.row as int);
    lemma_dec_bytes(e.col as int);
    lemma_dec_bytes(e.val as int);
    lemma_parse_of_dec(e.row as int);
    lemma_parse_of_dec(e.col as int);
    lemma_parse_of_dec(e.val as int);
    assert(t[0] == 40);
    assert(t.last() == 41);
    lemma_edges_keep(t);
    assert(!starts_with(t, rows_tag())) by {
        if starts_with(t, rows_tag()) {
            assert(t.take(4)[0] == 114);
        }
    }
    assert(!starts_with(t, cols_tag())) by {
        if starts_with(t, cols_tag()) {
            assert(t.take(4)[0] == 99);
        }
    }
    let inner = t.subrange(1, t.len() - 1);
    let dr = dec_of_int(e.row as int);
    let dc = dec_of_int(e.col as int);
    let dv = dec_of_int(e.val as int);
    let p1 = seq![32u8] + dc;
    let p2 = seq![32u8] + dv;
    assert(inner =~= dr + seq![44u8] + (p1 + seq![44u8] + p2));
    lemma_split_prepend(dr, p1 + seq![44u8] + p2, 44);
    lemma_split_prepend(p1, p2, 44);
    assert(p1 + seq![44u8] + p2 =~= (p1 + seq![44u8]) + p2);
    lemma_split_at_first(p2, 44);
    let g = find_byte(p2, 44);
    if g < p2.len() {
        assert(p2[g] == 44);
        if g > 0 {
            assert(p2[g] == dv[g - 1]);
        }
    }
    assert(g == p2.len());
    assert(split_on(p2, 44) == seq![p2]);
    let ps = split_on(inner, 44);
    assert(ps =~= seq![dr, p1, p2]);
    assert(ps.len() == 3);
    assert(trim(ps[0]) == dr) by {
        lemma_edges_keep(dr);
    }
    assert(trim(ps[1]) == dc) by {
        lemma_trim_one_space(dc);
    }
    assert(trim(ps[2]) == dv) by {
        lemma_trim_one_space(dv);
    }
}

/// Each cell of a list inserted in order, front first.
pub open spec fn insert_all(c: Map<(int, int), int>, s: Seq<Entry>) -> Map<(int, int), int>
    decreases s.len(),
{
    if s.len() == 0 {
        c
    } else {
        insert_all(c.insert(key_of(s[0]), s[0].val as int), s.drop_first())
    }
}

/// Inserting one more cell at the end inserts it last.
proof fn lemma_insert_all_push(c: Map<(int, int), int>, s: Seq<Entry>, e: Entry)
    ensures
        insert_all(c, s.push(e)) == insert_all(c, s).insert(key_of(e), e.val as int),
    decreases s.len(),
{
    if s.len() == 0 {
        assert(s.push(e)[0] == e);
        assert(s.push(e).drop_first() =~= Seq::<Entry>::empty());
        assert(insert_all(c.insert(key_of(e), e.val as int), Seq::<Entry>::empty()) == c.insert(
            key_of(e),
            e.val as int,
        ));
    } else {
        assert(s.push(e)[0] == s[0]);
        assert(s.push(e).drop_first() =~= s.drop_first().push(e));
        lemma_insert_all_push(c.insert(key_of(s[0]), s[0].val as int), s.drop_first(), e);
    }
}

/// Folding inserts over a list from nothing denotes the list's mapping.
proof fn lemma_insert_all_empty(s: Seq<Entry>)
    ensures
        insert_all(Map::<(int, int), int>::empty(), s) == map_of_entries(s),
    decreases s.len(),
{
    if s.len() > 0 {
        lemma_insert_all_empty(s.drop_last());
        lemma_insert_all_push(Map::<(int, int), int>::empty(), s.drop_last(), s.last());
        assert(s.drop_last().push(s.last()) =~= s);
    }
}

/// Reading back the rendered cell lines stores exactly those cells.
proof fn lemma_parse_rendered_entries(s: Seq<Entry>, st: ParseState)
    requires
        forall|i: int| 0 <= i < s.len() ==> (#[trigger] s[i]).val != 0,
    ensures
        parse_lines(split_on(render_entries(s), 10), st) == Ok::<
            ParseState,
            crate::matrix::MatrixError,
        >(ParseState { rows: st.rows, cols: st.cols, cells: insert_all(st.cells, s) }),
    decreases s.len(),
{
    if s.len() == 0 {
        let lines = split_on(render_entries(s), 10);
        assert(render_entries(s) =~= Seq::<u8>::empty());
        assert(lines == seq![Seq::<u8>::empty()]);
        lemma_trim_empty();
        assert(process_line(st, Seq::<u8>::empty()) == Ok::<
            ParseState,
            crate::matrix::MatrixError,
        >(st));
        assert(lines.drop_first() =~= Seq::<Seq<u8>>::empty());
        assert(parse_lines(Seq::<Seq<u8>>::empty(), st) == Ok::<
            ParseState,
            crate::matrix::MatrixError,
        >(st));
    } else {
        let e = s[0];
        lemma_entry_body_clean(e);
        assert(render_entries(s) == render_entry(e) + render_entries(s.drop_first()));
        assert(render_entries(s) =~= entry_body(e) + seq![10u8] + render_entries(s.drop_first()));
        lemma_split_prepend(entry_body(e), render_entries(s.drop_first()), 10);
        let lines = split_on(render_entries(s), 10);
        assert(lines == seq![entry_body(e)] + split_on(render_entries(s.drop_first()), 10));
        assert(lines[0] == entry_body(e));
        assert(lines.drop_first() =~= split_on(render_entries(s.drop_first()), 10));
        lemma_entry_round(st, e);
        let st1 = ParseState {
            rows: st.rows,
            cols: st.cols,
            cells: set_cell(st.cells, e.row as int, e.col as int, e.val as int),
        };
        assert(st1.cells == st.cells.insert(key_of(e), e.val as int));
        assert(forall|i: int|
            0 <= i < s.drop_first().len() ==> (#[trigger] s.drop_first()[i]).val != 0) by {
            assert(forall|i: int| 0 <= i < s.drop_first().len() ==> s.drop_first()[i] == s[i + 1]);
        }
        lemma_parse_rendered_entries(s.drop_first(), st1);
        assert(parse_lines(lines, st) == parse_lines(lines.drop_first(), st1));
    }
}

/// Round trip: rendering a well-formed matrix and reading the text back
/// yields the same extents and the same entry mapping.
pub proof fn lemma_round_trip(m: SparseMatrix)
    requires
        m.wf(),
    ensures
        full_parse(render(m.rows as int, m.cols as int, m.entries@)) matches Ok(st)
            && st.rows == m.rows as int && st.cols == m.cols as int && st.cells == m@,
{
    let rows = m.rows as int;
    let cols = m.cols as int;
    let ents = m.entries@;
    let text = render(rows, cols, ents);
    let rl = rows_tag() + seq![61u8] + dec_of_int(rows);
    let cl = cols_tag() + seq![61u8] + dec_of_int(cols);
    lemma_dec_bytes(rows);
    lemma_dec_bytes(cols);
    assert(text =~= rl + seq![10u8] + (cl + seq![10u8] + render_entries(ents)));
    assert forall|j: int| 0 <= j < rl.len() implies #[trigger] rl[j] != 10 by {
        if j >= 5 {
            assert(rl[j] == dec_of_int(rows)[j - 5]);
        }
    }
    assert forall|j: int| 0 <= j < cl.len() implies #[trigger] cl[j] != 10 by {
        if j >= 5 {
            assert(cl[j] == dec_of_int(cols)[j - 5]);
        }
    }
    lemma_split_prepend(rl, cl + seq![10u8] + render_entries(ents), 10);
    assert(cl + seq![10u8] + render_entries(ents) =~= (cl + seq![10u8]) + render_entries(ents));
    lemma_split_prepend(cl, render_entries(ents), 10);
    let lines = split_on(text, 10);
    assert(lines == seq![rl] + (seq![cl] + split_on(render_entries(ents), 10)));
    lemma_header_round(rows_tag(), rows);
    lemma_header_round(cols_tag(), cols);
    let st1 = ParseState { rows, cols: 0, cells: Map::<(int, int), int>::empty() };
    assert(process_line(init_state(), rl) == Ok::<ParseState, crate::matrix::MatrixError>(st1));
    assert(!starts_with(cl, rows_tag())) by {
        if starts_with(cl, rows_tag()) {
            assert(cl.take(4)[0] == 114);
        }
    }
    let st2 = ParseState { rows, cols, cells: Map::<(int, int), int>::empty() };
    assert(process_line(st1, cl) == Ok::<ParseState, crate::matrix::MatrixError>(st2));
    assert(forall|i: int| 0 <= i < ents.len() ==> (#[trigger] ents[i]).val != 0);
    lemma_parse_rendered_entries(ents, st2);
    lemma_insert_all_empty(ents);
    assert(lines[0] == rl);
    assert(lines.drop_first() =~= seq![cl] + split_on(render_entries(ents), 10));
    assert(lines.drop_first()[0] == cl);
    assert(lines.drop_first().drop_first() =~= split_on(render_entries(ents), 10));
    let st3 = ParseState { rows, cols, cells: map_of_entries(ents) };
    assert(parse_lines(lines, init_state()) == parse_lines(lines.drop_first(), st1));
    assert(parse_lines(lines.drop_first(), st1) == parse_lines(
        lines.drop_first().drop_first(),
        st2,
    ));
    assert(parse_lines(lines, init_state()) == Ok::<ParseState, crate::matrix::MatrixError>(st3));
    assert(crate::codec::in_extents(st3)) by {
        crate::matrix::lemma_wf_map(m);
        assert forall|k: (int, int)| #[trigger] st3.cells.dom().contains(k) implies 1 <= k.0
            <= st3.rows && 1 <= k.1 <= st3.cols by {
            assert(m@.dom().contains((k.0, k.1)));
        }
    }
}

} // verus!
