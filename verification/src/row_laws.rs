//! Laws of the rewriting of a sheet: rows, cells, order and dimension.
use vstd::prelude::*;
use crate::excel_helper::col_name;
use crate::refer::{cell_range_in_range, spec_cell_ref};
use crate::text::int_decimal;
use crate::sheet_xml::{
    assemble, cell_spans, concat_all, dim_ref, events_of, insert_row, kept_rows, lemma_concat_all_add, lemma_marks_bound,
    new_rows, pend_between, pending_cell, prefix_events, row_events, row_scan, sheet_data_marks, sort_rows,
    spec_modify_sheet, spec_rebuild_row, spec_xml_events, texts_between, close_tag, open_tag, row_element,
    EventKind, OutRowV, RowCtx, WriteGrid, XmlEventV,
};

verus! {

/// Whether `a` is `b` with some elements left out: its elements stand in
/// `b`, in the same order.
pub open spec fn is_subseq<A>(a: Seq<A>, b: Seq<A>) -> bool {
    exists|idx: Seq<int>|
        #![trigger idx.len()]
        idx.len() == a.len() && (forall|i: int|
            0 <= i < idx.len() ==> 0 <= #[trigger] idx[i] < b.len() && b[idx[i]] == a[i]) && (forall|
            i: int,
            j: int,
        | 0 <= i < j < idx.len() ==> #[trigger] idx[i] < #[trigger] idx[j])
}

proof fn lemma_subseq_refl<A>(a: Seq<A>)
    ensures
        is_subseq(a, a),
{
    let idx = Seq::new(a.len(), |i: int| i);
    assert(idx.len() == a.len());
}

proof fn lemma_subseq_empty<A>(b: Seq<A>)
    ensures
        is_subseq(Seq::<A>::empty(), b),
{
    let idx = Seq::<int>::empty();
    assert(idx.len() == 0);
}

proof fn lemma_subseq_concat<A>(a: Seq<A>, b: Seq<A>, c: Seq<A>, d: Seq<A>)
    requires
        is_subseq(a, b),
        is_subseq(c, d),
    ensures
        is_subseq(a + c, b + d),
{
    let ia = choose|idx: Seq<int>|
        #![trigger idx.len()]
        idx.len() == a.len() && (forall|i: int|
            0 <= i < idx.len() ==> 0 <= #[trigger] idx[i] < b.len() && b[idx[i]] == a[i]) && (forall|
            i: int,
            j: int,
        | 0 <= i < j < idx.len() ==> #[trigger] idx[i] < #[trigger] idx[j]);
    let ic = choose|idx: Seq<int>|
        #![trigger idx.len()]
        idx.len() == c.len() && (forall|i: int|
            0 <= i < idx.len() ==> 0 <= #[trigger] idx[i] < d.len() && d[idx[i]] == c[i]) && (forall|
            i: int,
            j: int,
        | 0 <= i < j < idx.len() ==> #[trigger] idx[i] < #[trigger] idx[j]);
    let idx = ia + ic.map_values(|v: int| v + b.len());
    assert(idx.len() == (a + c).len());
    assert forall|i: int| 0 <= i < idx.len() implies 0 <= #[trigger] idx[i] < (b + d).len() && (b + d)[idx[i]] == (a
        + c)[i] by {
        if i >= ia.len() {
            assert(idx[i] == ic[i - ia.len()] + b.len());
        }
    }
    assert forall|i: int, j: int| 0 <= i < j < idx.len() implies #[trigger] idx[i] < #[trigger] idx[j] by {
        if j >= ia.len() {
            assert(idx[j] == ic[j - ia.len()] + b.len());
            if i >= ia.len() {
                assert(idx[i] == ic[i - ia.len()] + b.len());
            }
        }
    }
}

/// The events of a row that rebuilding it keeps, from the `k`-th cell and
/// `ch[cursor]` on: those between the cells, and the cells outside the
/// target columns.
pub open spec fn row_kept(ch: Seq<XmlEventV>, x: RowCtx, k: int, cursor: int) -> Seq<Seq<char>>
    decreases x.spans.len() - k,
{
    if k >= x.spans.len() || k < 0 {
        texts_between(ch, cursor, ch.len() as int)
    } else {
        let (cs, ce, col, _) = x.spans[k];
        texts_between(ch, cursor, cs as int) + (if x.c0 <= col <= x.c1 {
            Seq::<Seq<char>>::empty()
        } else {
            texts_between(ch, cs as int, (ce + 1) as int)
        }) + row_kept(ch, x, k + 1, (ce + 1) as int)
    }
}

proof fn lemma_assemble_keeps(ch: Seq<XmlEventV>, x: RowCtx, k: int, cursor: int, p: int)
    ensures
        is_subseq(row_kept(ch, x, k, cursor), assemble(ch, x, k, cursor, p)),
    decreases x.spans.len() - k,
{
    if k >= x.spans.len() || k < 0 {
        let t = texts_between(ch, cursor, ch.len() as int);
        lemma_subseq_refl(t);
        lemma_subseq_empty(pend_between(x, p, (x.c1 + 1) as int));
        lemma_subseq_concat(t, t, Seq::<Seq<char>>::empty(), pend_between(x, p, (x.c1 + 1) as int));
        assert(t + Seq::<Seq<char>>::empty() =~= t);
    } else {
        let (cs, ce, col, _) = x.spans[k];
        let p1 = if p >= col {
            p
        } else {
            col as int
        };
        let t = texts_between(ch, cursor, cs as int);
        let pd = pend_between(x, p, col as int);
        lemma_subseq_refl(t);
        lemma_subseq_empty(pd);
        if x.c0 <= col <= x.c1 {
            let xs = if col >= p && pending_cell(x, col) is Some {
                pending_cell(x, col)->0 + assemble(ch, x, k + 1, (ce + 1) as int, (col + 1) as int)
            } else {
                assemble(ch, x, k + 1, (ce + 1) as int, p1)
            };
            let kk = row_kept(ch, x, k + 1, (ce + 1) as int);
            if col >= p && pending_cell(x, col) is Some {
                lemma_assemble_keeps(ch, x, k + 1, (ce + 1) as int, (col + 1) as int);
                lemma_subseq_empty(pending_cell(x, col)->0);
                lemma_subseq_concat(
                    Seq::<Seq<char>>::empty(),
                    pending_cell(x, col)->0,
                    kk,
                    assemble(ch, x, k + 1, (ce + 1) as int, (col + 1) as int),
                );
                assert(Seq::<Seq<char>>::empty() + kk =~= kk);
            } else {
                lemma_assemble_keeps(ch, x, k + 1, (ce + 1) as int, p1);
            }
            lemma_subseq_concat(t, t, Seq::<Seq<char>>::empty(), pd);
            assert(t + Seq::<Seq<char>>::empty() =~= t);
            lemma_subseq_concat(t + Seq::<Seq<char>>::empty(), t + pd, kk, xs);
        } else {
            let c = texts_between(ch, cs as int, (ce + 1) as int);
            let kk = row_kept(ch, x, k + 1, (ce + 1) as int);
            let a = assemble(ch, x, k + 1, (ce + 1) as int, p1);
            lemma_assemble_keeps(ch, x, k + 1, (ce + 1) as int, p1);
            lemma_subseq_refl(c);
            lemma_subseq_concat(c, c, kk, a);
            lemma_subseq_concat(Seq::<Seq<char>>::empty(), pd, c + kk, c + a);
            assert(Seq::<Seq<char>>::empty() + (c + kk) =~= c + kk);
            lemma_subseq_concat(t, t, c + kk, pd + (c + a));
            assert(t + c + kk =~= t + (c + kk));
            assert(t + pd + (c + a) =~= t + (pd + (c + a)));
        }
    }
}

/// Law: rebuilding a row keeps every event between its cells and every cell
/// outside the target columns `c0..=c1`, unchanged and in the same order.
pub proof fn law_rebuild_row_keeps_others(ch: Seq<XmlEventV>, g: WriteGrid, row_num: nat, c0: nat, c1: nat)
    ensures
        is_subseq(
            row_kept(ch, RowCtx { grid: g, row: row_num, spans: cell_spans(ch, 0, 0), c0, c1 }, 0, 0),
            spec_rebuild_row(ch, g, row_num, c0, c1),
        ),
{
    lemma_assemble_keeps(ch, RowCtx { grid: g, row: row_num, spans: cell_spans(ch, 0, 0), c0, c1 }, 0, 0, 0);
}

/// Whether `t` stands in `s` as one contiguous piece.
pub open spec fn is_infix(t: Seq<char>, s: Seq<char>) -> bool {
    exists|a: Seq<char>, b: Seq<char>| #[trigger] (a + t + b) == s
}

proof fn lemma_infix_grow(t: Seq<char>, s: Seq<char>, x: Seq<char>, y: Seq<char>)
    requires
        is_infix(t, s),
    ensures
        is_infix(t, x + s + y),
{
    let (a, b) = choose|a: Seq<char>, b: Seq<char>| #[trigger] (a + t + b) == s;
    assert((x + a) + t + (b + y) =~= x + s + y);
}

proof fn lemma_insert_row_has(v: Seq<OutRowV>, x: OutRowV, y: OutRowV)
    requires
        v.contains(y) || y == x,
    ensures
        insert_row(v, x).contains(y),
    decreases v.len(),
{
    if v.len() == 0 || v.last().0 <= x.0 {
        if y == x {
            assert(v.push(x)[v.len() as int] == y);
        } else {
            let j = choose|j: int| 0 <= j < v.len() && v[j] == y;
            assert(v.push(x)[j] == y);
        }
    } else {
        let w = insert_row(v.drop_last(), x);
        if y == v.last() {
            assert(w.push(v.last())[w.len() as int] == y);
        } else {
            if y != x {
                let j = choose|j: int| 0 <= j < v.len() && v[j] == y;
                assert(v.drop_last()[j] == y);
            }
            lemma_insert_row_has(v.drop_last(), x, y);
            let j = choose|j: int| 0 <= j < w.len() && w[j] == y;
            assert(w.push(v.last())[j] == y);
        }
    }
}

proof fn lemma_sort_rows_has(v: Seq<OutRowV>, y: OutRowV)
    requires
        v.contains(y),
    ensures
        sort_rows(v).contains(y),
    decreases v.len(),
{
    if y == v.last() {
        lemma_insert_row_has(sort_rows(v.drop_last()), v.last(), y);
    } else {
        let j = choose|j: int| 0 <= j < v.len() && v[j] == y;
        assert(v.drop_last()[j] == y);
        lemma_sort_rows_has(v.drop_last(), y);
        lemma_insert_row_has(sort_rows(v.drop_last()), v.last(), y);
    }
}

proof fn lemma_row_events_has(v: Seq<OutRowV>, j: int)
    requires
        0 <= j < v.len(),
    ensures
        is_infix(concat_all(v[j].1), concat_all(row_events(v))),
    decreases v.len(),
{
    if j == v.len() - 1 {
        lemma_concat_all_add(row_events(v.drop_last()), v.last().1);
        assert(Seq::<char>::empty() + concat_all(v[j].1) + Seq::<char>::empty() == concat_all(v[j].1));
        assert(concat_all(row_events(v.drop_last())) + concat_all(v[j].1) + Seq::<char>::empty() =~= concat_all(
            row_events(v),
        ));
    } else {
        lemma_row_events_has(v.drop_last(), j);
        assert(v.drop_last()[j] == v[j]);
        lemma_concat_all_add(row_events(v.drop_last()), v.last().1);
        lemma_infix_grow(
            concat_all(v[j].1),
            concat_all(row_events(v.drop_last())),
            Seq::<char>::empty(),
            concat_all(v.last().1),
        );
        assert(Seq::<char>::empty() + concat_all(row_events(v.drop_last())) + concat_all(v.last().1)
            =~= concat_all(row_events(v)));
    }
}

proof fn lemma_infix_trans(a: Seq<char>, b: Seq<char>, c: Seq<char>)
    requires
        is_infix(a, b),
        is_infix(b, c),
    ensures
        is_infix(a, c),
{
    let (x1, y1) = choose|x: Seq<char>, y: Seq<char>| #[trigger] (x + a + y) == b;
    let (x2, y2) = choose|x: Seq<char>, y: Seq<char>| #[trigger] (x + b + y) == c;
    assert((x2 + x1) + a + (y1 + y2) =~= c);
}

proof fn lemma_infix_self(t: Seq<char>)
    ensures
        is_infix(t, t),
{
    assert(Seq::<char>::empty() + t + Seq::<char>::empty() =~= t);
}

/// The row written for the `k`-th row found stands in the output.
proof fn lemma_kept_row_in_output(xml: Seq<u8>, g: WriteGrid, rect: (nat, nat, nat, nat), k: int)
    ensures
        spec_modify_sheet(xml, g, rect) matches Ok(out) ==> {
            let evs = events_of(spec_xml_events(xml).0);
            let s = sheet_data_marks(evs).0->0;
            let e = sheet_data_marks(evs).1->0;
            row_scan(evs, (s + 1) as int, e as int, 0) matches Ok((rows, others)) ==> (0 <= k < rows.len()
                ==> is_infix(concat_all(kept_rows(evs, rows, g, rect)[k].1), out))
        },
{
    if let Ok(out) = spec_modify_sheet(xml, g, rect) {
        let (r0, c0, r1, c1) = rect;
        let evs = events_of(spec_xml_events(xml).0);
        let s = sheet_data_marks(evs).0->0;
        let e = sheet_data_marks(evs).1->0;
        if let Ok((rows, others)) = row_scan(evs, (s + 1) as int, e as int, 0) {
            if 0 <= k < rows.len() {
                let kr = kept_rows(evs, rows, g, rect);
                let all_rows = kr + new_rows(rows, g, r0 as int, r1 as int, c0, c1);
                let out_rows = sort_rows(all_rows);
                let y = kr[k];
                let t = y.1;
                assert(all_rows[k] == y);
                lemma_sort_rows_has(all_rows, y);
                let j = choose|j: int| 0 <= j < out_rows.len() && out_rows[j] == y;
                lemma_row_events_has(out_rows, j);
                let body = row_events(out_rows) + others.map_values(|i: nat| evs[i as int].text);
                lemma_concat_all_add(row_events(out_rows), others.map_values(|i: nat| evs[i as int].text));
                let pre = prefix_events(evs, s, rect)->Ok_0;
                let mid = if e == s {
                    seq![open_tag("sheetData"@, seq![])] + body + seq![close_tag("sheetData"@)]
                } else {
                    seq![evs[s as int].text] + body + seq![evs[e as int].text]
                };
                let head = mid.take(1);
                let foot = mid.skip((1 + body.len()) as int);
                assert(mid =~= head + body + foot);
                let tl = texts_between(evs, (e + 1) as int, evs.len() as int);
                assert(out == concat_all(pre + mid + tl));
                assert(pre + mid + tl =~= (pre + head) + body + (foot + tl));
                lemma_concat_all_add((pre + head) + body, foot + tl);
                lemma_concat_all_add(pre + head, body);
                lemma_infix_grow(
                    concat_all(t),
                    concat_all(row_events(out_rows)),
                    Seq::<char>::empty(),
                    concat_all(others.map_values(|i: nat| evs[i as int].text)),
                );
                assert(Seq::<char>::empty() + concat_all(row_events(out_rows)) + concat_all(
                    others.map_values(|i: nat| evs[i as int].text),
                ) =~= concat_all(body));
                lemma_infix_grow(concat_all(t), concat_all(body), concat_all(pre + head), concat_all(foot + tl));
            }
        }
    }
}

/// Law: rewriting a sheet writes every row outside the target rows
/// `rect.0..=rect.2` back as it was read: the row's events, joined, stand
/// in the output unchanged.
pub proof fn law_rows_outside_target_in_output(xml: Seq<u8>, g: WriteGrid, rect: (nat, nat, nat, nat), k: int)
    ensures
        spec_modify_sheet(xml, g, rect) matches Ok(out) ==> {
            let evs = events_of(spec_xml_events(xml).0);
            let s = sheet_data_marks(evs).0->0;
            let e = sheet_data_marks(evs).1->0;
            row_scan(evs, (s + 1) as int, e as int, 0) matches Ok((rows, others)) ==> (0 <= k < rows.len() && !(
            rect.0 <= rows[k].2 <= rect.2) ==> is_infix(
                concat_all(texts_between(evs, rows[k].0 as int, (rows[k].1 + 1) as int)),
                out,
            ))
        },
{
    lemma_kept_row_in_output(xml, g, rect, k);
}

proof fn lemma_assemble_has_cell(ch: Seq<XmlEventV>, x: RowCtx, k: int, cursor: int, p: int, j: int)
    requires
        0 <= k <= j < x.spans.len(),
        !(x.c0 <= x.spans[j].2 <= x.c1),
    ensures
        is_infix(
            concat_all(texts_between(ch, x.spans[j].0 as int, (x.spans[j].1 + 1) as int)),
            concat_all(assemble(ch, x, k, cursor, p)),
        ),
    decreases x.spans.len() - k,
{
    let (cs, ce, col, _) = x.spans[k];
    let p1 = if p >= col {
        p
    } else {
        col as int
    };
    let t = texts_between(ch, cursor, cs as int);
    let pd = pend_between(x, p, col as int);
    let cj = concat_all(texts_between(ch, x.spans[j].0 as int, (x.spans[j].1 + 1) as int));
    if j == k {
        let c = texts_between(ch, cs as int, (ce + 1) as int);
        let rest = assemble(ch, x, k + 1, (ce + 1) as int, p1);
        assert(assemble(ch, x, k, cursor, p) == t + pd + (c + rest));
        assert(t + pd + (c + rest) =~= (t + pd) + c + rest);
        lemma_concat_all_add((t + pd) + c, rest);
        lemma_concat_all_add(t + pd, c);
        lemma_infix_self(cj);
        lemma_infix_grow(cj, cj, concat_all(t + pd), concat_all(rest));
    } else {
        let xs = if x.c0 <= col <= x.c1 {
            if col >= p && pending_cell(x, col) is Some {
                pending_cell(x, col)->0 + assemble(ch, x, k + 1, (ce + 1) as int, (col + 1) as int)
            } else {
                assemble(ch, x, k + 1, (ce + 1) as int, p1)
            }
        } else {
            texts_between(ch, cs as int, (ce + 1) as int) + assemble(ch, x, k + 1, (ce + 1) as int, p1)
        };
        let (front, rest) = if x.c0 <= col <= x.c1 {
            if col >= p && pending_cell(x, col) is Some {
                (pending_cell(x, col)->0, assemble(ch, x, k + 1, (ce + 1) as int, (col + 1) as int))
            } else {
                (Seq::<Seq<char>>::empty(), assemble(ch, x, k + 1, (ce + 1) as int, p1))
            }
        } else {
            (texts_between(ch, cs as int, (ce + 1) as int), assemble(ch, x, k + 1, (ce + 1) as int, p1))
        };
        if x.c0 <= col <= x.c1 {
            if col >= p && pending_cell(x, col) is Some {
                lemma_assemble_has_cell(ch, x, k + 1, (ce + 1) as int, (col + 1) as int, j);
            } else {
                lemma_assemble_has_cell(ch, x, k + 1, (ce + 1) as int, p1, j);
                assert(xs =~= front + rest);
            }
        } else {
            lemma_assemble_has_cell(ch, x, k + 1, (ce + 1) as int, p1, j);
        }
        assert(assemble(ch, x, k, cursor, p) == t + pd + xs);
        assert(t + pd + xs =~= (t + pd + front) + rest);
        lemma_concat_all_add(t + pd + front, rest);
        lemma_infix_grow(cj, concat_all(rest), concat_all(t + pd + front), Seq::<char>::empty());
        assert(concat_all(t + pd + front) + concat_all(rest) + Seq::<char>::empty() =~= concat_all(t + pd + front)
            + concat_all(rest));
    }
}

/// Law: rewriting a sheet keeps, in every target row, each cell outside the
/// target columns `rect.1..=rect.3`: the cell's events, joined, stand in the
/// output unchanged.
pub proof fn law_cells_outside_target_columns_in_output(
    xml: Seq<u8>,
    g: WriteGrid,
    rect: (nat, nat, nat, nat),
    k: int,
    j: int,
)
    ensures
        spec_modify_sheet(xml, g, rect) matches Ok(out) ==> {
            let evs = events_of(spec_xml_events(xml).0);
            let s = sheet_data_marks(evs).0->0;
            let e = sheet_data_marks(evs).1->0;
            row_scan(evs, (s + 1) as int, e as int, 0) matches Ok((rows, others)) ==> (0 <= k < rows.len() && (
            rect.0 <= rows[k].2 <= rect.2) ==> {
                let ch = evs.subrange((rows[k].0 + 1) as int, rows[k].1 as int);
                let spans = cell_spans(ch, 0, 0);
                0 <= j < spans.len() && !(rect.1 <= spans[j].2 <= rect.3) ==> is_infix(
                    concat_all(texts_between(ch, spans[j].0 as int, (spans[j].1 + 1) as int)),
                    out,
                )
            })
        },
{
    if let Ok(out) = spec_modify_sheet(xml, g, rect) {
        let (r0, c0, r1, c1) = rect;
        let evs = events_of(spec_xml_events(xml).0);
        let s = sheet_data_marks(evs).0->0;
        let e = sheet_data_marks(evs).1->0;
        if let Ok((rows, others)) = row_scan(evs, (s + 1) as int, e as int, 0) {
            if 0 <= k < rows.len() && (rect.0 <= rows[k].2 <= rect.2) {
                let ch = evs.subrange((rows[k].0 + 1) as int, rows[k].1 as int);
                let spans = cell_spans(ch, 0, 0);
                if 0 <= j < spans.len() && !(rect.1 <= spans[j].2 <= rect.3) {
                    let rn = rows[k].2;
                    let x = RowCtx { grid: g, row: rn, spans, c0, c1 };
                    let cj = concat_all(texts_between(ch, spans[j].0 as int, (spans[j].1 + 1) as int));
                    lemma_assemble_has_cell(ch, x, 0, 0, 0, j);
                    let children = spec_rebuild_row(ch, g, rn, c0, c1);
                    assert(children == assemble(ch, x, 0, 0, 0));
                    let was_empty = evs[rows[k].0 as int].kind == EventKind::Empty;
                    let re = row_element(rn, children, was_empty);
                    assert(kept_rows(evs, rows, g, rect)[k].1 == re);
                    lemma_kept_row_in_output(xml, g, rect, k);
                    if children.len() == 0 && was_empty {
                        assert(concat_all(children) =~= Seq::<char>::empty());
                        let (a, b) = choose|a: Seq<char>, b: Seq<char>| #[trigger] (a + cj + b) == concat_all(children);
                        assert(cj.len() == 0);
                        assert(Seq::<char>::empty() + cj + out =~= out);
                    } else {
                        let op = seq![re[0]];
                        let cl = seq![re.last()];
                        assert(re =~= op + children + cl);
                        lemma_concat_all_add(op + children, cl);
                        lemma_concat_all_add(op, children);
                        lemma_infix_grow(cj, concat_all(children), concat_all(op), concat_all(cl));
                        lemma_infix_trans(cj, concat_all(re), out);
                    }
                }
            }
        }
    }
}

/// Whether rows are in non-decreasing order of their numbers.
pub open spec fn rows_ascending(v: Seq<OutRowV>) -> bool {
    forall|i: int, j: int| 0 <= i < j < v.len() ==> (#[trigger] v[i]).0 <= (#[trigger] v[j]).0
}

proof fn lemma_insert_row_sorted(v: Seq<OutRowV>, x: OutRowV)
    requires
        rows_ascending(v),
    ensures
        rows_ascending(insert_row(v, x)),
        insert_row(v, x).to_multiset() =~= v.to_multiset().insert(x),
        forall|k: int|
            0 <= k < insert_row(v, x).len() ==> #[trigger] insert_row(v, x)[k] == x || v.contains(
                insert_row(v, x)[k],
            ),
    decreases v.len(),
{
    broadcast use vstd::seq_lib::group_to_multiset_ensures;
    broadcast use vstd::multiset::group_multiset_axioms;

    if v.len() == 0 || v.last().0 <= x.0 {
        let r = v.push(x);
        assert forall|i: int, j: int| 0 <= i < j < r.len() implies (#[trigger] r[i]).0 <= (#[trigger] r[j]).0 by {
            if j == v.len() {
                if i < v.len() - 1 {
                    assert(v[i].0 <= v[v.len() - 1].0);
                }
            } else {
                assert(r[i] == v[i] && r[j] == v[j]);
            }
        }
        assert forall|k: int| 0 <= k < r.len() implies #[trigger] r[k] == x || v.contains(r[k]) by {
            if k < v.len() {
                assert(r[k] == v[k]);
            }
        }
    } else {
        let d = v.drop_last();
        let l = v.last();
        assert(rows_ascending(d)) by {
            assert forall|i: int, j: int| 0 <= i < j < d.len() implies (#[trigger] d[i]).0 <= (#[trigger] d[j]).0 by {
                assert(d[i] == v[i] && d[j] == v[j]);
            }
        }
        lemma_insert_row_sorted(d, x);
        let w = insert_row(d, x);
        let r = w.push(l);
        assert(insert_row(v, x) == r);
        assert forall|k: int| 0 <= k < w.len() implies (#[trigger] w[k]).0 <= l.0 by {
            if w[k] != x {
                assert(d.contains(w[k]));
                let m = choose|m: int| 0 <= m < d.len() && d[m] == w[k];
                assert(v[m] == d[m]);
                assert(v[m].0 <= v[v.len() - 1].0);
            }
        }
        assert forall|i: int, j: int| 0 <= i < j < r.len() implies (#[trigger] r[i]).0 <= (#[trigger] r[j]).0 by {
            if j == w.len() {
                assert(r[i] == w[i]);
            } else {
                assert(r[i] == w[i] && r[j] == w[j]);
            }
        }
        assert forall|k: int| 0 <= k < r.len() implies #[trigger] r[k] == x || v.contains(r[k]) by {
            if k == w.len() {
                assert(v[v.len() - 1] == l);
            } else {
                assert(r[k] == w[k]);
                if w[k] != x {
                    let m = choose|m: int| 0 <= m < d.len() && d[m] == w[k];
                    assert(v[m] == d[m]);
                }
            }
        }
        assert(v =~= d.push(l));
        assert(v.to_multiset() =~= d.to_multiset().insert(l));
        assert(r.to_multiset() =~= w.to_multiset().insert(l));
        assert(w.to_multiset() =~= d.to_multiset().insert(x));
    }
}

/// Law: sorting the written rows puts them in non-decreasing order of their
/// row numbers and keeps every row, each as often as it was given: the rows
/// that rewriting a sheet writes (the kept rows and the new ones, see
/// `spec_modify_sheet`) come out in ascending row order.
pub proof fn law_sort_rows_ascending_permutation(v: Seq<OutRowV>)
    ensures
        rows_ascending(sort_rows(v)),
        sort_rows(v).to_multiset() =~= v.to_multiset(),
    decreases v.len(),
{
    broadcast use vstd::seq_lib::group_to_multiset_ensures;
    broadcast use vstd::multiset::group_multiset_axioms;

    if v.len() > 0 {
        law_sort_rows_ascending_permutation(v.drop_last());
        lemma_insert_row_sorted(sort_rows(v.drop_last()), v.last());
        assert(v =~= v.drop_last().push(v.last()));
        assert(v.to_multiset() =~= v.drop_last().to_multiset().insert(v.last()));
    } else {
        assert(v.to_multiset() =~= vstd::multiset::Multiset::<OutRowV>::empty());
        assert(sort_rows(v).to_multiset() =~= vstd::multiset::Multiset::<OutRowV>::empty());
    }
}

/// Law: when rewriting a sheet succeeds, the rows it writes inside
/// `sheetData` (each row found, rebuilt or as it was, and each new row) form
/// one unbroken block of the output, in non-decreasing order of their row
/// numbers, each row written once.
pub proof fn law_written_rows_in_order(xml: Seq<u8>, g: WriteGrid, rect: (nat, nat, nat, nat))
    ensures
        spec_modify_sheet(xml, g, rect) matches Ok(out) ==> {
            let evs = events_of(spec_xml_events(xml).0);
            let s = sheet_data_marks(evs).0->0;
            let e = sheet_data_marks(evs).1->0;
            row_scan(evs, (s + 1) as int, e as int, 0) matches Ok((rows, others)) ==> exists|w: Seq<OutRowV>|
                {
                    &&& rows_ascending(w)
                    &&& w.to_multiset() =~= (kept_rows(evs, rows, g, rect) + new_rows(
                        rows,
                        g,
                        rect.0 as int,
                        rect.2 as int,
                        rect.1,
                        rect.3,
                    )).to_multiset()
                    &&& #[trigger] is_infix(concat_all(row_events(w)), out)
                }
        },
{
    if let Ok(out) = spec_modify_sheet(xml, g, rect) {
        let (r0, c0, r1, c1) = rect;
        let evs = events_of(spec_xml_events(xml).0);
        let s = sheet_data_marks(evs).0->0;
        let e = sheet_data_marks(evs).1->0;
        if let Ok((rows, others)) = row_scan(evs, (s + 1) as int, e as int, 0) {
            let all_rows = kept_rows(evs, rows, g, rect) + new_rows(rows, g, r0 as int, r1 as int, c0, c1);
            let out_rows = sort_rows(all_rows);
            law_sort_rows_ascending_permutation(all_rows);
            let body = row_events(out_rows) + others.map_values(|i: nat| evs[i as int].text);
            lemma_concat_all_add(row_events(out_rows), others.map_values(|i: nat| evs[i as int].text));
            let pre = prefix_events(evs, s, rect)->Ok_0;
            let mid = if e == s {
                seq![open_tag("sheetData"@, seq![])] + body + seq![close_tag("sheetData"@)]
            } else {
                seq![evs[s as int].text] + body + seq![evs[e as int].text]
            };
            let head = mid.take(1);
            let foot = mid.skip((1 + body.len()) as int);
            assert(mid =~= head + body + foot);
            let tl = texts_between(evs, (e + 1) as int, evs.len() as int);
            assert(out == concat_all(pre + mid + tl));
            assert(pre + mid + tl =~= (pre + head) + body + (foot + tl));
            lemma_concat_all_add((pre + head) + body, foot + tl);
            lemma_concat_all_add(pre + head, body);
            lemma_infix_self(concat_all(row_events(out_rows)));
            lemma_infix_grow(
                concat_all(row_events(out_rows)),
                concat_all(row_events(out_rows)),
                Seq::<char>::empty(),
                concat_all(others.map_values(|i: nat| evs[i as int].text)),
            );
            assert(Seq::<char>::empty() + concat_all(row_events(out_rows)) + concat_all(
                others.map_values(|i: nat| evs[i as int].text),
            ) =~= concat_all(body));
            lemma_infix_grow(
                concat_all(row_events(out_rows)),
                concat_all(body),
                concat_all(pre + head),
                concat_all(foot + tl),
            );
            assert(is_infix(concat_all(row_events(out_rows)), out));
        }
    }
}

/// The text of the range from column `c0`, row `r0` to column `c1`, row
/// `r1`, as a sheet writes it (`A1:C5`).
pub open spec fn range_text(c0: nat, r0: nat, c1: nat, r1: nat) -> Seq<char> {
    col_name(c0) + int_decimal(r0 as int) + ":"@ + col_name(c1) + int_decimal(r1 as int)
}

/// The range that the old `ref` `v` of a dimension reads as, if it reads as one.
pub open spec fn old_range(v: Seq<char>) -> Option<(nat, nat, nat, nat)> {
    if cell_range_in_range(v) {
        match spec_cell_ref(v) {
            Ok(x) => Some(x),
            Err(_) => None,
        }
    } else {
        None
    }
}

/// Law: the `ref` written for a sheet's dimension is the smallest range that
/// holds the written rectangle `rect` and, when the old `ref` `v` reads as a
/// range, that range too: its first row and column are at most theirs, its
/// last row and column at least theirs, and each bound is one of theirs.
pub proof fn law_dimension_holds_old_range_and_rectangle(v: Seq<char>, rect: (nat, nat, nat, nat))
    ensures
        exists|c0: nat, r0: nat, c1: nat, r1: nat|
            {
                &&& #[trigger] range_text(c0, r0, c1, r1) == dim_ref(v, rect)
                &&& r0 <= rect.0 && c0 <= rect.1 && r1 >= rect.2 && c1 >= rect.3
                &&& match old_range(v) {
                    Some((or0, oc0, or1, oc1)) => {
                        &&& r0 <= or0 && c0 <= oc0 && r1 >= or1 && c1 >= oc1
                        &&& (r0 == rect.0 || r0 == or0) && (c0 == rect.1 || c0 == oc0)
                        &&& (r1 == rect.2 || r1 == or1) && (c1 == rect.3 || c1 == oc1)
                    },
                    None => r0 == rect.0 && c0 == rect.1 && r1 == rect.2 && c1 == rect.3,
                }
            },
{
    let (a0, b0, a1, b1) = rect;
    let (dr0, dc0, dr1, dc1) = if cell_range_in_range(v) {
        match spec_cell_ref(v) {
            Ok(x) => x,
            Err(_) => rect,
        }
    } else {
        rect
    };
    let nc0 = if dc0 <= b0 { dc0 } else { b0 };
    let nr0 = if dr0 <= a0 { dr0 } else { a0 };
    let nc1 = if dc1 >= b1 { dc1 } else { b1 };
    let nr1 = if dr1 >= a1 { dr1 } else { a1 };
    assert(range_text(nc0, nr0, nc1, nr1) == dim_ref(v, rect));
}

} // verus!
