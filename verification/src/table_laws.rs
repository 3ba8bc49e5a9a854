//! Laws of the text lines of a csv or txt sheet.
use vstd::prelude::*;
use crate::generate::{joined, plain_text, row_text, SheetColumn};

verus! {

proof fn lemma_joined_front(a: Seq<char>, parts: Seq<Seq<char>>, sep: Seq<char>)
    requires
        parts.len() > 0,
    ensures
        joined(seq![a] + parts, sep) == a + sep + joined(parts, sep),
    decreases parts.len(),
{
    let all = seq![a] + parts;
    if parts.len() == 1 {
        assert(all.drop_last() =~= seq![a]);
        assert(all.last() == parts[0]);
        assert(joined(seq![a], sep) == a);
    } else {
        lemma_joined_front(a, parts.drop_last(), sep);
        assert(all.drop_last() =~= seq![a] + parts.drop_last());
        assert(all.last() == parts.last());
        assert(a + sep + joined(parts.drop_last(), sep) + sep + parts.last() =~= a + sep + (joined(
            parts.drop_last(),
            sep,
        ) + sep + parts.last()));
    }
}

/// The texts of the cells of row `r`, one per column.
pub open spec fn row_cells(cols: Seq<SheetColumn>, r: int) -> Seq<Seq<char>> {
    Seq::new(cols.len(), |c: int| plain_text(cols[c].body@[r].model()))
}

proof fn lemma_row_text_from(cols: Seq<SheetColumn>, r: int, c: int, sp: Seq<char>)
    requires
        0 <= c < cols.len(),
        forall|k: int| 0 <= k < cols.len() ==> r < (#[trigger] cols[k]).body@.len(),
    ensures
        row_text(cols, r, c as nat, sp) == joined(row_cells(cols, r).subrange(c, cols.len() as int), sp),
    decreases cols.len() - c,
{
    let cells = row_cells(cols, r);
    let t = plain_text(cols[c].body@[r].model());
    assert(r < cols[c].body@.len());
    if c == cols.len() - 1 {
        assert(cells.subrange(c, cols.len() as int) =~= seq![t]);
        assert(row_text(cols, r, (c + 1) as nat, sp) == Seq::<char>::empty());
        assert(t + Seq::<char>::empty() + Seq::<char>::empty() =~= t);
    } else {
        lemma_row_text_from(cols, r, c + 1, sp);
        let rest = cells.subrange(c + 1, cols.len() as int);
        assert(cells.subrange(c, cols.len() as int) =~= seq![t] + rest);
        lemma_joined_front(t, rest, sp);
    }
}

/// Law: when every column has a cell in row `r`, the row's text line is the
/// cells' texts joined by the splitter: one splitter between each two
/// neighbours, none after the last (cells `a`, `b` under splitter `s` give
/// `a + s + b`).
pub proof fn law_row_line_joins_cells(cols: Seq<SheetColumn>, r: int, sp: Seq<char>)
    requires
        0 <= r,
        cols.len() > 0,
        forall|c: int| 0 <= c < cols.len() ==> r < (#[trigger] cols[c]).body@.len(),
    ensures
        row_text(cols, r, 0, sp) == joined(row_cells(cols, r), sp),
{
    lemma_row_text_from(cols, r, 0, sp);
    assert(row_cells(cols, r).subrange(0, cols.len() as int) =~= row_cells(cols, r));
}


/// The texts of the cells that the columns `cols` have in row `r`, each
/// followed by the splitter `sp`; a column without a cell there adds
/// nothing.
pub open spec fn cells_each_followed(cols: Seq<SheetColumn>, r: int, sp: Seq<char>) -> Seq<char>
    decreases cols.len(),
{
    if cols.len() == 0 {
        seq![]
    } else {
        (if 0 <= r < cols[0].body@.len() {
            plain_text(cols[0].body@[r].model()) + sp
        } else {
            Seq::<char>::empty()
        }) + cells_each_followed(cols.drop_first(), r, sp)
    }
}

/// The text of the cell of `col` in row `r`, or nothing when it has none.
pub open spec fn cell_text_or_empty(col: SheetColumn, r: int) -> Seq<char> {
    if 0 <= r < col.body@.len() {
        plain_text(col.body@[r].model())
    } else {
        Seq::<char>::empty()
    }
}

proof fn lemma_row_text_tail(cols: Seq<SheetColumn>, r: int, c: int, sp: Seq<char>)
    requires
        0 <= r,
        0 <= c < cols.len(),
    ensures
        row_text(cols, r, c as nat, sp) == cells_each_followed(cols.subrange(c, cols.len() - 1), r, sp)
            + cell_text_or_empty(cols.last(), r),
    decreases cols.len() - c,
{
    let n = cols.len() as int;
    if c == n - 1 {
        assert(row_text(cols, r, (c + 1) as nat, sp) == Seq::<char>::empty());
        assert(cols.subrange(c, n - 1).len() == 0);
        if r < cols[c].body@.len() {
            assert(plain_text(cols[c].body@[r].model()) + Seq::<char>::empty() + Seq::<char>::empty()
                =~= plain_text(cols[c].body@[r].model()));
        }
        assert(Seq::<char>::empty() + cell_text_or_empty(cols.last(), r) =~= cell_text_or_empty(cols.last(), r));
    } else {
        lemma_row_text_tail(cols, r, c + 1, sp);
        let sub = cols.subrange(c, n - 1);
        assert(sub[0] == cols[c]);
        assert(sub.drop_first() =~= cols.subrange(c + 1, n - 1));
        let rest = cells_each_followed(cols.subrange(c + 1, n - 1), r, sp);
        let last = cell_text_or_empty(cols.last(), r);
        if r < cols[c].body@.len() {
            let x = plain_text(cols[c].body@[r].model());
            assert(x + sp + (rest + last) =~= (x + sp + rest) + last);
        } else {
            assert(Seq::<char>::empty() + rest =~= rest);
        }
    }
}

/// Law: a row's text line is the texts of the cells that the row has, each
/// followed by the splitter, but for the cell of the last column, which
/// ends the line without one; a column without a cell in the row adds
/// nothing (so a row that has some cell but none in the last column ends
/// with the splitter).
pub proof fn law_row_line_splitter_placement(cols: Seq<SheetColumn>, r: int, sp: Seq<char>)
    requires
        0 <= r,
        cols.len() > 0,
    ensures
        row_text(cols, r, 0, sp) == cells_each_followed(cols.drop_last(), r, sp) + cell_text_or_empty(
            cols.last(),
            r,
        ),
{
    lemma_row_text_tail(cols, r, 0, sp);
    assert(cols.subrange(0, cols.len() - 1) =~= cols.drop_last());
}

} // verus!
