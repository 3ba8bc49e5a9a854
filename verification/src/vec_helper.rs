//! Filtering the rows and columns of a table of strings.
use vstd::prelude::*;

verus! {

/// The cells of `row` whose column is kept: column `i` is kept when
/// `keep[i]` holds, and columns past the end of `keep` are always kept.
pub open spec fn keep_cells(row: Seq<String>, keep: Seq<bool>) -> Seq<String>
    decreases row.len(),
{
    if row.len() == 0 {
        seq![]
    } else {
        let i = row.len() - 1;
        let rest = keep_cells(row.drop_last(), keep);
        if i >= keep.len() || keep[i] {
            rest.push(row.last())
        } else {
            rest
        }
    }
}

/// The rows that are kept (`row_keep[i]`), each with its kept columns.
pub open spec fn filter_rows(rows: Seq<Seq<String>>, row_keep: Seq<bool>, col_keep: Seq<bool>) -> Seq<
    Seq<String>,
>
    decreases rows.len(),
{
    if rows.len() == 0 {
        seq![]
    } else {
        let rest = filter_rows(rows.drop_last(), row_keep, col_keep);
        if row_keep[rows.len() - 1] {
            rest.push(keep_cells(rows.last(), col_keep))
        } else {
            rest
        }
    }
}

/// The rows of a table as sequences.
pub open spec fn rows_view(rows: Seq<Vec<String>>) -> Seq<Seq<String>> {
    Seq::new(rows.len(), |i: int| rows[i]@)
}

/// Keeps the rows that `row_filter` accepts and, in them, the columns whose
/// header cell (in the first row) `col_filter` accepts; columns past the
/// header's length are kept.
pub fn filter_table<RowFilter, ColFilter>(
    rows: Vec<Vec<String>>,
    row_filter: RowFilter,
    col_filter: ColFilter,
) -> (r: Vec<Vec<String>>) where RowFilter: Fn(&Vec<String>) -> bool, ColFilter: Fn(usize, &String) -> bool
    requires
        forall|x: &Vec<String>| call_requires(row_filter, (x,)),
        forall|i: usize, x: &String| call_requires(col_filter, (i, x)),
    ensures
        rows@.len() == 0 ==> r@.len() == 0,
        rows@.len() > 0 ==> exists|row_keep: Seq<bool>, col_keep: Seq<bool>|
            {
                &&& row_keep.len() == rows@.len()
                &&& col_keep.len() == rows@[0]@.len()
                &&& forall|i: int|
                    0 <= i < rows@.len() ==> call_ensures(
                        row_filter,
                        (&rows@[i],),
                        #[trigger] row_keep[i],
                    )
                &&& forall|i: int|
                    0 <= i < rows@[0]@.len() ==> call_ensures(
                        col_filter,
                        (i as usize, &rows@[0]@[i]),
                        #[trigger] col_keep[i],
                    )
                &&& rows_view(r@) == filter_rows(rows_view(rows@), row_keep, col_keep)
            },
{
    if rows.len() == 0 {
        return Vec::new();
    }
    let header = &rows[0];
    let mut keep_cols: Vec<bool> = Vec::new();
    let mut i: usize = 0;
    while i < header.len()
        invariant
            0 <= i <= header@.len(),
            rows@.len() > 0,
            header == &rows@[0],
            keep_cols@.len() == i,
            forall|x: usize, y: &String| call_requires(col_filter, (x, y)),
            forall|j: int|
                0 <= j < i ==> call_ensures(
                    col_filter,
                    (j as usize, &header@[j]),
                    #[trigger] keep_cols@[j],
                ),
        decreases header.len() - i,
    {
        let k = col_filter(i, &header[i]);
        keep_cols.push(k);
        i = i + 1;
    }
    let mut result: Vec<Vec<String>> = Vec::new();
    let ghost mut row_keep: Seq<bool> = seq![];
    let mut ri: usize = 0;
    assert(rows_view(rows@).take(0) =~= Seq::<Seq<String>>::empty());
    while ri < rows.len()
        invariant
            0 <= ri <= rows@.len(),
            row_keep.len() == ri,
            forall|x: &Vec<String>| call_requires(row_filter, (x,)),
            forall|j: int|
                0 <= j < ri ==> call_ensures(row_filter, (&rows@[j],), #[trigger] row_keep[j]),
            rows_view(result@) == filter_rows(rows_view(rows@).take(ri as int), row_keep, keep_cols@),
        decreases rows.len() - ri,
    {
        let row = &rows[ri];
        let keep_row = row_filter(row);
        let ghost old_keep = row_keep;
        proof {
            row_keep = row_keep.push(keep_row);
            assert(row_keep.drop_last() =~= old_keep);
        }
        let ghost pre = rows_view(rows@).take(ri + 1);
        assert(pre.drop_last() =~= rows_view(rows@).take(ri as int));
        assert(pre.last() == row@);
        assert(filter_rows(rows_view(rows@).take(ri as int), row_keep, keep_cols@) == filter_rows(
            rows_view(rows@).take(ri as int),
            row_keep.drop_last(),
            keep_cols@,
        )) by {
            lemma_filter_rows_prefix(rows_view(rows@).take(ri as int), row_keep, keep_cols@);
        }
        assert(filter_rows(pre, row_keep, keep_cols@) == (if keep_row {
            filter_rows(pre.drop_last(), row_keep, keep_cols@).push(keep_cells(row@, keep_cols@))
        } else {
            filter_rows(pre.drop_last(), row_keep, keep_cols@)
        }));
        if keep_row {
            let mut new_row: Vec<String> = Vec::new();
            let mut ci: usize = 0;
            assert(row@.take(0) =~= Seq::<String>::empty());
            while ci < row.len()
                invariant
                    0 <= ci <= row@.len(),
                    new_row@ == keep_cells(row@.take(ci as int), keep_cols@),
                decreases row.len() - ci,
            {
                assert(row@.take(ci + 1).drop_last() =~= row@.take(ci as int));
                let keep = if ci < keep_cols.len() {
                    keep_cols[ci]
                } else {
                    true
                };
                if keep {
                    new_row.push(row[ci].clone());
                }
                ci = ci + 1;
            }
            assert(row@.take(row@.len() as int) =~= row@);
            let ghost before = result@;
            result.push(new_row);
            assert(rows_view(result@) =~= rows_view(before).push(keep_cells(row@, keep_cols@)));
        }
        ri = ri + 1;
    }
    assert(rows_view(rows@).take(rows@.len() as int) =~= rows_view(rows@));
    assert(keep_cols@.len() == rows@[0]@.len());
    result
}

/// The filter of a prefix only looks at the matching prefix of row decisions.
pub proof fn lemma_filter_rows_prefix(rows: Seq<Seq<String>>, row_keep: Seq<bool>, col_keep: Seq<bool>)
    requires
        rows.len() < row_keep.len(),
    ensures
        filter_rows(rows, row_keep, col_keep) == filter_rows(rows, row_keep.drop_last(), col_keep),
    decreases rows.len(),
{
    if rows.len() > 0 {
        lemma_filter_rows_prefix(rows.drop_last(), row_keep, col_keep);
    }
}

} // verus!
