//! Spreadsheet column names.
use vstd::prelude::*;
use crate::text::from_chars;

verus! {

/// A sheet as read from a workbook: its name and the text of every cell.
pub struct SheetContent {
    pub name: String,
    pub rows: Vec<Vec<String>>,
}

/// The letter for `d` in 0..26.
pub open spec fn letter(d: nat) -> char {
    ((d + 'A' as nat) as u32) as char
}

/// The column name of the 1-based column `n` (bijective base 26: 1 is `A`,
/// 26 is `Z`, 27 is `AA`); 0 has the empty name.
pub open spec fn col_name(n: nat) -> Seq<char>
    decreases n,
{
    if n == 0 {
        seq![]
    } else {
        col_name(((n - 1) as nat) / 26).push(letter(((n - 1) as nat) % 26))
    }
}

/// Builds the column name of the 1-based column `n`.
pub fn column_name_chars(n: usize) -> (r: Vec<char>)
    ensures
        r@ == col_name(n as nat),
{
    let mut rev: Vec<char> = Vec::new();
    let mut m: usize = n;
    while m > 0
        invariant
            col_name(n as nat) == col_name(m as nat) + rev@.reverse(),
        decreases m,
    {
        let k = m - 1;
        let ch = ((k % 26) as u8 + 65u8) as char;
        assert(ch == letter((k as nat) % 26));
        let ghost before = rev@;
        rev.push(ch);
        assert(rev@.reverse() =~= seq![ch] + before.reverse());
        assert(col_name(m as nat) == col_name((k / 26) as nat).push(ch));
        assert(col_name((k / 26) as nat).push(ch) + before.reverse() =~= col_name((k / 26) as nat)
            + (seq![ch] + before.reverse()));
        m = k / 26;
    }
    assert(col_name(0) =~= Seq::<char>::empty());
    let mut out: Vec<char> = Vec::new();
    let mut i: usize = rev.len();
    while i > 0
        invariant
            0 <= i <= rev@.len(),
            out@ == rev@.subrange(i as int, rev@.len() as int).reverse(),
        decreases i,
    {
        i = i - 1;
        out.push(rev[i]);
        assert(out@ =~= rev@.subrange(i as int, rev@.len() as int).reverse());
    }
    assert(rev@.subrange(0, rev@.len() as int) =~= rev@);
    assert(col_name(n as nat) =~= rev@.reverse());
    out
}

/// The column name of the 1-based column `n` (`1` is `A`, `27` is `AA`).
pub fn num_to_col(n: usize) -> (r: String)
    ensures
        r@ == col_name(n as nat),
{
    let c = column_name_chars(n);
    from_chars(&c)
}

} // verus!
