//! Cell references and ranges of the `refer` command: column letters, row
//! numbers, `A1` / `A1:C5` references and `A:C` / `2:10` ranges.
use vstd::prelude::*;
use crate::excel_helper::{col_name, column_name_chars, letter};
use crate::path_helper::{
    path_extension, path_file_name, path_with_file_name, spec_path_extension, spec_path_file_name,
    spec_path_with_file_name,
};
use crate::sheet_xml::{
    find_sheet_part, opt_text, reaches_empty_target_row, spec_find_sheet_part, spec_modify_sheet,
    try_modify_sheet_xml, CellValue, CellValueV, WriteGrid,
};
use crate::text::{int_decimal, spec_lower, str_eq, to_lowercase, u64_to_decimal, ascii_lower, ascii_lowercase};
use crate::text::{
    ascii_upper, is_unicode_whitespace, trim_end, trim_start, concat_str, from_chars, is_ascii_digit, is_ascii_letter, parse_usize,
    spec_parse_usize, split_chars, split_on, sub_chars, to_chars, trim, trim_chars,
};

verus! {

/// Why a reference or range cannot be read.
pub enum ReferError {
    /// A column range that is not `A` or `A:C`.
    ColumnRangeFormat(String),
    /// A column part that is not made of letters.
    InvalidColumn(String),
    /// A column range whose end comes before its start.
    ColumnRangeReversed(String),
    /// A row range that is not `2` or `2:10`.
    RowRangeFormat(String),
    /// A row part that is not a number.
    InvalidRow(String),
    /// A row range whose end comes before its start.
    RowRangeReversed(String),
    /// An empty cell reference.
    EmptyCellRef,
    /// A cell reference that cannot be read.
    InvalidCellRef(String),
    /// The letters of a cell reference are not a column.
    InvalidColumnLetters(String),
    /// The digits of a cell reference are not a row number.
    InvalidRowNumber(String),
}

/// The mathematical form of a [`ReferError`].
pub enum ReferErrorV {
    ColumnRangeFormat(Seq<char>),
    InvalidColumn(Seq<char>),
    ColumnRangeReversed(Seq<char>),
    RowRangeFormat(Seq<char>),
    InvalidRow(Seq<char>),
    RowRangeReversed(Seq<char>),
    EmptyCellRef,
    InvalidCellRef(Seq<char>),
    InvalidColumnLetters(Seq<char>),
    InvalidRowNumber(Seq<char>),
}

impl View for ReferError {
    type V = ReferErrorV;

    open spec fn view(&self) -> ReferErrorV {
        match self {
            ReferError::ColumnRangeFormat(s) => ReferErrorV::ColumnRangeFormat(s@),
            ReferError::InvalidColumn(s) => ReferErrorV::InvalidColumn(s@),
            ReferError::ColumnRangeReversed(s) => ReferErrorV::ColumnRangeReversed(s@),
            ReferError::RowRangeFormat(s) => ReferErrorV::RowRangeFormat(s@),
            ReferError::InvalidRow(s) => ReferErrorV::InvalidRow(s@),
            ReferError::RowRangeReversed(s) => ReferErrorV::RowRangeReversed(s@),
            ReferError::EmptyCellRef => ReferErrorV::EmptyCellRef,
            ReferError::InvalidCellRef(s) => ReferErrorV::InvalidCellRef(s@),
            ReferError::InvalidColumnLetters(s) => ReferErrorV::InvalidColumnLetters(s@),
            ReferError::InvalidRowNumber(s) => ReferErrorV::InvalidRowNumber(s@),
        }
    }
}

/// The text shown for an error.
pub open spec fn error_message(e: ReferErrorV) -> Seq<char> {
    match e {
        ReferErrorV::ColumnRangeFormat(s) => "列范围格式不正确: "@ + s + " (应为 A 或 A:C)"@,
        ReferErrorV::InvalidColumn(s) => "无效列: "@ + s,
        ReferErrorV::ColumnRangeReversed(s) => "列范围起点大于终点: "@ + s,
        ReferErrorV::RowRangeFormat(s) => "行范围格式不正确: "@ + s + " (应为 2 或 2:10)"@,
        ReferErrorV::InvalidRow(s) => "无效行号: "@ + s,
        ReferErrorV::RowRangeReversed(s) => "行范围起点大于终点: "@ + s,
        ReferErrorV::EmptyCellRef => "空单元格引用"@,
        ReferErrorV::InvalidCellRef(s) => "非法单元格引用: "@ + s,
        ReferErrorV::InvalidColumnLetters(s) => "非法列字母: "@ + s,
        ReferErrorV::InvalidRowNumber(s) => "非法行号: "@ + s,
    }
}

impl ReferError {
    /// The text shown for this error.
    pub fn message(&self) -> (r: String)
        ensures
            r@ == error_message(self@),
    {
        match self {
            ReferError::ColumnRangeFormat(s) => {
                let a = concat_str("列范围格式不正确: ", s.as_str());
                concat_str(a.as_str(), " (应为 A 或 A:C)")
            },
            ReferError::InvalidColumn(s) => concat_str("无效列: ", s.as_str()),
            ReferError::ColumnRangeReversed(s) => concat_str("列范围起点大于终点: ", s.as_str()),
            ReferError::RowRangeFormat(s) => {
                let a = concat_str("行范围格式不正确: ", s.as_str());
                concat_str(a.as_str(), " (应为 2 或 2:10)")
            },
            ReferError::InvalidRow(s) => concat_str("无效行号: ", s.as_str()),
            ReferError::RowRangeReversed(s) => concat_str("行范围起点大于终点: ", s.as_str()),
            ReferError::EmptyCellRef => String::from_str("空单元格引用"),
            ReferError::InvalidCellRef(s) => concat_str("非法单元格引用: ", s.as_str()),
            ReferError::InvalidColumnLetters(s) => concat_str("非法列字母: ", s.as_str()),
            ReferError::InvalidRowNumber(s) => concat_str("非法行号: ", s.as_str()),
        }
    }
}

// ---------------------------------------------------------------------------
// Column letters
// ---------------------------------------------------------------------------

/// The value of one column letter: `A`/`a` is 1, `Z`/`z` is 26.
pub open spec fn letter_value(c: char) -> nat {
    (ascii_upper(c) as int - 'A' as int + 1) as nat
}

/// The column number written by the letters `s` (bijective base 26).
pub open spec fn letters_value(s: Seq<char>) -> nat
    decreases s.len(),
{
    if s.len() == 0 {
        0
    } else {
        letters_value(s.drop_last()) * 26 + letter_value(s.last())
    }
}

/// Whether every character of `s` is an ASCII letter.
pub open spec fn all_letters(s: Seq<char>) -> bool {
    forall|i: int| 0 <= i < s.len() ==> is_ascii_letter(#[trigger] s[i])
}

/// The column that `s` names: after trimming, one or more ASCII letters.
pub open spec fn spec_col_index(s: Seq<char>) -> Option<nat> {
    let t = trim(s);
    if t.len() > 0 && all_letters(t) {
        Some(letters_value(t))
    } else {
        None
    }
}

/// Whether reading the column `s` stays within the `u32` arithmetic of the
/// reader (at most six or so letters).
pub open spec fn col_index_in_range(s: Seq<char>) -> bool {
    match spec_col_index(s) {
        Some(v) => v <= u32::MAX,
        None => true,
    }
}

proof fn lemma_letters_value_prefix(t: Seq<char>, i: int)
    requires
        0 <= i <= t.len(),
        all_letters(t),
    ensures
        letters_value(t.take(i)) <= letters_value(t),
    decreases t.len() - i,
{
    if i < t.len() {
        lemma_letters_value_prefix(t, i + 1);
        assert(t.take(i + 1).drop_last() =~= t.take(i));
    } else {
        assert(t.take(i) =~= t);
    }
}

/// Column letters to the 1-based column number: `A` is 1, `Z` 26, `AA` 27.
pub fn col_index(s: &str) -> (r: Option<usize>)
    requires
        col_index_in_range(s@),
    ensures
        match spec_col_index(s@) {
            Some(v) => r == Some(v as usize),
            None => r is None,
        },
{
    let chars = to_chars(s);
    let t = trim_chars(&chars);
    if t.len() == 0 {
        return None;
    }
    let mut i: usize = 0;
    while i < t.len()
        invariant
            0 <= i <= t@.len(),
            t@ == trim(s@),
            forall|j: int| 0 <= j < i ==> is_ascii_letter(#[trigger] t@[j]),
        decreases t.len() - i,
    {
        let c = t[i];
        if !(('a' <= c && c <= 'z') || ('A' <= c && c <= 'Z')) {
            assert(!is_ascii_letter(t@[i as int]));
            assert(!all_letters(t@));
            return None;
        }
        i = i + 1;
    }
    let mut v: u32 = 0;
    let mut k: usize = 0;
    assert(t@.take(0) =~= Seq::<char>::empty());
    while k < t.len()
        invariant
            0 <= k <= t@.len(),
            t@ == trim(s@),
            t@.len() > 0,
            all_letters(t@),
            letters_value(t@) <= u32::MAX,
            v as nat == letters_value(t@.take(k as int)),
        decreases t.len() - k,
    {
        proof {
            lemma_letters_value_prefix(t@, k + 1);
            assert(t@.take(k + 1).drop_last() =~= t@.take(k as int));
            assert(is_ascii_letter(t@[k as int]));
        }
        let c = t[k];
        let up = if 'a' <= c && c <= 'z' {
            (c as u32) - 32
        } else {
            c as u32
        };
        let d = up - 64;
        v = v * 26 + d;
        k = k + 1;
    }
    assert(t@.take(t@.len() as int) =~= t@);
    Some(v as usize)
}

/// 1-based column number to column letters: 1 is `A`, 27 is `AA`.
pub fn col_letter(n: usize) -> (r: String)
    ensures
        r@ == col_name(n as nat),
{
    let c = column_name_chars(n);
    from_chars(&c)
}

proof fn lemma_col_name_letters(n: nat)
    ensures
        all_letters(col_name(n)),
        letters_value(col_name(n)) == n,
        col_name(n).len() > 0 <==> n > 0,
    decreases n,
{
    if n > 0 {
        let q = ((n - 1) as nat) / 26;
        let d = ((n - 1) as nat) % 26;
        lemma_col_name_letters(q);
        let s = col_name(n);
        assert(s == col_name(q).push(letter(d)));
        assert(s.drop_last() =~= col_name(q));
        assert(is_ascii_letter(letter(d)));
        assert(letter_value(letter(d)) == d + 1);
        assert forall|i: int| 0 <= i < s.len() implies is_ascii_letter(#[trigger] s[i]) by {
            if i < s.len() - 1 {
                assert(s[i] == col_name(q)[i]);
            }
        }
    }
}

/// Law: column letters read back as the column number they were written
/// for: `col_index(col_letter(n)) == Some(n)` for every column `n >= 1`.
pub proof fn law_col_index_inverts_col_letter(n: nat)
    requires
        1 <= n,
    ensures
        spec_col_index(col_name(n)) == Some(n),
{
    lemma_col_name_letters(n);
    let s = col_name(n);
    assert(!is_unicode_whitespace(s[0]));
    assert(trim_start(s) == s);
    assert(!is_unicode_whitespace(s.last()));
    assert(trim_end(s) == s);
}

// ---------------------------------------------------------------------------
// Ranges
// ---------------------------------------------------------------------------

/// A column range `start` or `start:end` (1-based).
pub struct ColSpec {
    pub start: usize,
    pub end: Option<usize>,
}

/// A row range `start` or `start:end`.
pub struct RowSpec {
    pub start: usize,
    pub end: Option<usize>,
}

/// Whether a range text has one or two parts, none blank.
pub open spec fn range_shape_ok(s: Seq<char>) -> bool {
    let ps = split_on(s, ':');
    ps.len() <= 2 && forall|i: int| 0 <= i < ps.len() ==> trim(#[trigger] ps[i]).len() > 0
}

/// Whether every part of a column range stays within the reader's arithmetic.
pub open spec fn col_spec_in_range(s: Seq<char>) -> bool {
    let ps = split_on(s, ':');
    forall|i: int| 0 <= i < ps.len() ==> col_index_in_range(trim(#[trigger] ps[i]))
}

/// What a column range `A` or `A:C` reads as.
pub open spec fn spec_col_spec(s: Seq<char>) -> Result<(nat, Option<nat>), ReferErrorV> {
    let ps = split_on(s, ':');
    if !range_shape_ok(s) {
        Err(ReferErrorV::ColumnRangeFormat(s))
    } else {
        match spec_col_index(trim(ps[0])) {
            None => Err(ReferErrorV::InvalidColumn(trim(ps[0]))),
            Some(start) => if ps.len() == 2 {
                match spec_col_index(trim(ps[1])) {
                    None => Err(ReferErrorV::InvalidColumn(trim(ps[1]))),
                    Some(end) => if end < start {
                        Err(ReferErrorV::ColumnRangeReversed(s))
                    } else {
                        Ok((start, Some(end)))
                    },
                }
            } else {
                Ok((start, None))
            },
        }
    }
}

/// What a row range `2` or `2:10` reads as.
pub open spec fn spec_row_spec(s: Seq<char>) -> Result<(nat, Option<nat>), ReferErrorV> {
    let ps = split_on(s, ':');
    if !range_shape_ok(s) {
        Err(ReferErrorV::RowRangeFormat(s))
    } else {
        match spec_parse_usize(trim(ps[0])) {
            None => Err(ReferErrorV::InvalidRow(trim(ps[0]))),
            Some(start) => if ps.len() == 2 {
                match spec_parse_usize(trim(ps[1])) {
                    None => Err(ReferErrorV::InvalidRow(trim(ps[1]))),
                    Some(end) => if end < start {
                        Err(ReferErrorV::RowRangeReversed(s))
                    } else {
                        Ok((start as nat, Some(end as nat)))
                    },
                }
            } else {
                Ok((start as nat, None))
            },
        }
    }
}

fn split_range(s: &str) -> (r: Option<Vec<Vec<char>>>)
    ensures
        range_shape_ok(s@) ==> (r matches Some(ps) && ps@.len() == split_on(s@, ':').len() && (
        forall|i: int| 0 <= i < ps@.len() ==> #[trigger] ps@[i]@ == trim(split_on(s@, ':')[i]))),
        !range_shape_ok(s@) ==> r is None,
{
    let chars = to_chars(s);
    let parts = split_chars(&chars, ':');
    if parts.len() > 2 {
        return None;
    }
    let mut out: Vec<Vec<char>> = Vec::new();
    let mut i: usize = 0;
    while i < parts.len()
        invariant
            parts@.len() == split_on(s@, ':').len() <= 2,
            forall|k: int| 0 <= k < parts@.len() ==> #[trigger] parts@[k]@ == split_on(s@, ':')[k],
            0 <= i <= parts@.len(),
            out@.len() == i,
            forall|k: int| 0 <= k < i ==> #[trigger] out@[k]@ == trim(split_on(s@, ':')[k]),
            forall|k: int| 0 <= k < i ==> trim(#[trigger] split_on(s@, ':')[k]).len() > 0,
        decreases parts.len() - i,
    {
        let t = trim_chars(&parts[i]);
        if t.len() == 0 {
            return None;
        }
        out.push(t);
        i = i + 1;
    }
    Some(out)
}

/// Parses a column range such as `A` or `A:C`.
pub fn parse_col_spec(s: &str) -> (r: Result<ColSpec, ReferError>)
    requires
        col_spec_in_range(s@),
    ensures
        match spec_col_spec(s@) {
            Ok((start, end)) => r matches Ok(c) && c.start as nat == start && match end {
                Some(e) => c.end == Some(e as usize),
                None => c.end is None,
            },
            Err(e) => r matches Err(re) && re@ == e,
        },
{
    let parts = match split_range(s) {
        Some(p) => p,
        None => return Err(ReferError::ColumnRangeFormat(String::from_str(s))),
    };
    let p0 = from_chars(&parts[0]);
    let start = match col_index(p0.as_str()) {
        Some(v) => v,
        None => return Err(ReferError::InvalidColumn(p0)),
    };
    let end = if parts.len() == 2 {
        let p1 = from_chars(&parts[1]);
        match col_index(p1.as_str()) {
            Some(v) => Some(v),
            None => return Err(ReferError::InvalidColumn(p1)),
        }
    } else {
        None
    };
    if let Some(e) = end {
        if e < start {
            return Err(ReferError::ColumnRangeReversed(String::from_str(s)));
        }
    }
    Ok(ColSpec { start, end })
}

/// Parses a row range such as `2` or `2:10`.
pub fn parse_row_spec(s: &str) -> (r: Result<RowSpec, ReferError>)
    ensures
        match spec_row_spec(s@) {
            Ok((start, end)) => r matches Ok(c) && c.start as nat == start && match end {
                Some(e) => c.end == Some(e as usize),
                None => c.end is None,
            },
            Err(e) => r matches Err(re) && re@ == e,
        },
{
    let parts = match split_range(s) {
        Some(p) => p,
        None => return Err(ReferError::RowRangeFormat(String::from_str(s))),
    };
    let p0 = from_chars(&parts[0]);
    let start = match parse_usize(p0.as_str()) {
        Some(v) => v,
        None => return Err(ReferError::InvalidRow(p0)),
    };
    let end = if parts.len() == 2 {
        let p1 = from_chars(&parts[1]);
        match parse_usize(p1.as_str()) {
            Some(v) => Some(v),
            None => return Err(ReferError::InvalidRow(p1)),
        }
    } else {
        None
    };
    if let Some(e) = end {
        if e < start {
            return Err(ReferError::RowRangeReversed(String::from_str(s)));
        }
    }
    Ok(RowSpec { start, end })
}

// ---------------------------------------------------------------------------
// Cell references
// ---------------------------------------------------------------------------

/// Index of the first ASCII digit of `s`, or its length.
pub open spec fn first_digit(s: Seq<char>) -> nat
    decreases s.len(),
{
    if s.len() == 0 {
        0
    } else if is_ascii_digit(s[0]) {
        0
    } else {
        1 + first_digit(s.drop_first())
    }
}

proof fn lemma_first_digit(s: Seq<char>)
    ensures
        first_digit(s) <= s.len(),
        first_digit(s) < s.len() ==> is_ascii_digit(s[first_digit(s) as int]),
        forall|j: int| 0 <= j < first_digit(s) ==> !is_ascii_digit(#[trigger] s[j]),
    decreases s.len(),
{
    if s.len() > 0 && !is_ascii_digit(s[0]) {
        lemma_first_digit(s.drop_first());
        assert forall|j: int| 0 <= j < first_digit(s) implies !is_ascii_digit(#[trigger] s[j]) by {
            if j > 0 {
                assert(s.drop_first()[j - 1] == s[j]);
            }
        }
    }
}

/// Whether the letters of the cell reference `s` stay within the reader's arithmetic.
pub open spec fn cell_ref_in_range(s: Seq<char>) -> bool {
    let t = trim(s);
    col_index_in_range(t.take(first_digit(t) as int))
}

/// What a single cell reference such as `B7` reads as: `(row, column)`.
pub open spec fn spec_single_cell_ref(s: Seq<char>) -> Result<(nat, nat), ReferErrorV> {
    let t = trim(s);
    let split = first_digit(t) as int;
    if split >= t.len() {
        Err(ReferErrorV::InvalidCellRef(t))
    } else {
        let letters = t.take(split);
        let digits = t.skip(split);
        match spec_col_index(letters) {
            None => Err(ReferErrorV::InvalidColumnLetters(letters)),
            Some(col) => match spec_parse_usize(digits) {
                None => Err(ReferErrorV::InvalidRowNumber(digits)),
                Some(row) => Ok((row as nat, col)),
            },
        }
    }
}

/// Parses a single cell reference such as `B7` into `(row, column)`.
pub fn parse_single_cell_ref(s: &str) -> (r: Result<(usize, usize), ReferError>)
    requires
        cell_ref_in_range(s@),
    ensures
        match spec_single_cell_ref(s@) {
            Ok((row, col)) => r matches Ok((rr, rc)) && rr as nat == row && rc as nat == col,
            Err(e) => r matches Err(re) && re@ == e,
        },
{
    let chars = to_chars(s);
    let t = trim_chars(&chars);
    proof {
        lemma_first_digit(t@);
    }
    let mut split: usize = 0;
    while split < t.len() && !('0' <= t[split] && t[split] <= '9')
        invariant
            0 <= split <= t@.len(),
            forall|j: int| 0 <= j < split ==> !is_ascii_digit(#[trigger] t@[j]),
        decreases t.len() - split,
    {
        split = split + 1;
    }
    assert(split as nat == first_digit(t@)) by {
        let q = first_digit(t@) as int;
        if q < split {
            assert(!is_ascii_digit(t@[q]));
        }
    }
    if split >= t.len() {
        return Err(ReferError::InvalidCellRef(from_chars(&t)));
    }
    let letters = sub_chars(&t, 0, split);
    let digits = sub_chars(&t, split, t.len());
    assert(letters@ =~= t@.take(split as int));
    assert(digits@ =~= t@.skip(split as int));
    let letters_s = from_chars(&letters);
    let digits_s = from_chars(&digits);
    let col = match col_index(letters_s.as_str()) {
        Some(c) => c,
        None => return Err(ReferError::InvalidColumnLetters(letters_s)),
    };
    let row = match parse_usize(digits_s.as_str()) {
        Some(v) => v,
        None => return Err(ReferError::InvalidRowNumber(digits_s)),
    };
    Ok((row, col))
}

/// Whether every reference of a cell range text stays within the reader's arithmetic.
pub open spec fn cell_range_in_range(s: Seq<char>) -> bool {
    let ps = split_on(trim(s), ':');
    forall|i: int| 0 <= i < ps.len() ==> cell_ref_in_range(#[trigger] ps[i])
}

/// What a cell reference `A1` or range `A1:C5` reads as: the rectangle
/// `(top row, left column, bottom row, right column)`, corners in any order.
pub open spec fn spec_cell_ref(s: Seq<char>) -> Result<(nat, nat, nat, nat), ReferErrorV> {
    let t = trim(s);
    let ps = split_on(t, ':');
    if t.len() == 0 {
        Err(ReferErrorV::EmptyCellRef)
    } else if ps.len() > 2 {
        Err(ReferErrorV::InvalidCellRef(t))
    } else {
        let a = ps[0];
        let b = if ps.len() == 2 {
            ps[1]
        } else {
            ps[0]
        };
        match spec_single_cell_ref(a) {
            Err(e) => Err(e),
            Ok((r1, c1)) => match spec_single_cell_ref(b) {
                Err(e) => Err(e),
                Ok((r2, c2)) => Ok(
                    (
                        if r1 <= r2 {
                            r1
                        } else {
                            r2
                        },
                        if c1 <= c2 {
                            c1
                        } else {
                            c2
                        },
                        if r1 >= r2 {
                            r1
                        } else {
                            r2
                        },
                        if c1 >= c2 {
                            c1
                        } else {
                            c2
                        },
                    ),
                ),
            },
        }
    }
}

/// Parses `A1` or `A1:C5` into `(r0, c0, r1, c1)`, 1-based and inclusive.
pub fn parse_cell_ref(s: &str) -> (r: Result<(usize, usize, usize, usize), ReferError>)
    requires
        cell_range_in_range(s@),
    ensures
        match spec_cell_ref(s@) {
            Ok((r0, c0, r1, c1)) => r matches Ok((a, b, c, d)) && a as nat == r0 && b as nat == c0
                && c as nat == r1 && d as nat == c1,
            Err(e) => r matches Err(re) && re@ == e,
        },
{
    let chars = to_chars(s);
    let t = trim_chars(&chars);
    if t.len() == 0 {
        return Err(ReferError::EmptyCellRef);
    }
    let parts = split_chars(&t, ':');
    if parts.len() > 2 {
        return Err(ReferError::InvalidCellRef(from_chars(&t)));
    }
    let a = from_chars(&parts[0]);
    let b = if parts.len() == 2 {
        from_chars(&parts[1])
    } else {
        from_chars(&parts[0])
    };
    let (r1, c1) = parse_single_cell_ref(a.as_str())?;
    let (r2, c2) = parse_single_cell_ref(b.as_str())?;
    let r0 = if r1 <= r2 {
        r1
    } else {
        r2
    };
    let c0 = if c1 <= c2 {
        c1
    } else {
        c2
    };
    let rr = if r1 >= r2 {
        r1
    } else {
        r2
    };
    let cc = if c1 >= c2 {
        c1
    } else {
        c2
    };
    Ok((r0, c0, rr, cc))
}

// ---------------------------------------------------------------------------
// Checking the size of a reference before reading it
// ---------------------------------------------------------------------------

proof fn lemma_letters_value_grows(t: Seq<char>, i: int, j: int)
    requires
        0 <= i <= j <= t.len(),
        all_letters(t),
    ensures
        letters_value(t.take(i)) <= letters_value(t.take(j)),
    decreases j - i,
{
    if i < j {
        lemma_letters_value_grows(t, i, j - 1);
        assert(t.take(j).drop_last() =~= t.take(j - 1));
    }
}

/// Whether the column letters `s` can be read (see [`col_index_in_range`]).
pub fn col_index_fits(s: &str) -> (r: bool)
    ensures
        r == col_index_in_range(s@),
{
    let chars = to_chars(s);
    let t = trim_chars(&chars);
    let mut i: usize = 0;
    while i < t.len()
        invariant
            0 <= i <= t@.len(),
            t@ == trim(s@),
            forall|j: int| 0 <= j < i ==> is_ascii_letter(#[trigger] t@[j]),
        decreases t.len() - i,
    {
        let c = t[i];
        if !(('a' <= c && c <= 'z') || ('A' <= c && c <= 'Z')) {
            assert(!is_ascii_letter(t@[i as int]));
            assert(!all_letters(t@));
            return true;
        }
        i = i + 1;
    }
    if t.len() == 0 {
        return true;
    }
    let mut v: u64 = 0;
    let mut k: usize = 0;
    assert(t@.take(0) =~= Seq::<char>::empty());
    while k < t.len()
        invariant
            0 <= k <= t@.len(),
            t@ == trim(s@),
            t@.len() > 0,
            all_letters(t@),
            v as nat == letters_value(t@.take(k as int)),
            v <= u32::MAX,
        decreases t.len() - k,
    {
        proof {
            assert(t@.take(k + 1).drop_last() =~= t@.take(k as int));
            assert(is_ascii_letter(t@[k as int]));
        }
        let c = t[k];
        let up = if 'a' <= c && c <= 'z' {
            (c as u64) - 32
        } else {
            c as u64
        };
        let d = up - 64;
        let nv = v * 26 + d;
        if nv > 0xffff_ffffu64 {
            proof {
                lemma_letters_value_grows(t@, k + 1, t@.len() as int);
                assert(t@.take(t@.len() as int) =~= t@);
            }
            return false;
        }
        v = nv;
        k = k + 1;
    }
    assert(t@.take(t@.len() as int) =~= t@);
    true
}

/// Whether the cell reference `s` can be read (see [`cell_ref_in_range`]).
pub fn cell_ref_fits(s: &str) -> (r: bool)
    ensures
        r == cell_ref_in_range(s@),
{
    let chars = to_chars(s);
    let t = trim_chars(&chars);
    proof {
        lemma_first_digit(t@);
    }
    let mut split: usize = 0;
    while split < t.len() && !('0' <= t[split] && t[split] <= '9')
        invariant
            0 <= split <= t@.len(),
            forall|j: int| 0 <= j < split ==> !is_ascii_digit(#[trigger] t@[j]),
        decreases t.len() - split,
    {
        split = split + 1;
    }
    assert(split as nat == first_digit(t@)) by {
        let q = first_digit(t@) as int;
        if q < split {
            assert(!is_ascii_digit(t@[q]));
        }
    }
    let letters = sub_chars(&t, 0, split);
    assert(letters@ =~= t@.take(split as int));
    col_index_fits(from_chars(&letters).as_str())
}

/// Whether every reference of the range `s` can be read (see [`cell_range_in_range`]).
pub fn cell_range_fits(s: &str) -> (r: bool)
    ensures
        r == cell_range_in_range(s@),
{
    let chars = to_chars(s);
    let t = trim_chars(&chars);
    let parts = split_chars(&t, ':');
    let ghost ps = split_on(trim(s@), ':');
    let mut i: usize = 0;
    while i < parts.len()
        invariant
            0 <= i <= parts@.len(),
            ps == split_on(trim(s@), ':'),
            parts@.len() == ps.len(),
            forall|j: int| 0 <= j < parts@.len() ==> (#[trigger] parts@[j])@ == ps[j],
            forall|j: int| 0 <= j < i ==> cell_ref_in_range(#[trigger] ps[j]),
        decreases parts.len() - i,
    {
        let part = from_chars(&parts[i]);
        assert(part@ == ps[i as int]);
        if !cell_ref_fits(part.as_str()) {
            assert(!cell_ref_in_range(ps[i as int]));
            assert(!cell_range_in_range(s@)) by {
                if cell_range_in_range(s@) {
                    assert(cell_ref_in_range(split_on(trim(s@), ':')[i as int]));
                }
            }
            return false;
        }
        i = i + 1;
    }
    true
}

// ---------------------------------------------------------------------------
// The refer command
// ---------------------------------------------------------------------------

/// What the refer command is asked to do: copy a rectangle of the sheet
/// `from_sheet` of `from` into the sheet `to_sheet` of `to`.
pub struct ReferArgs {
    pub from: String,
    pub to: String,
    pub from_sheet: String,
    pub to_sheet: String,
    pub from_columns: Option<String>,
    pub to_columns: Option<String>,
    pub from_rows: Option<String>,
    pub to_rows: Option<String>,
    pub force: bool,
}

/// Why the command does nothing: a source range is given without the
/// target start it goes to.
pub open spec fn spec_skip_message(args: ReferArgs) -> Option<Seq<char>> {
    if args.from_columns is Some && args.to_columns is None {
        Some("> ⚠️ 指定了 --from-columns 但没有 --to-columns, 跳过引用操作"@)
    } else if args.from_rows is Some && args.to_rows is None {
        Some("> ⚠️ 指定了 --from-rows 但没有 --to-rows, 跳过引用操作"@)
    } else {
        None
    }
}

/// The warning under which the command does nothing, if any.
pub fn refer_skip_message(args: &ReferArgs) -> (r: Option<String>)
    ensures
        opt_text(r) == spec_skip_message(*args),
{
    if args.from_columns.is_some() && args.to_columns.is_none() {
        return Some(String::from_str("> ⚠️ 指定了 --from-columns 但没有 --to-columns, 跳过引用操作"));
    }
    if args.from_rows.is_some() && args.to_rows.is_none() {
        return Some(String::from_str("> ⚠️ 指定了 --from-rows 但没有 --to-rows, 跳过引用操作"));
    }
    None
}

/// The line that announces the copy.
pub fn refer_title(args: &ReferArgs) -> (r: String)
    ensures
        r@ == "> 📎 引用: "@ + args.from@ + "#"@ + args.from_sheet@ + " -> "@ + args.to@ + "#"@ + args.to_sheet@,
{
    let a = concat_str("> 📎 引用: ", args.from.as_str());
    let b = concat_str(a.as_str(), "#");
    let c = concat_str(b.as_str(), args.from_sheet.as_str());
    let d = concat_str(c.as_str(), " -> ");
    let e = concat_str(d.as_str(), args.to.as_str());
    let f = concat_str(e.as_str(), "#");
    concat_str(f.as_str(), args.to_sheet.as_str())
}

fn to_ascii_lowercase(s: &str) -> (r: String)
    ensures
        r@ == ascii_lowercase(s@),
{
    let c = to_chars(s);
    let mut out: Vec<char> = Vec::new();
    let mut i: usize = 0;
    while i < c.len()
        invariant
            0 <= i <= c@.len(),
            c@ == s@,
            out@ == ascii_lowercase(c@.take(i as int)),
        decreases c.len() - i,
    {
        let x = c[i];
        let y = if 'A' <= x && x <= 'Z' {
            ((x as u8) + 32) as char
        } else {
            x
        };
        assert(y == ascii_lower(x)) by {
            if 'A' <= x && x <= 'Z' {
                assert((x as u8) as u32 == x as u32);
            }
        }
        out.push(y);
        assert(out@ =~= ascii_lowercase(c@.take(i + 1)));
        i = i + 1;
    }
    assert(c@.take(i as int) =~= c@);
    from_chars(&out)
}

/// Whether the target is a workbook the command can write: its extension,
/// in lower case, is `xlsx` or `xlsm`.
pub open spec fn spec_target_ok(to: Seq<char>) -> bool {
    let ext = match spec_path_extension(to) {
        Some(e) => ascii_lowercase(e),
        None => seq![],
    };
    ext == "xlsx"@ || ext == "xlsm"@
}

/// Checks that the target can be written (see [`spec_target_ok`]).
pub fn check_refer_target(to: &str) -> (r: Result<(), String>)
    ensures
        spec_target_ok(to@) ==> r is Ok,
        !spec_target_ok(to@) ==> (r matches Err(m) && m@ == "> ❌ 引用写入目前仅支持 .xlsx/.xlsm 目标文件, 当前: "@
            + to@),
{
    let ext = match path_extension(to) {
        Some(e) => to_ascii_lowercase(e.as_str()),
        None => String::new(),
    };
    proof {
        reveal_strlit("xlsx");
        reveal_strlit("xlsm");
    }
    if crate::text::str_eq(ext.as_str(), "xlsx") || crate::text::str_eq(ext.as_str(), "xlsm") {
        Ok(())
    } else {
        Err(concat_str("> ❌ 引用写入目前仅支持 .xlsx/.xlsm 目标文件, 当前: ", to))
    }
}

/// The cells of a sheet as the reader gives them: the absolute (0-based)
/// positions of the first and last cell, and the rows in between.
pub struct SheetGrid {
    pub start: Option<(usize, usize)>,
    pub end: Option<(usize, usize)>,
    pub rows: Vec<Vec<CellValue>>,
}

impl SheetGrid {
    /// The value at the absolute (0-based) position `(r, c)`, if it lies
    /// within the sheet's cells.
    pub open spec fn value_at(&self, r: int, c: int) -> Option<CellValueV> {
        match (self.start, self.end) {
            (Some((r0, c0)), Some((r1, c1))) => if r0 <= r <= r1 && c0 <= c <= c1 && r - r0
                < self.rows@.len() && c - c0 < self.rows@[r - r0]@.len() {
                Some(self.rows@[r - r0]@[c - c0]@)
            } else {
                None
            },
            _ => None,
        }
    }

    /// The value at the absolute (0-based) position `(r, c)`.
    pub fn get_value(&self, r: usize, c: usize) -> (v: Option<&CellValue>)
        ensures
            match self.value_at(r as int, c as int) {
                Some(x) => v matches Some(y) && y@ == x,
                None => v is None,
            },
    {
        match (self.start, self.end) {
            (Some((r0, c0)), Some((r1, c1))) => {
                if r0 <= r && r <= r1 && c0 <= c && c <= c1 {
                    let i = r - r0;
                    let j = c - c0;
                    if i < self.rows.len() && j < self.rows[i].len() {
                        return Some(&self.rows[i][j]);
                    }
                }
                None
            },
            _ => None,
        }
    }
}

/// The cells a sheet uses, 1-based and inclusive: `(first row, first
/// column, last row, last column)`, from the first and last cell; `None`
/// for a sheet without data.
pub open spec fn spec_used_range(g: SheetGrid) -> Option<(nat, nat, nat, nat)> {
    match (g.start, g.end) {
        (Some((r0, c0)), Some((r1, c1))) => if r1 >= r0 && c1 >= c0 {
            Some(((r0 + 1) as nat, (c0 + 1) as nat, (r1 + 1) as nat, (c1 + 1) as nat))
        } else {
            None
        },
        _ => None,
    }
}

/// Whether the sheet's positions leave room to count them from 1.
pub open spec fn grid_positions_ok(g: SheetGrid) -> bool {
    &&& g.start matches Some((r, c)) ==> r < usize::MAX && c < usize::MAX
    &&& g.end matches Some((r, c)) ==> r < usize::MAX && c < usize::MAX
}

/// The cells the sheet uses (see [`spec_used_range`]).
pub fn used_range(g: &SheetGrid) -> (r: Option<(usize, usize, usize, usize)>)
    requires
        grid_positions_ok(*g),
    ensures
        match spec_used_range(*g) {
            Some((a, b, c, d)) => r == Some((a as usize, b as usize, c as usize, d as usize)),
            None => r is None,
        },
{
    match (g.start, g.end) {
        (Some((r0, c0)), Some((r1, c1))) => if r1 >= r0 && c1 >= c0 {
            Some((r0 + 1, c0 + 1, r1 + 1, c1 + 1))
        } else {
            None
        },
        _ => None,
    }
}

/// The rectangle to copy and where it goes, 1-based: source columns and
/// rows, the target's first column and row, and the width and height.
pub struct ReferPlan {
    pub col_start: usize,
    pub col_end: usize,
    pub row_start: usize,
    pub row_end: usize,
    pub to_col: usize,
    pub to_row: usize,
    pub width: usize,
    pub height: usize,
}

/// `b - a + 1`, or 1 where `b` is below `a`.
pub open spec fn span_of(a: nat, b: nat) -> nat {
    if b >= a {
        (b - a + 1) as nat
    } else {
        1
    }
}

/// An optional column range read, or its error's text.
pub open spec fn opt_col_spec(s: Option<Seq<char>>) -> Result<Option<(nat, Option<nat>)>, Seq<char>> {
    match s {
        None => Ok(None),
        Some(t) => match spec_col_spec(t) {
            Ok(x) => Ok(Some(x)),
            Err(e) => Err(error_message(e)),
        },
    }
}

/// An optional row range read, or its error's text.
pub open spec fn opt_row_spec(s: Option<Seq<char>>) -> Result<Option<(nat, Option<nat>)>, Seq<char>> {
    match s {
        None => Ok(None),
        Some(t) => match spec_row_spec(t) {
            Ok(x) => Ok(Some(x)),
            Err(e) => Err(error_message(e)),
        },
    }
}

/// The plan as numbers: `(col_start, col_end, row_start, row_end, to_col,
/// to_row)`; a missing source start or end is the used range's, a missing
/// target start is 1.
pub open spec fn spec_plan(args: ReferArgs, used: (nat, nat, nat, nat)) -> Result<
    (nat, nat, nat, nat, nat, nat),
    Seq<char>,
> {
    let (ur0, uc0, ur1, uc1) = used;
    match opt_col_spec(opt_text(args.from_columns)) {
        Err(m) => Err(m),
        Ok(fc) => match opt_row_spec(opt_text(args.from_rows)) {
            Err(m) => Err(m),
            Ok(fr) => match opt_col_spec(opt_text(args.to_columns)) {
                Err(m) => Err(m),
                Ok(tc) => match opt_row_spec(opt_text(args.to_rows)) {
                    Err(m) => Err(m),
                    Ok(tr) => {
                        let col_start = match fc {
                            Some((s, _)) => s,
                            None => uc0,
                        };
                        let col_end = match fc {
                            Some((_, Some(e))) => e,
                            _ => uc1,
                        };
                        let row_start = match fr {
                            Some((s, _)) => s,
                            None => ur0,
                        };
                        let row_end = match fr {
                            Some((_, Some(e))) => e,
                            _ => ur1,
                        };
                        let to_col = match tc {
                            Some((s, _)) => s,
                            None => 1,
                        };
                        let to_row = match tr {
                            Some((s, _)) => s,
                            None => 1,
                        };
                        Ok((col_start, col_end, row_start, row_end, to_col, to_row))
                    },
                },
            },
        },
    }
}

/// Whether planning stays within the arithmetic of the command: the
/// column ranges can be read, the target's first row is at least 1, and the
/// target rectangle lies within the sheet's `u32` positions.
pub open spec fn plan_fits(args: ReferArgs, used: (nat, nat, nat, nat)) -> bool {
    &&& args.from_columns matches Some(s) ==> col_spec_in_range(s@)
    &&& (opt_col_spec(opt_text(args.from_columns)) is Ok && opt_row_spec(opt_text(args.from_rows)) is Ok)
        ==> (args.to_columns matches Some(s) ==> col_spec_in_range(s@))
    &&& spec_plan(args, used) matches Ok((cs, ce, rs, re, tc, tr)) ==> {
        &&& tr >= 1
        &&& tr + span_of(rs, re) <= u32::MAX + 1
        &&& tc + span_of(cs, ce) <= u32::MAX + 1
    }
}

fn opt_col(s: &Option<String>) -> (r: Result<Option<ColSpec>, String>)
    requires
        s matches Some(t) ==> col_spec_in_range(t@),
    ensures
        match opt_col_spec(opt_text(*s)) {
            Ok(None) => r matches Ok(None),
            Ok(Some((a, b))) => r matches Ok(Some(c)) && c.start as nat == a && match b {
                Some(e) => c.end == Some(e as usize),
                None => c.end is None,
            },
            Err(m) => r matches Err(x) && x@ == m,
        },
{
    match s {
        None => Ok(None),
        Some(t) => match parse_col_spec(t.as_str()) {
            Ok(c) => Ok(Some(c)),
            Err(e) => Err(e.message()),
        },
    }
}

fn opt_row(s: &Option<String>) -> (r: Result<Option<RowSpec>, String>)
    ensures
        match opt_row_spec(opt_text(*s)) {
            Ok(None) => r matches Ok(None),
            Ok(Some((a, b))) => r matches Ok(Some(c)) && c.start as nat == a && match b {
                Some(e) => c.end == Some(e as usize),
                None => c.end is None,
            },
            Err(m) => r matches Err(x) && x@ == m,
        },
{
    match s {
        None => Ok(None),
        Some(t) => match parse_row_spec(t.as_str()) {
            Ok(c) => Ok(Some(c)),
            Err(e) => Err(e.message()),
        },
    }
}

/// Plans the copy: the source rectangle from the given ranges and the used
/// range, the target's first cell, and the size (see [`spec_plan`]).
pub fn plan_refer(args: &ReferArgs, used: (usize, usize, usize, usize)) -> (r: Result<ReferPlan, String>)
    requires
        plan_fits(*args, (used.0 as nat, used.1 as nat, used.2 as nat, used.3 as nat)),
    ensures
        match spec_plan(*args, (used.0 as nat, used.1 as nat, used.2 as nat, used.3 as nat)) {
            Ok((cs, ce, rs, re, tc, tr)) => r matches Ok(p) && p.col_start == cs && p.col_end == ce
                && p.row_start == rs && p.row_end == re && p.to_col == tc && p.to_row == tr && p.width
                == span_of(cs, ce) && p.height == span_of(rs, re),
            Err(m) => r matches Err(x) && x@ == m,
        },
{
    let (ur0, uc0, ur1, uc1) = used;
    let fc = opt_col(&args.from_columns)?;
    let fr = opt_row(&args.from_rows)?;
    let tc = opt_col(&args.to_columns)?;
    let tr = opt_row(&args.to_rows)?;
    let col_start = match &fc {
        Some(c) => c.start,
        None => uc0,
    };
    let col_end = match &fc {
        Some(c) => match c.end {
            Some(e) => e,
            None => uc1,
        },
        None => uc1,
    };
    let row_start = match &fr {
        Some(c) => c.start,
        None => ur0,
    };
    let row_end = match &fr {
        Some(c) => match c.end {
            Some(e) => e,
            None => ur1,
        },
        None => ur1,
    };
    let to_col = match &tc {
        Some(c) => c.start,
        None => 1,
    };
    let to_row = match &tr {
        Some(c) => c.start,
        None => 1,
    };
    let width = if col_end >= col_start {
        col_end - col_start + 1
    } else {
        1
    };
    let height = if row_end >= row_start {
        row_end - row_start + 1
    } else {
        1
    };
    Ok(ReferPlan { col_start, col_end, row_start, row_end, to_col, to_row, width, height })
}

/// Whether every part of the column range `s` can be read (see [`col_spec_in_range`]).
pub fn col_spec_fits(s: &str) -> (r: bool)
    ensures
        r == col_spec_in_range(s@),
{
    let chars = to_chars(s);
    let parts = split_chars(&chars, ':');
    let ghost ps = split_on(s@, ':');
    let mut i: usize = 0;
    while i < parts.len()
        invariant
            0 <= i <= parts@.len(),
            ps == split_on(s@, ':'),
            parts@.len() == ps.len(),
            forall|j: int| 0 <= j < parts@.len() ==> (#[trigger] parts@[j])@ == ps[j],
            forall|j: int| 0 <= j < i ==> col_index_in_range(trim(#[trigger] ps[j])),
        decreases parts.len() - i,
    {
        let t = from_chars(&trim_chars(&parts[i]));
        if !col_index_fits(t.as_str()) {
            assert(!col_index_in_range(trim(ps[i as int])));
            return false;
        }
        i = i + 1;
    }
    true
}

/// Whether planning stays within the command's arithmetic (see [`plan_fits`]).
pub fn plan_fits_exec(args: &ReferArgs, used: (usize, usize, usize, usize)) -> (r: bool)
    ensures
        r == plan_fits(*args, (used.0 as nat, used.1 as nat, used.2 as nat, used.3 as nat)),
{
    let ghost u = (used.0 as nat, used.1 as nat, used.2 as nat, used.3 as nat);
    match &args.from_columns {
        Some(s) => {
            if !col_spec_fits(s.as_str()) {
                return false;
            }
        },
        None => {},
    }
    let fc = match opt_col(&args.from_columns) {
        Ok(x) => x,
        Err(_) => {
            return true;
        },
    };
    let fr = match opt_row(&args.from_rows) {
        Ok(x) => x,
        Err(_) => {
            return true;
        },
    };
    match &args.to_columns {
        Some(s) => {
            if !col_spec_fits(s.as_str()) {
                return false;
            }
        },
        None => {},
    }
    let tc = match opt_col(&args.to_columns) {
        Ok(x) => x,
        Err(_) => {
            return true;
        },
    };
    let tr = match opt_row(&args.to_rows) {
        Ok(x) => x,
        Err(_) => {
            return true;
        },
    };
    let (ur0, uc0, ur1, uc1) = used;
    let col_start = match &fc {
        Some(c) => c.start,
        None => uc0,
    };
    let col_end = match &fc {
        Some(c) => match c.end {
            Some(e) => e,
            None => uc1,
        },
        None => uc1,
    };
    let row_start = match &fr {
        Some(c) => c.start,
        None => ur0,
    };
    let row_end = match &fr {
        Some(c) => match c.end {
            Some(e) => e,
            None => ur1,
        },
        None => ur1,
    };
    let to_col = match &tc {
        Some(c) => c.start,
        None => 1,
    };
    let to_row = match &tr {
        Some(c) => c.start,
        None => 1,
    };
    assert(spec_plan(*args, u) == Ok::<(nat, nat, nat, nat, nat, nat), Seq<char>>(
        (col_start as nat, col_end as nat, row_start as nat, row_end as nat, to_col as nat, to_row as nat),
    ));
    let height: u128 = if row_end >= row_start {
        (row_end as u128) - (row_start as u128) + 1
    } else {
        1
    };
    let width: u128 = if col_end >= col_start {
        (col_end as u128) - (col_start as u128) + 1
    } else {
        1
    };
    to_row >= 1 && (to_row as u128) + height <= 0x1_0000_0000u128 && (to_col as u128) + width <= 0x1_0000_0000u128
}

/// The line that shows the source rectangle and where it goes.
pub fn area_message(p: &ReferPlan) -> (r: String)
    ensures
        r@ == "> 📐 源区域: "@ + col_name(p.col_start as nat) + int_decimal(p.row_start as int) + ":"@ + col_name(
            p.col_end as nat,
        ) + int_decimal(p.row_end as int) + " ("@ + int_decimal(p.width as int) + "x"@ + int_decimal(
            p.height as int,
        ) + "), 写入目标起始: "@ + col_name(p.to_col as nat) + int_decimal(p.to_row as int),
{
    let a = concat_str("> 📐 源区域: ", col_letter(p.col_start).as_str());
    let b = concat_str(a.as_str(), u64_to_decimal(p.row_start as u64).as_str());
    let c = concat_str(b.as_str(), ":");
    let d = concat_str(c.as_str(), col_letter(p.col_end).as_str());
    let e = concat_str(d.as_str(), u64_to_decimal(p.row_end as u64).as_str());
    let f = concat_str(e.as_str(), " (");
    let g = concat_str(f.as_str(), u64_to_decimal(p.width as u64).as_str());
    let h = concat_str(g.as_str(), "x");
    let i = concat_str(h.as_str(), u64_to_decimal(p.height as u64).as_str());
    let j = concat_str(i.as_str(), "), 写入目标起始: ");
    let k = concat_str(j.as_str(), col_letter(p.to_col).as_str());
    concat_str(k.as_str(), u64_to_decimal(p.to_row as u64).as_str())
}

/// The line that reports the copy done.
pub fn done_message(p: &ReferPlan, args: &ReferArgs) -> (r: String)
    ensures
        r@ == "> ✅ 引用完成: "@ + int_decimal(p.height as int) + " 行 x "@ + int_decimal(p.width as int)
            + " 列 已写入 "@ + args.to@ + "#"@ + args.to_sheet@ + " (起始 "@ + col_name(p.to_col as nat)
            + int_decimal(p.to_row as int) + ")"@,
{
    let a = concat_str("> ✅ 引用完成: ", u64_to_decimal(p.height as u64).as_str());
    let b = concat_str(a.as_str(), " 行 x ");
    let c = concat_str(b.as_str(), u64_to_decimal(p.width as u64).as_str());
    let d = concat_str(c.as_str(), " 列 已写入 ");
    let e = concat_str(d.as_str(), args.to.as_str());
    let f = concat_str(e.as_str(), "#");
    let g = concat_str(f.as_str(), args.to_sheet.as_str());
    let h = concat_str(g.as_str(), " (起始 ");
    let i = concat_str(h.as_str(), col_letter(p.to_col).as_str());
    let j = concat_str(i.as_str(), u64_to_decimal(p.to_row as u64).as_str());
    concat_str(j.as_str(), ")")
}

/// The number of whole numbers from `a` to `b`.
pub open spec fn count_between(a: nat, b: nat) -> nat {
    if b >= a {
        (b - a + 1) as nat
    } else {
        0
    }
}

/// The value of the source cell at row `r`, column `c` (1-based): the
/// sheet's value there, or empty.
pub open spec fn source_cell(g: SheetGrid, r: nat, c: nat) -> CellValueV {
    if r >= 1 && c >= 1 {
        match g.value_at(r - 1, c - 1) {
            Some(v) => v,
            None => CellValueV::Empty,
        }
    } else {
        CellValueV::Empty
    }
}

fn source_value(g: &SheetGrid, r: usize, c: usize) -> (v: CellValue)
    ensures
        v@ == source_cell(*g, r as nat, c as nat),
{
    if r >= 1 && c >= 1 {
        match g.get_value(r - 1, c - 1) {
            Some(x) => x.copy(),
            None => CellValue::Empty,
        }
    } else {
        CellValue::Empty
    }
}

/// The values of the source rectangle, row by row.
pub fn collect_values(g: &SheetGrid, p: &ReferPlan) -> (r: Vec<Vec<CellValue>>)
    requires
        p.height == span_of(p.row_start as nat, p.row_end as nat),
        p.width == span_of(p.col_start as nat, p.col_end as nat),
    ensures
        r@.len() == count_between(p.row_start as nat, p.row_end as nat),
        forall|i: int|
            0 <= i < r@.len() ==> (#[trigger] r@[i])@.len() == count_between(p.col_start as nat, p.col_end as nat),
        forall|i: int, j: int|
            0 <= i < r@.len() && 0 <= j < r@[i]@.len() ==> (#[trigger] r@[i]@[j])@ == source_cell(
                *g,
                (p.row_start + i) as nat,
                (p.col_start + j) as nat,
            ),
{
    let nrows: usize = if p.row_end >= p.row_start {
        p.height
    } else {
        0
    };
    let ncols: usize = if p.col_end >= p.col_start {
        p.width
    } else {
        0
    };
    let mut out: Vec<Vec<CellValue>> = Vec::new();
    let mut i: usize = 0;
    while i < nrows
        invariant
            0 <= i <= nrows,
            nrows == count_between(p.row_start as nat, p.row_end as nat),
            ncols == count_between(p.col_start as nat, p.col_end as nat),
            out@.len() == i,
            forall|k: int| 0 <= k < i ==> (#[trigger] out@[k])@.len() == ncols,
            forall|k: int, j: int|
                0 <= k < i && 0 <= j < out@[k]@.len() ==> (#[trigger] out@[k]@[j])@ == source_cell(
                    *g,
                    (p.row_start + k) as nat,
                    (p.col_start + j) as nat,
                ),
        decreases nrows - i,
    {
        let mut row: Vec<CellValue> = Vec::new();
        let mut j: usize = 0;
        while j < ncols
            invariant
                0 <= i < nrows,
                nrows == count_between(p.row_start as nat, p.row_end as nat),
                ncols == count_between(p.col_start as nat, p.col_end as nat),
                0 <= j <= ncols,
                row@.len() == j,
                forall|m: int| 0 <= m < j ==> (#[trigger] row@[m])@ == source_cell(
                    *g,
                    (p.row_start + i) as nat,
                    (p.col_start + m) as nat,
                ),
            decreases ncols - j,
        {
            row.push(source_value(g, p.row_start + i, p.col_start + j));
            j = j + 1;
        }
        out.push(row);
        i = i + 1;
    }
    out
}

/// Whether the sheet holds a value that is not empty at the 1-based `(r, c)`.
pub open spec fn filled_at(g: SheetGrid, r: int, c: int) -> bool {
    match g.value_at(r - 1, c - 1) {
        Some(v) => v != CellValueV::Empty,
        None => false,
    }
}

/// Whether the target rectangle already holds a value that is not empty.
pub open spec fn spec_has_data(g: SheetGrid, p: ReferPlan) -> bool {
    exists|r: int, c: int|
        p.to_row <= r < p.to_row + p.height && p.to_col <= c < p.to_col + p.width && #[trigger] filled_at(g, r, c)
}

/// Whether the target rectangle already holds data (see [`spec_has_data`]).
pub fn target_has_data(g: &SheetGrid, p: &ReferPlan) -> (r: bool)
    requires
        p.to_row >= 1,
        p.to_col >= 1,
        p.to_row + p.height <= usize::MAX,
        p.to_col + p.width <= usize::MAX,
    ensures
        r == spec_has_data(*g, *p),
{
    let mut r = p.to_row;
    while r < p.to_row + p.height
        invariant
            p.to_row <= r <= p.to_row + p.height,
            p.to_row >= 1,
            p.to_col >= 1,
            p.to_row + p.height <= usize::MAX,
            p.to_col + p.width <= usize::MAX,
            forall|rr: int, cc: int|
                p.to_row <= rr < r && p.to_col <= cc < p.to_col + p.width ==> !#[trigger] filled_at(*g, rr, cc),
        decreases p.to_row + p.height - r,
    {
        let mut c = p.to_col;
        while c < p.to_col + p.width
            invariant
                p.to_row <= r < p.to_row + p.height,
                p.to_col <= c <= p.to_col + p.width,
                p.to_row >= 1,
                p.to_col >= 1,
                p.to_col + p.width <= usize::MAX,
                forall|rr: int, cc: int|
                    p.to_row <= rr < r && p.to_col <= cc < p.to_col + p.width ==> !#[trigger] filled_at(*g, rr, cc),
                forall|cc: int| p.to_col <= cc < c ==> !#[trigger] filled_at(*g, r as int, cc),
            decreases p.to_col + p.width - c,
        {
            match g.get_value(r - 1, c - 1) {
                Some(v) => {
                    if !v.is_empty() {
                        assert(filled_at(*g, r as int, c as int));
                        return true;
                    }
                },
                None => {},
            }
            c = c + 1;
        }
        r = r + 1;
    }
    false
}

/// The values to write and the target rectangle `(r0, c0, r1, c1)`: the
/// values go from the target's first cell on.
pub fn write_plan(p: &ReferPlan, values: Vec<Vec<CellValue>>) -> (r: (WriteGrid, (usize, usize, usize, usize)))
    requires
        p.height >= 1,
        p.width >= 1,
        p.to_row + p.height <= usize::MAX,
        p.to_col + p.width <= usize::MAX,
    ensures
        r.0.top == p.to_row,
        r.0.left == p.to_col,
        r.0.values@ == values@,
        r.1 == (p.to_row, p.to_col, (p.to_row + p.height - 1) as usize, (p.to_col + p.width - 1) as usize),
{
    (
        WriteGrid { top: p.to_row, left: p.to_col, values },
        (p.to_row, p.to_col, p.to_row + p.height - 1, p.to_col + p.width - 1),
    )
}

/// Law: the values collected for a plan and laid out by [`write_plan`] put,
/// at every target cell `(to_row + i, to_col + j)` of the rectangle, the
/// value of the source cell `(row_start + i, col_start + j)` (an empty
/// value where the source has none).
pub proof fn law_target_cells_get_source_values(
    src: SheetGrid,
    p: ReferPlan,
    values: Seq<Vec<CellValue>>,
    g: WriteGrid,
    i: int,
    j: int,
)
    requires
        values.len() == count_between(p.row_start as nat, p.row_end as nat),
        forall|k: int|
            0 <= k < values.len() ==> (#[trigger] values[k])@.len() == count_between(
                p.col_start as nat,
                p.col_end as nat,
            ),
        forall|a: int, b: int|
            0 <= a < values.len() && 0 <= b < values[a]@.len() ==> (#[trigger] values[a]@[b])@ == source_cell(
                src,
                (p.row_start + a) as nat,
                (p.col_start + b) as nat,
            ),
        g.top == p.to_row,
        g.left == p.to_col,
        g.values@ == values,
        0 <= i < count_between(p.row_start as nat, p.row_end as nat),
        0 <= j < count_between(p.col_start as nat, p.col_end as nat),
    ensures
        g.at(p.to_row + i, p.to_col + j) == Some(
            source_cell(src, (p.row_start + i) as nat, (p.col_start + j) as nat),
        ),
{
    assert(values[i]@.len() == count_between(p.col_start as nat, p.col_end as nat));
    assert(values[i]@[j]@ == source_cell(src, (p.row_start + i) as nat, (p.col_start + j) as nat));
}

/// Whether the answer to the overwrite question is yes: `y` in any case,
/// with whitespace around it.
pub open spec fn spec_confirmed(line: Seq<char>) -> bool {
    spec_lower(trim(line)) == "y"@
}

/// Whether the answer to the overwrite question is yes.
pub fn overwrite_confirmed(line: &str) -> (r: bool)
    ensures
        r == spec_confirmed(line@),
{
    let t = from_chars(&trim_chars(&to_chars(line)));
    let l = to_lowercase(t.as_str());
    str_eq(l.as_str(), "y")
}

/// The temporary file written before it replaces `path`: `.NAME.refer.tmp`
/// beside it, `NAME` being its file name (`tmp.xlsx` where it has none).
pub open spec fn spec_temp_path(path: Seq<char>) -> Seq<char> {
    let name = match spec_path_file_name(path) {
        Some(n) => n,
        None => "tmp.xlsx"@,
    };
    spec_path_with_file_name(path, "."@ + name + ".refer.tmp"@)
}

/// The temporary file written before it replaces `path`.
pub fn temp_path_for(path: &str) -> (r: String)
    ensures
        r@ == spec_temp_path(path@),
{
    let name = match path_file_name(path) {
        Some(n) => n,
        None => String::from_str("tmp.xlsx"),
    };
    let a = concat_str(".", name.as_str());
    let b = concat_str(a.as_str(), ".refer.tmp");
    path_with_file_name(path, b.as_str())
}

/// The index of the first entry named `name`.
pub open spec fn entry_index(names: Seq<Seq<char>>, name: Seq<char>) -> Option<nat>
    decreases names.len(),
{
    if names.len() == 0 {
        None
    } else {
        match entry_index(names.drop_last(), name) {
            Some(i) => Some(i),
            None => if names.last() == name {
                Some((names.len() - 1) as nat)
            } else {
                None
            },
        }
    }
}

/// The names of the entries of a workbook.
pub open spec fn entry_names(entries: Seq<(String, Vec<u8>)>) -> Seq<Seq<char>> {
    entries.map_values(|e: (String, Vec<u8>)| e.0@)
}

fn find_entry(entries: &Vec<(String, Vec<u8>)>, name: &str) -> (r: Option<usize>)
    ensures
        match r {
            Some(j) => entry_index(entry_names(entries@), name@) == Some(j as nat) && j < entries@.len(),
            None => entry_index(entry_names(entries@), name@) is None,
        },
{
    let ghost names = entry_names(entries@);
    let mut i: usize = 0;
    assert(names.take(0) =~= Seq::<Seq<char>>::empty());
    while i < entries.len()
        invariant
            0 <= i <= entries@.len(),
            names == entry_names(entries@),
            entry_index(names.take(i as int), name@) is None,
        decreases entries.len() - i,
    {
        assert(names.take(i + 1).drop_last() =~= names.take(i as int));
        if str_eq(entries[i].0.as_str(), name) {
            proof {
                lemma_entry_index_prefix(names, name@, i + 1);
            }
            return Some(i);
        }
        i = i + 1;
    }
    assert(names.take(i as int) =~= names);
    None
}

proof fn lemma_entry_index_prefix(names: Seq<Seq<char>>, name: Seq<char>, k: int)
    requires
        0 <= k <= names.len(),
        entry_index(names.take(k), name) is Some,
    ensures
        entry_index(names, name) == entry_index(names.take(k), name),
    decreases names.len() - k,
{
    if k < names.len() {
        assert(names.take(k + 1).drop_last() =~= names.take(k));
        lemma_entry_index_prefix(names, name, k + 1);
    } else {
        assert(names.take(k) =~= names);
    }
}

/// What the rewriting of a workbook gives for its entries: the part that
/// holds `sheet_name` and that part's new XML; or the error that stops it.
pub open spec fn spec_rewrite_entries(
    entries: Seq<(String, Vec<u8>)>,
    sheet_name: Seq<char>,
    g: WriteGrid,
    rect: (nat, nat, nat, nat),
) -> Result<(Seq<char>, Seq<char>), Seq<char>> {
    let names = entry_names(entries);
    match entry_index(names, "xl/workbook.xml"@) {
        None => Err("xlsx 缺少 xl/workbook.xml"@),
        Some(w) => match entry_index(names, "xl/_rels/workbook.xml.rels"@) {
            None => Err("xlsx 缺少 xl/_rels/workbook.xml.rels"@),
            Some(rl) => match spec_find_sheet_part(entries[w as int].1@, entries[rl as int].1@, sheet_name) {
                Err(m) => Err(m),
                Ok(part) => match entry_index(names, part) {
                    None => Err("xlsx 缺少条目: "@ + part),
                    Some(k) => match spec_modify_sheet(entries[k as int].1@, g, rect) {
                        Err(m) => Err(m),
                        Ok(x) => Ok((part, x)),
                    },
                },
            },
        },
    }
}

/// Whether the rewriting of the workbook reaches the sheet XML and, in it,
/// a target row it cannot take the children of.
pub open spec fn rewrite_reaches_empty_row(
    entries: Seq<(String, Vec<u8>)>,
    sheet_name: Seq<char>,
    r0: nat,
    r1: nat,
) -> bool {
    let names = entry_names(entries);
    match (entry_index(names, "xl/workbook.xml"@), entry_index(names, "xl/_rels/workbook.xml.rels"@)) {
        (Some(w), Some(rl)) => match spec_find_sheet_part(entries[w as int].1@, entries[rl as int].1@, sheet_name) {
            Ok(part) => match entry_index(names, part) {
                Some(k) => reaches_empty_target_row(entries[k as int].1@, r0, r1),
                None => false,
            },
            Err(_) => false,
        },
        _ => false,
    }
}

/// Finds the sheet's part among the workbook's entries and rewrites it for
/// the rectangle `(r0, c0, r1, c1)` written from `grid` (see
/// [`spec_rewrite_entries`]); `None` where the rewriting of the sheet gives
/// none (see [`try_modify_sheet_xml`]).
pub fn rewrite_entries(
    entries: &Vec<(String, Vec<u8>)>,
    sheet_name: &str,
    grid: &WriteGrid,
    r0: usize,
    c0: usize,
    r1: usize,
    c1: usize,
) -> (r: Option<Result<(String, String), String>>)
    requires
        c1 < usize::MAX,
        r1 < usize::MAX,
    ensures
        r is None <==> rewrite_reaches_empty_row(entries@, sheet_name@, r0 as nat, r1 as nat),
        r matches Some(x) ==> match spec_rewrite_entries(
            entries@,
            sheet_name@,
            *grid,
            (r0 as nat, c0 as nat, r1 as nat, c1 as nat),
        ) {
            Ok((part, xml)) => x matches Ok((p, t)) && p@ == part && t@ == xml,
            Err(m) => x matches Err(y) && y@ == m,
        },
{
    proof {
        reveal_strlit("xl/workbook.xml");
        reveal_strlit("xl/_rels/workbook.xml.rels");
    }
    let w = match find_entry(entries, "xl/workbook.xml") {
        None => {
            return Some(Err(String::from_str("xlsx 缺少 xl/workbook.xml")));
        },
        Some(i) => i,
    };
    let rl = match find_entry(entries, "xl/_rels/workbook.xml.rels") {
        None => {
            return Some(Err(String::from_str("xlsx 缺少 xl/_rels/workbook.xml.rels")));
        },
        Some(i) => i,
    };
    let wb = entries[w].1.as_slice();
    let rels = entries[rl].1.as_slice();
    assert(wb@ == entries@[w as int].1@);
    assert(rels@ == entries@[rl as int].1@);
    let ghost names = entry_names(entries@);
    assert(entry_index(names, "xl/workbook.xml"@) == Some(w as nat));
    assert(entry_index(names, "xl/_rels/workbook.xml.rels"@) == Some(rl as nat));
    let part = match find_sheet_part(wb, rels, sheet_name) {
        Err(m) => {
            assert(spec_find_sheet_part(entries@[w as int].1@, entries@[rl as int].1@, sheet_name@) == Err::<
                Seq<char>,
                Seq<char>,
            >(m@));
            return Some(Err(m));
        },
        Ok(p) => p,
    };
    let k = match find_entry(entries, part.as_str()) {
        None => {
            return Some(Err(concat_str("xlsx 缺少条目: ", part.as_str())));
        },
        Some(i) => i,
    };
    let sheet = entries[k].1.as_slice();
    assert(sheet@ == entries@[k as int].1@);
    match try_modify_sheet_xml(sheet, grid, r0, c0, r1, c1) {
        None => None,
        Some(Err(m)) => Some(Err(m)),
        Some(Ok(x)) => Some(Ok((part, x))),
    }
}


/// The bytes written back for each entry of the workbook, in order: the new
/// XML for the entry named `part`, every other entry's bytes as they were.
pub fn entries_out(entries: &Vec<(String, Vec<u8>)>, part: &str, xml: &str) -> (r: Vec<Vec<u8>>)
    ensures
        r@.len() == entries@.len(),
        forall|i: int|
            0 <= i < entries@.len() ==> (#[trigger] r@[i])@ == if entries@[i].0@ == part@ {
                vstd::utf8::encode_utf8(xml@)
            } else {
                entries@[i].1@
            },
{
    let mut out: Vec<Vec<u8>> = Vec::new();
    let mut i: usize = 0;
    while i < entries.len()
        invariant
            0 <= i <= entries@.len(),
            out@.len() == i,
            forall|k: int|
                0 <= k < i ==> (#[trigger] out@[k])@ == if entries@[k].0@ == part@ {
                    vstd::utf8::encode_utf8(xml@)
                } else {
                    entries@[k].1@
                },
        decreases entries.len() - i,
    {
        if str_eq(entries[i].0.as_str(), part) {
            out.push(xml.as_bytes_vec());
        } else {
            out.push(vstd::slice::slice_to_vec(entries[i].1.as_slice()));
        }
        i = i + 1;
    }
    out
}

} // verus!
