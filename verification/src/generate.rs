//! Turning sheet columns into output rows, and the per-sheet results.
use vstd::prelude::*;
use crate::cell_helper::{
    cell_text, convert_cell_to_json, parse_attr, parsed_attr, str_converter, CellTypes, TheadAttr,
    cut_ok, spec_cell_text, spec_cell_json, opt_model, spec_urlencoded_pairs, last_value, attr_or,
    spec_str_converter,
};
use crate::text::{spec_parse_usize, find_from, lemma_find_from};
use vstd::utf8::{encode_utf8, is_char_boundary};
use crate::config::Config;
use crate::excel_helper::SheetContent;
use crate::path_helper::{
    normalized_texts, path_collect, path_extension, path_join, path_normalize, path_with_extension,
    spec_path_collect, spec_path_components, spec_path_extension, spec_path_join,
    spec_path_with_extension, no_separator, path_file_stem, path_with_file_name, spec_path_file_stem,
    spec_path_with_file_name, path_clean, spec_path_clean,
};
use crate::str_map::StrMap;
use crate::text::{has_prefix, matches_at, sub_chars};
use crate::excel_helper::{col_name, num_to_col};
use crate::flatten::{
    fill_auto_indexes, counter_of, display_of, scan_key_from, KeyScan, KeyToken, bracket_value, skip_dot,
    parts_from_tokens, part_from_token, count_auto, is_auto, is_last_auto, FlattenPart, get_display_string, lemma_object_model, member_models, set_from, set_json_value,
    FlattenKey,
};
use crate::json::{scalar_text, scalar_to_string, Json, JsonV};
use crate::text::{concat_str, int_decimal, push_all, str_eq, to_chars, u64_to_decimal, from_chars};

verus! {

/// A column of a sheet: where it is, its key and attributes, and its cells
/// with, for each, the number of the row it came from (`meta`).
pub struct SheetColumn {
    pub column: usize,
    pub column_name: String,
    pub key: FlattenKey,
    pub body: Vec<Json>,
    pub meta: Vec<String>,
    pub attr: TheadAttr,
}

impl SheetColumn {
    /// An empty column at the 0-based index `column`.
    pub fn new(column: usize, key: FlattenKey, attr: TheadAttr) -> (r: Self)
        requires
            column < usize::MAX,
        ensures
            r.column == column,
            r.column_name@ == col_name(column as nat + 1),
            r.key == key,
            r.attr == attr,
            r.body@.len() == 0,
            r.meta@.len() == 0,
    {
        SheetColumn {
            column,
            column_name: num_to_col(column + 1),
            key,
            body: Vec::new(),
            meta: Vec::new(),
            attr,
        }
    }
}

/// The kind of file a sheet is written to.
#[derive(Copy, Clone, PartialEq, Eq, Structural, Debug)]
pub enum ContentKinds {
    Json,
    Txt,
    Csv,
}

impl Default for ContentKinds {
    fn default() -> (r: Self)
        ensures
            r == ContentKinds::Json,
    {
        ContentKinds::Json
    }
}

/// The file extension of a kind.
pub open spec fn kind_name(k: ContentKinds) -> Seq<char> {
    match k {
        ContentKinds::Json => "json"@,
        ContentKinds::Txt => "txt"@,
        ContentKinds::Csv => "csv"@,
    }
}

/// The kind named by a file extension: `json`, `csv`, anything else text.
pub open spec fn kind_of(s: Seq<char>) -> ContentKinds {
    if s == "json"@ {
        ContentKinds::Json
    } else if s == "csv"@ {
        ContentKinds::Csv
    } else {
        ContentKinds::Txt
    }
}

impl ContentKinds {
    /// The file extension of this kind.
    pub fn as_str(&self) -> (r: &'static str)
        ensures
            r@ == kind_name(*self),
    {
        match self {
            ContentKinds::Json => "json",
            ContentKinds::Txt => "txt",
            ContentKinds::Csv => "csv",
        }
    }

    /// The kind named by a file extension.
    pub fn from(str: &str) -> (r: Self)
        ensures
            r == kind_of(str@),
    {
        if str_eq(str, "json") {
            ContentKinds::Json
        } else if str_eq(str, "csv") {
            ContentKinds::Csv
        } else {
            ContentKinds::Txt
        }
    }
}

/// Whether every cell of every column is a scalar.
pub open spec fn bodies_scalar(cols: Seq<SheetColumn>) -> bool {
    forall|c: int, i: int|
        0 <= c < cols.len() && 0 <= i < cols[c].body@.len() ==> (#[trigger] cols[c].body@[i]).is_scalar()
}

/// The number of rows: the longest column.
pub open spec fn max_body_len(cols: Seq<SheetColumn>) -> nat
    decreases cols.len(),
{
    if cols.len() == 0 {
        0
    } else {
        let m = max_body_len(cols.drop_last());
        let l = cols.last().body@.len();
        if l > m {
            l
        } else {
            m
        }
    }
}

/// Whether column `col` gives nothing to row `r`: it has no cell there, or
/// the cell's text is the column's `ignore` value.
pub open spec fn col_skipped(col: SheetColumn, r: int) -> bool {
    r >= col.body@.len() || (col.attr.ignore matches Some(ig) && ig@ == scalar_text(
        col.body@[r].model(),
    ))
}

/// The document of row `r`: from `doc`, each column from `c` on that gives a
/// cell writes it at its key's path.
pub open spec fn row_doc(cols: Seq<SheetColumn>, r: int, c: nat, doc: JsonV) -> JsonV
    decreases cols.len() - c,
{
    if c >= cols.len() {
        doc
    } else if col_skipped(cols[c as int], r) {
        row_doc(cols, r, c + 1, doc)
    } else {
        row_doc(
            cols,
            r,
            c + 1,
            set_from(doc, cols[c as int].key.parts@, 0, cols[c as int].body@[r].model()),
        )
    }
}

/// The meta line of column `col` at row `r`: `$[r].key COL:origin`.
pub open spec fn meta_entry(col: SheetColumn, r: int) -> Seq<char> {
    "$["@ + int_decimal(r) + "]."@ + display_of(col.key.parts@) + " "@ + col.column_name@ + ":"@ + (
    if r < col.meta@.len() {
        col.meta@[r]@
    } else {
        Seq::<char>::empty()
    })
}

/// The meta lines of row `r` for the columns from `c` on.
pub open spec fn row_meta(cols: Seq<SheetColumn>, r: int, c: nat) -> Seq<Seq<char>>
    decreases cols.len() - c,
{
    if c >= cols.len() {
        seq![]
    } else if col_skipped(cols[c as int], r) {
        row_meta(cols, r, c + 1)
    } else {
        seq![meta_entry(cols[c as int], r)] + row_meta(cols, r, c + 1)
    }
}

/// The meta lines of the first `n` rows.
pub open spec fn all_meta(cols: Seq<SheetColumn>, n: nat) -> Seq<Seq<char>>
    decreases n,
{
    if n == 0 {
        seq![]
    } else {
        all_meta(cols, (n - 1) as nat) + row_meta(cols, n - 1, 0)
    }
}

/// The texts of a sequence of strings.
pub open spec fn texts(v: Seq<String>) -> Seq<Seq<char>> {
    Seq::new(v.len(), |i: int| v[i]@)
}

fn max_len(list: &Vec<SheetColumn>) -> (r: usize)
    ensures
        r == max_body_len(list@),
{
    let mut m: usize = 0;
    let mut i: usize = 0;
    assert(list@.take(0) =~= Seq::<SheetColumn>::empty());
    while i < list.len()
        invariant
            0 <= i <= list@.len(),
            m == max_body_len(list@.take(i as int)),
        decreases list.len() - i,
    {
        assert(list@.take(i + 1).drop_last() =~= list@.take(i as int));
        if list[i].body.len() > m {
            m = list[i].body.len();
        }
        i = i + 1;
    }
    assert(list@.take(list@.len() as int) =~= list@);
    m
}

fn meta_line(col: &SheetColumn, row_i: usize) -> (r: String)
    ensures
        r@ == meta_entry(*col, row_i as int),
{
    let mut out: Vec<char> = Vec::new();
    out.push('$');
    out.push('[');
    let n = u64_to_decimal(row_i as u64);
    push_all(&mut out, &to_chars(n.as_str()));
    out.push(']');
    out.push('.');
    let key = get_display_string(col.key.parts.as_slice());
    push_all(&mut out, &to_chars(key.as_str()));
    out.push(' ');
    push_all(&mut out, &to_chars(col.column_name.as_str()));
    out.push(':');
    if row_i < col.meta.len() {
        push_all(&mut out, &to_chars(col.meta[row_i].as_str()));
    }
    proof {
        reveal_strlit("$[");
        reveal_strlit("].");
        reveal_strlit(" ");
        reveal_strlit(":");
    }
    assert(out@ =~= meta_entry(*col, row_i as int));
    from_chars(&out)
}

fn is_skipped(col: &SheetColumn, row_i: usize) -> (r: bool)
    requires
        forall|i: int| 0 <= i < col.body@.len() ==> (#[trigger] col.body@[i]).is_scalar(),
    ensures
        r == col_skipped(*col, row_i as int),
{
    if row_i >= col.body.len() {
        return true;
    }
    match &col.attr.ignore {
        Some(ig) => {
            let text = scalar_to_string(&col.body[row_i]);
            str_eq(ig.as_str(), text.as_str())
        },
        None => false,
    }
}

/// One JSON object per row, each column's cell written at its key's path
/// (columns without a cell, or whose cell is the `ignore` value, give
/// nothing), and a meta line for each cell written.
pub fn get_json_list_by_table(list: &Vec<SheetColumn>) -> (r: (Vec<Json>, Vec<String>))
    requires
        bodies_scalar(list@),
    ensures
        r.0@.len() == max_body_len(list@),
        forall|i: int|
            0 <= i < r.0@.len() ==> #[trigger] r.0@[i].model() == row_doc(
                list@,
                i,
                0,
                JsonV::Object(seq![]),
            ),
        texts(r.1@) == all_meta(list@, max_body_len(list@)),
{
    if list.len() == 0 {
        let empty_meta: Vec<String> = Vec::new();
        assert(texts(empty_meta@) =~= all_meta(list@, 0));
        return (Vec::new(), empty_meta);
    }
    let len = max_len(list);
    let mut result: Vec<Json> = Vec::new();
    let mut meta: Vec<String> = Vec::new();
    let mut row_i: usize = 0;
    assert(texts(meta@) =~= all_meta(list@, 0));
    while row_i < len
        invariant
            bodies_scalar(list@),
            len == max_body_len(list@),
            0 <= row_i <= len,
            result@.len() == row_i,
            forall|i: int|
                0 <= i < row_i ==> #[trigger] result@[i].model() == row_doc(
                    list@,
                    i,
                    0,
                    JsonV::Object(seq![]),
                ),
            texts(meta@) == all_meta(list@, row_i as nat),
        decreases len - row_i,
    {
        let v: Vec<(String, Json)> = Vec::new();
        proof {
            lemma_object_model(v);
            assert(member_models(v@) =~= Seq::<(Seq<char>, JsonV)>::empty());
        }
        let mut json_obj = Json::Object(v);
        let ghost meta0 = texts(meta@);
        let mut c: usize = 0;
        assert(meta0 + row_meta(list@, row_i as int, 0) =~= texts(meta@) + row_meta(
            list@,
            row_i as int,
            0,
        ));
        while c < list.len()
            invariant
                bodies_scalar(list@),
                0 <= c <= list@.len(),
                row_doc(list@, row_i as int, c as nat, json_obj.model()) == row_doc(
                    list@,
                    row_i as int,
                    0,
                    JsonV::Object(seq![]),
                ),
                texts(meta@) + row_meta(list@, row_i as int, c as nat) == meta0 + row_meta(
                    list@,
                    row_i as int,
                    0,
                ),
            decreases list.len() - c,
        {
            let col = &list[c];
            proof {
                assert forall|i: int| 0 <= i < col.body@.len() implies (#[trigger] col.body@[i]).is_scalar() by {
                    assert(list@[c as int].body@[i].is_scalar());
                }
            }
            if !is_skipped(col, row_i) {
                let cell = col.body[row_i].copy();
                set_json_value(&mut json_obj, &col.key.parts, cell);
                let line = meta_line(col, row_i);
                let ghost before = texts(meta@);
                meta.push(line);
                assert(texts(meta@) =~= before.push(meta_entry(list@[c as int], row_i as int)));
                assert(texts(meta@) + row_meta(list@, row_i as int, (c + 1) as nat) =~= before + (seq![
                    meta_entry(list@[c as int], row_i as int),
                ] + row_meta(list@, row_i as int, (c + 1) as nat)));
            }
            c = c + 1;
        }
        assert(texts(meta@) + Seq::<Seq<char>>::empty() =~= texts(meta@));
        result.push(json_obj);
        row_i = row_i + 1;
    }
    (result, meta)
}

/// How a cell reads in a text table: a string as it is, anything else as JSON.
pub open spec fn plain_text(v: JsonV) -> Seq<char> {
    match v {
        JsonV::Str(s) => s,
        _ => scalar_text(v),
    }
}

/// The text of row `r` for the columns from `c` on: each cell present,
/// followed by `splitter` unless it is in the last column.
pub open spec fn row_text(cols: Seq<SheetColumn>, r: int, c: nat, splitter: Seq<char>) -> Seq<char>
    decreases cols.len() - c,
{
    if c >= cols.len() {
        seq![]
    } else if r < cols[c as int].body@.len() {
        plain_text(cols[c as int].body@[r].model()) + (if c + 1 != cols.len() {
            splitter
        } else {
            Seq::<char>::empty()
        }) + row_text(cols, r, c + 1, splitter)
    } else {
        row_text(cols, r, c + 1, splitter)
    }
}

/// One text line per row: the cells of the row joined by `splitter`.
pub fn get_table_list_by_table(list: &Vec<SheetColumn>, splitter: &str) -> (r: (
    Vec<Json>,
    Vec<String>,
))
    requires
        bodies_scalar(list@),
    ensures
        r.0@.len() == max_body_len(list@),
        forall|i: int|
            0 <= i < r.0@.len() ==> #[trigger] r.0@[i].model() == JsonV::Str(
                row_text(list@, i, 0, splitter@),
            ),
        r.1@.len() == 0,
{
    if list.len() == 0 {
        return (Vec::new(), Vec::new());
    }
    let len = max_len(list);
    let mut result: Vec<Json> = Vec::new();
    let mut row_i: usize = 0;
    while row_i < len
        invariant
            bodies_scalar(list@),
            len == max_body_len(list@),
            0 <= row_i <= len,
            result@.len() == row_i,
            forall|i: int|
                0 <= i < row_i ==> #[trigger] result@[i].model() == JsonV::Str(
                    row_text(list@, i, 0, splitter@),
                ),
        decreases len - row_i,
    {
        let mut row: Vec<char> = Vec::new();
        let mut c: usize = 0;
        assert(row@ + row_text(list@, row_i as int, 0, splitter@) =~= row_text(
            list@,
            row_i as int,
            0,
            splitter@,
        ));
        while c < list.len()
            invariant
                bodies_scalar(list@),
                0 <= c <= list@.len(),
                row@ + row_text(list@, row_i as int, c as nat, splitter@) == row_text(
                    list@,
                    row_i as int,
                    0,
                    splitter@,
                ),
            decreases list.len() - c,
        {
            let col = &list[c];
            if row_i < col.body.len() {
                let ghost before = row@;
                assert(list@[c as int].body@[row_i as int].is_scalar());
                let cell = &col.body[row_i];
                let s = match cell {
                    Json::Str(s) => s.clone(),
                    _ => scalar_to_string(cell),
                };
                push_all(&mut row, &to_chars(s.as_str()));
                if c + 1 != list.len() {
                    push_all(&mut row, &to_chars(splitter));
                }
                let ghost sep = if c + 1 != list@.len() {
                    splitter@
                } else {
                    Seq::<char>::empty()
                };
                assert(row@ =~= before + plain_text(list@[c as int].body@[row_i as int].model()) + sep);
                assert(row@ + row_text(list@, row_i as int, (c + 1) as nat, splitter@) =~= before + (
                plain_text(list@[c as int].body@[row_i as int].model()) + sep + row_text(
                    list@,
                    row_i as int,
                    (c + 1) as nat,
                    splitter@,
                )));
            }
            c = c + 1;
        }
        assert(row@ + Seq::<char>::empty() =~= row@);
        result.push(Json::Str(from_chars(&row)));
        row_i = row_i + 1;
    }
    (result, Vec::new())
}

// ---------------------------------------------------------------------------
// Sheet results
// ---------------------------------------------------------------------------

/// What became of one sheet: its names, warnings, and, once finished, where
/// and how it is written and its rows.
pub struct SheetResult {
    pub excel_name: String,
    pub name: String,
    pub kind: ContentKinds,
    pub warnings: Vec<String>,
    pub full_name_raw: String,
    pub full_name: String,
    pub output_path: String,
    pub output_path_string: String,
    pub is_finished: bool,
    pub attr_strings: Vec<String>,
    pub var_strings: Vec<String>,
    pub rows: Vec<Json>,
    pub meta: Vec<String>,
}

fn join3(a: &str, b: &str, c: &str) -> (r: String)
    ensures
        r@ == a@ + b@ + c@,
{
    let x = concat_str(a, b);
    concat_str(x.as_str(), c)
}

impl SheetResult {
    /// A new, unfinished result for sheet `sheet_name` (written name) of
    /// workbook `excel_name`, whose name in the workbook is `sheet_name_raw`.
    pub fn new(excel_name: &str, sheet_name: &str, sheet_name_raw: &str) -> (r: SheetResult)
        ensures
            r.excel_name@ == excel_name@,
            r.name@ == sheet_name@,
            r.kind == ContentKinds::Json,
            r.warnings@.len() == 0,
            r.full_name_raw@ == excel_name@ + "/"@ + sheet_name_raw@,
            r.full_name@ == excel_name@ + "/"@ + sheet_name@,
            r.output_path@.len() == 0,
            r.output_path_string@.len() == 0,
            !r.is_finished,
            r.attr_strings@.len() == 0,
            r.var_strings@.len() == 0,
            r.rows@.len() == 0,
            r.meta@.len() == 0,
    {
        SheetResult {
            excel_name: String::from_str(excel_name),
            name: String::from_str(sheet_name),
            kind: ContentKinds::Json,
            warnings: Vec::new(),
            full_name_raw: join3(excel_name, "/", sheet_name_raw),
            full_name: join3(excel_name, "/", sheet_name),
            output_path: String::new(),
            output_path_string: String::new(),
            is_finished: false,
            attr_strings: Vec::new(),
            var_strings: Vec::new(),
            rows: Vec::new(),
            meta: Vec::new(),
        }
    }

    /// Moves the rows of `other` to the end of these rows.
    pub fn merge_from(&mut self, other: &mut SheetResult)
        ensures
            *final(self) == (SheetResult { rows: final(self).rows, ..*old(self) }),
            final(self).rows@ == old(self).rows@ + old(other).rows@,
            *final(other) == (SheetResult { rows: final(other).rows, ..*old(other) }),
            final(other).rows@.len() == 0,
    {
        self.rows.append(&mut other.rows);
    }

    /// Adds the warning `FULL_NAME: info`.
    pub fn warn(&mut self, info: String)
        ensures
            *final(self) == (SheetResult { warnings: final(self).warnings, ..*old(self) }),
            texts(final(self).warnings@) == texts(old(self).warnings@).push(
                old(self).full_name@ + ": "@ + info@,
            ),
    {
        let w = join3(self.full_name.as_str(), ": ", info.as_str());
        let ghost before = self.warnings@;
        self.warnings.push(w);
        assert(texts(self.warnings@) =~= texts(before).push(old(self).full_name@ + ": "@ + info@));
    }

    /// Adds the warning `[row] info`.
    pub fn warn_row(&mut self, row: usize, info: String)
        ensures
            *final(self) == (SheetResult { warnings: final(self).warnings, ..*old(self) }),
            texts(final(self).warnings@) == texts(old(self).warnings@).push(
                "["@ + int_decimal(row as int) + "] "@ + info@,
            ),
    {
        let n = u64_to_decimal(row as u64);
        let w = join3("[", n.as_str(), "] ");
        let w = concat_str(w.as_str(), info.as_str());
        let ghost before = self.warnings@;
        self.warnings.push(w);
        assert(texts(self.warnings@) =~= texts(before).push(
            "["@ + int_decimal(row as int) + "] "@ + info@,
        ));
    }

    /// Adds the warning `[COL:row]「  cell  」info` for column `col` (1-based).
    pub fn warn_cell(&mut self, row: usize, col: usize, cell: String, info: String)
        ensures
            *final(self) == (SheetResult { warnings: final(self).warnings, ..*old(self) }),
            texts(final(self).warnings@) == texts(old(self).warnings@).push(
                "["@ + col_name(col as nat) + ":"@ + int_decimal(row as int) + "]「  "@ + cell@
                    + "  」"@ + info@,
            ),
    {
        let c = num_to_col(col);
        let n = u64_to_decimal(row as u64);
        let a = join3("[", c.as_str(), ":");
        let b = join3(a.as_str(), n.as_str(), "]「  ");
        let d = join3(b.as_str(), cell.as_str(), "  」");
        let w = concat_str(d.as_str(), info.as_str());
        let ghost before = self.warnings@;
        self.warnings.push(w);
        assert(texts(self.warnings@) =~= texts(before).push(
            "["@ + col_name(col as nat) + ":"@ + int_decimal(row as int) + "]「  "@ + cell@ + "  」"@
                + info@,
        ));
    }

    /// Marks the sheet finished with its kind, output path, header strings,
    /// rows and meta lines.
    pub fn finish_sheet(
        &mut self,
        kind: ContentKinds,
        output_path: String,
        var_strings: Vec<String>,
        attr_strings: Vec<String>,
        body: Vec<Json>,
        meta: Vec<String>,
    )
        ensures
            *final(self) == (SheetResult {
                is_finished: true,
                kind: kind,
                output_path: output_path,
                output_path_string: output_path,
                attr_strings: attr_strings,
                var_strings: var_strings,
                rows: body,
                meta: meta,
                ..*old(self)
            }),
    {
        self.is_finished = true;
        self.kind = kind;
        self.output_path_string = output_path.clone();
        self.output_path = output_path;
        self.attr_strings = attr_strings;
        self.var_strings = var_strings;
        self.rows = body;
        self.meta = meta;
    }
}

// ---------------------------------------------------------------------------
// Reading a workbook
// ---------------------------------------------------------------------------

/// The whitelist mark.
pub open spec fn whitelisted(s: Seq<char>) -> bool {
    s == "*"@
}

/// Names and cells starting with `#` or `~` are left out.
pub open spec fn blacklisted(s: Seq<char>) -> bool {
    s.len() > 0 && (s[0] == '#' || s[0] == '~')
}

/// Whether `s` is the whitelist mark.
pub fn is_in_whitelist(s: &str) -> (r: bool)
    ensures
        r == whitelisted(s@),
{
    str_eq(s, "*")
}

/// Whether `s` starts with `#` or `~`.
pub fn is_in_blacklist(s: &str) -> (r: bool)
    ensures
        r == blacklisted(s@),
{
    let c = to_chars(s);
    c.len() > 0 && (c[0] == '#' || c[0] == '~')
}

/// Whether a file in the input directory is a workbook to read: its name
/// is not blacklisted and ends in `.xlsx`.
pub open spec fn spec_is_input_workbook(name: Seq<char>) -> bool {
    !blacklisted(name) && name.len() >= 5 && name.skip(name.len() - 5) == ".xlsx"@
}

/// Whether a file in the input directory is a workbook to read (see
/// [`spec_is_input_workbook`]).
pub fn is_input_workbook(name: &str) -> (r: bool)
    ensures
        r == spec_is_input_workbook(name@),
{
    let c = to_chars(name);
    let suffix = to_chars(".xlsx");
    proof {
        reveal_strlit(".xlsx");
    }
    if is_in_blacklist(name) || c.len() < 5 {
        return false;
    }
    let start = c.len() - 5;
    let mut i: usize = 0;
    while i < 5
        invariant
            0 <= i <= 5,
            c@ == name@,
            suffix@ == ".xlsx"@,
            suffix@.len() == 5,
            start + 5 == c@.len(),
            start + 5 == c.len(),
            c@.len() >= 5,
            forall|k: int| 0 <= k < i ==> #[trigger] c@[start + k] == suffix@[k],
        decreases 5 - i,
    {
        if c[start + i] != suffix[i] {
            assert(c@.skip(start as int)[i as int] != ".xlsx"@[i as int]);
            return false;
        }
        i = i + 1;
    }
    assert forall|k: int| 0 <= k < 5 implies #[trigger] c@.skip(start as int)[k] == ".xlsx"@[k] by {
        assert(c@[start + k] == suffix@[k]);
    }
    assert(c@.skip(start as int) =~= ".xlsx"@);
    true
}

/// First position from `i` on where `p` occurs in `s` (std `str::find`).
pub open spec fn find_sub_from(s: Seq<char>, p: Seq<char>, i: nat) -> Option<nat>
    decreases s.len() + 1 - i,
{
    if i > s.len() {
        None
    } else if has_prefix(s.skip(i as int), p) {
        Some(i)
    } else {
        find_sub_from(s, p, i + 1)
    }
}

/// `s` up to the first occurrence of `after`, or all of `s`.
pub open spec fn spec_remove_after(s: Seq<char>, after: Seq<char>) -> Seq<char> {
    match find_sub_from(s, after, 0) {
        Some(pos) => s.take(pos as int),
        None => s,
    }
}

/// `s` up to the first occurrence of `after` (all of `s` when there is none).
pub fn remove_after(s: &str, after: &str) -> (r: String)
    ensures
        r@ == spec_remove_after(s@, after@),
{
    let cs = to_chars(s);
    let pat = to_chars(after);
    let mut i: usize = 0;
    while i < cs.len()
        invariant
            0 <= i <= cs@.len(),
            cs@ == s@,
            pat@ == after@,
            find_sub_from(s@, after@, 0) == find_sub_from(s@, after@, i as nat),
        decreases cs@.len() - i,
    {
        if matches_at(&cs, i, &pat) {
            let head = sub_chars(&cs, 0, i);
            return from_chars(&head);
        }
        i = i + 1;
    }
    if matches_at(&cs, i, &pat) {
        let head = sub_chars(&cs, 0, i);
        return from_chars(&head);
    }
    assert(find_sub_from(s@, after@, (cs@.len() + 1) as nat) is None);
    String::from_str(s)
}

/// Whether a row or header cell is taken: not blacklisted, and the
/// whitelist mark when whitelist mode is on.
pub open spec fn cell_ok(whitelist_mode: bool, s: Seq<char>) -> bool {
    !blacklisted(s) && !(whitelist_mode && !whitelisted(s))
}

fn is_cell_ok(cfg: &Config, s: &str) -> (r: bool)
    ensures
        r == cell_ok(cfg.is_whitelist_mode, s@),
{
    if is_in_blacklist(s) {
        return false;
    }
    if cfg.is_whitelist_mode && !is_in_whitelist(s) {
        return false;
    }
    true
}

/// The texts of a table's rows.
pub open spec fn table_texts(rows: Seq<Vec<String>>) -> Seq<Seq<Seq<char>>> {
    Seq::new(rows.len(), |i: int| texts(rows[i]@))
}

/// The widest row.
pub open spec fn max_width(rows: Seq<Seq<Seq<char>>>) -> nat
    decreases rows.len(),
{
    if rows.len() == 0 {
        0
    } else {
        let m = max_width(rows.drop_last());
        if rows.last().len() > m {
            rows.last().len()
        } else {
            m
        }
    }
}

proof fn lemma_max_width(rows: Seq<Seq<Seq<char>>>)
    ensures
        forall|i: int| 0 <= i < rows.len() ==> #[trigger] rows[i].len() <= max_width(rows),
    decreases rows.len(),
{
    if rows.len() > 0 {
        lemma_max_width(rows.drop_last());
        assert forall|i: int| 0 <= i < rows.len() implies #[trigger] rows[i].len() <= max_width(rows) by {
            if i < rows.len() - 1 {
                assert(rows.drop_last()[i] == rows[i]);
            }
        }
    }
}

/// The transposed table, short rows padded with empty cells: cell `(c, r)`
/// of the result is cell `(r, c)` of `rows`.
pub open spec fn is_transpose(rows: Seq<Seq<Seq<char>>>, t: Seq<Seq<Seq<char>>>) -> bool {
    &&& t.len() == max_width(rows)
    &&& forall|c: int|
        0 <= c < t.len() ==> {
            &&& (#[trigger] t[c]).len() == rows.len()
            &&& forall|r: int|
                0 <= r < rows.len() ==> #[trigger] t[c][r] == (if c < rows[r].len() {
                    rows[r][c]
                } else {
                    Seq::<char>::empty()
                })
        }
}

/// Whether every row of a table has `w` cells.
pub open spec fn is_rectangular(rows: Seq<Seq<Seq<char>>>, w: nat) -> bool {
    forall|r: int| 0 <= r < rows.len() ==> (#[trigger] rows[r]).len() == w
}

proof fn lemma_max_width_rectangular(rows: Seq<Seq<Seq<char>>>, w: nat)
    requires
        is_rectangular(rows, w),
        rows.len() > 0,
    ensures
        max_width(rows) == w,
    decreases rows.len(),
{
    if rows.len() > 1 {
        assert(is_rectangular(rows.drop_last(), w)) by {
            assert forall|r: int| 0 <= r < rows.drop_last().len() implies (#[trigger] rows.drop_last()[r]).len() == w by {
                assert(rows.drop_last()[r] == rows[r]);
            }
        }
        lemma_max_width_rectangular(rows.drop_last(), w);
    } else {
        assert(max_width(rows.drop_last()) == 0);
    }
}

/// Law: transposing a table whose rows all have the same, non-zero number
/// of cells twice gives the table back.
pub proof fn law_transpose_twice(rows: Seq<Seq<Seq<char>>>, t: Seq<Seq<Seq<char>>>, back: Seq<Seq<Seq<char>>>, w: nat)
    requires
        is_rectangular(rows, w),
        w > 0,
        is_transpose(rows, t),
        is_transpose(t, back),
    ensures
        back == rows,
{
    if rows.len() == 0 {
        assert(max_width(rows) == 0);
        assert(back.len() == max_width(t));
        assert(max_width(t) == 0);
        assert(back =~= rows);
    } else {
        lemma_max_width_rectangular(rows, w);
        assert(is_rectangular(t, rows.len())) by {
            assert forall|c: int| 0 <= c < t.len() implies (#[trigger] t[c]).len() == rows.len() by {}
        }
        lemma_max_width_rectangular(t, rows.len());
        assert forall|r: int| 0 <= r < back.len() implies #[trigger] back[r] == rows[r] by {
            assert forall|c: int| 0 <= c < back[r].len() implies #[trigger] back[r][c] == rows[r][c] by {
                assert(t[c][r] == rows[r][c]);
            }
            assert(back[r] =~= rows[r]);
        }
        assert(back =~= rows);
    }
}

/// Transposes a table, padding short rows with empty cells.
pub fn transpose_rows(rows: &Vec<Vec<String>>) -> (r: Vec<Vec<String>>)
    ensures
        is_transpose(table_texts(rows@), table_texts(r@)),
{
    let ghost tt = table_texts(rows@);
    let mut width: usize = 0;
    let mut i: usize = 0;
    assert(tt.take(0) =~= Seq::<Seq<Seq<char>>>::empty());
    while i < rows.len()
        invariant
            0 <= i <= rows@.len(),
            tt == table_texts(rows@),
            width == max_width(tt.take(i as int)),
        decreases rows.len() - i,
    {
        assert(tt.take(i + 1).drop_last() =~= tt.take(i as int));
        assert(tt.take(i + 1).last() == texts(rows@[i as int]@));
        if rows[i].len() > width {
            width = rows[i].len();
        }
        i = i + 1;
    }
    assert(tt.take(rows@.len() as int) =~= tt);
    let mut out: Vec<Vec<String>> = Vec::new();
    let mut c: usize = 0;
    while c < width
        invariant
            0 <= c <= width,
            tt == table_texts(rows@),
            width == max_width(tt),
            out@.len() == c,
            forall|k: int|
                0 <= k < c ==> {
                    &&& (#[trigger] out@[k])@.len() == rows@.len()
                    &&& forall|r: int|
                        0 <= r < rows@.len() ==> #[trigger] out@[k]@[r]@ == (if k < rows@[r]@.len() {
                            rows@[r]@[k]@
                        } else {
                            Seq::<char>::empty()
                        })
                },
        decreases width - c,
    {
        let mut col: Vec<String> = Vec::new();
        let mut r: usize = 0;
        while r < rows.len()
            invariant
                0 <= r <= rows@.len(),
                col@.len() == r,
                forall|q: int|
                    0 <= q < r ==> #[trigger] col@[q]@ == (if c < rows@[q]@.len() {
                        rows@[q]@[c as int]@
                    } else {
                        Seq::<char>::empty()
                    }),
            decreases rows.len() - r,
        {
            if c < rows[r].len() {
                col.push(rows[r][c].clone());
            } else {
                col.push(String::new());
            }
            r = r + 1;
        }
        out.push(col);
        c = c + 1;
    }
    proof {
        let ot = table_texts(out@);
        assert forall|k: int| 0 <= k < ot.len() implies {
            &&& (#[trigger] ot[k]).len() == tt.len()
            &&& forall|r: int|
                0 <= r < tt.len() ==> #[trigger] ot[k][r] == (if k < tt[r].len() {
                    tt[r][k]
                } else {
                    Seq::<char>::empty()
                })
        } by {
            assert forall|r: int| 0 <= r < tt.len() implies #[trigger] ot[k][r] == (if k < tt[r].len() {
                tt[r][k]
            } else {
                Seq::<char>::empty()
            }) by {
                assert(out@[k]@[r]@ == ot[k][r]);
            }
        }
    }
    out
}

/// The transposed table, short rows padded with empty cells.
pub open spec fn transposed_table(rows: Seq<Seq<Seq<char>>>) -> Seq<Seq<Seq<char>>> {
    Seq::new(
        max_width(rows),
        |c: int|
            Seq::new(
                rows.len(),
                |r: int|
                    if c < rows[r].len() {
                        rows[r][c]
                    } else {
                        Seq::<char>::empty()
                    },
            ),
    )
}

proof fn lemma_transpose_is(rows: Seq<Seq<Seq<char>>>, t: Seq<Seq<Seq<char>>>)
    requires
        is_transpose(rows, t),
    ensures
        t == transposed_table(rows),
{
    let tt = transposed_table(rows);
    assert forall|c: int| 0 <= c < t.len() implies #[trigger] t[c] == tt[c] by {
        assert(t[c] =~= tt[c]);
    }
    assert(t =~= tt);
}

/// Whether a sheet has no first cell.
pub open spec fn sheet_blank(rows: Seq<Seq<Seq<char>>>) -> bool {
    rows.len() == 0 || rows[0].len() == 0
}

/// The rows a sheet is read as: transposed when its first cell is the
/// transpose mark.
pub open spec fn read_rows(cfg: Config, rows: Seq<Seq<Seq<char>>>) -> Seq<Seq<Seq<char>>> {
    if !sheet_blank(rows) && rows[0][0] == cfg.row_transpose_mark@ {
        transposed_table(rows)
    } else {
        rows
    }
}

/// The row whose first cell is `mark`, or no cells.
pub open spec fn marked_row(all: Seq<Seq<Seq<char>>>, mark: Seq<char>) -> Seq<Seq<char>> {
    match head_row(all, mark) {
        Some(i) => all[i as int],
        None => Seq::empty(),
    }
}

/// Whether a sheet is read as a table: it has a first cell and a `##var` row.
pub open spec fn has_table(cfg: Config, sheet: SheetContent) -> bool {
    let rows = table_texts(sheet.rows@);
    !sheet_blank(rows) && head_row(read_rows(cfg, rows), cfg.row_var_mark@) is Some
}

/// Whether `d` holds the default attributes: all texts empty, the type
/// unknown, nothing ignored, no cut.
pub open spec fn is_default_attr(d: TheadAttr) -> bool {
    &&& d.raw@.len() == 0
    &&& d.cell_type_raw@.len() == 0
    &&& d.cell_type == CellTypes::Unknown
    &&& d.cell_enum_type@.len() == 0
    &&& text_view(d) == default_text_view()
    &&& d.ignore is None
}

/// What reading a kept sheet gives: its names; for a sheet without a first
/// cell, an unfinished result without warnings; for one without a `##var`
/// row, an unfinished result with that warning; else a finished result
/// with its output path and kind, the taken cells of its `##var` and
/// `##attr` rows, and the rows and meta lines that its table of columns
/// (see [`table_after`]) is written as.
pub open spec fn sheet_read<F: Fn(&str) -> Option<Json>>(
    cfg: Config,
    excel_name: Seq<char>,
    base_path: Seq<char>,
    enums: Map<Seq<char>, StrMap<i64>>,
    encode_map: Map<Seq<char>, String>,
    parse_float: F,
    sheet: SheetContent,
    rep: SheetResult,
) -> bool {
    let raw = sheet.name@;
    let name = write_name(raw);
    let rows = table_texts(sheet.rows@);
    let all = read_rows(cfg, rows);
    &&& rep.excel_name@ == excel_name
    &&& rep.name@ == name
    &&& rep.full_name_raw@ == excel_name + "/"@ + raw
    &&& rep.full_name@ == excel_name + "/"@ + name
    &&& if sheet_blank(rows) {
        !rep.is_finished && rep.warnings@.len() == 0
    } else if !has_table(cfg, sheet) {
        !rep.is_finished && texts(rep.warnings@) == seq![rep.full_name@ + ": "@ + "未找到 var 行"@]
    } else {
        &&& rep.is_finished
        &&& (rep.output_path@, rep.kind) == spec_output(base_path, cfg, name)
        &&& texts(rep.var_strings@) == ok_strings(
            cfg.is_whitelist_mode,
            marked_row(all, cfg.row_var_mark@),
        )
        &&& texts(rep.attr_strings@) == ok_strings(
            cfg.is_whitelist_mode,
            marked_row(all, cfg.row_attr_mark@),
        )
        &&& exists|globals: Seq<(String, TheadAttr)>, d: TheadAttr, t: Seq<SheetColumn>, v: Seq<bool>|
            globals_of(globals, cfg, d, enums) && is_default_attr(d) && #[trigger] table_after(
                cfg,
                all,
                globals,
                d,
                enums,
                encode_map,
                parse_float,
                all.len(),
                t,
                v,
            ) && table_output(rep.kind, t, rep.rows@, rep.meta@)
    }
}

/// Index of the first row whose first cell is `mark`.
pub open spec fn head_row(rows: Seq<Seq<Seq<char>>>, mark: Seq<char>) -> Option<nat>
    decreases rows.len(),
{
    if rows.len() == 0 {
        None
    } else if rows[0].len() > 0 && rows[0][0] == mark {
        Some(0)
    } else {
        match head_row(rows.drop_first(), mark) {
            Some(i) => Some(i + 1),
            None => None,
        }
    }
}

fn find_head_row(rows: &Vec<Vec<String>>, mark: &String) -> (r: Option<usize>)
    ensures
        r matches Some(j) ==> head_row(table_texts(rows@), mark@) == Some(j as nat) && j < rows@.len(),
        r is None ==> head_row(table_texts(rows@), mark@) is None,
{
    let ghost tt = table_texts(rows@);
    let mut i: usize = 0;
    assert(tt.skip(0) =~= tt);
    while i < rows.len()
        invariant
            0 <= i <= rows@.len(),
            tt == table_texts(rows@),
            match head_row(tt, mark@) {
                Some(k) => k >= i && head_row(tt.skip(i as int), mark@) == Some((k - i) as nat),
                None => head_row(tt.skip(i as int), mark@) is None,
            },
        decreases rows.len() - i,
    {
        assert(tt.skip(i as int)[0] == texts(rows@[i as int]@));
        assert(tt.skip(i as int).drop_first() =~= tt.skip(i + 1));
        if rows[i].len() > 0 && rows[i][0] == *mark {
            return Some(i);
        }
        i = i + 1;
    }
    assert(tt.skip(i as int) =~= Seq::<Seq<Seq<char>>>::empty());
    None
}

/// The regular-expression test of the regex crate: whether `pattern`
/// matches somewhere in `text`, `None` when `pattern` does not compile.
pub uninterp spec fn spec_regex_match(pattern: Seq<char>, text: Seq<char>) -> Option<bool>;

/// Calls the regex crate: compiles `pattern` and tests it on `text`.
#[verifier::external_body]
pub(crate) fn regex_is_match(pattern: &str, text: &str) -> (r: Option<bool>)
    ensures
        r == spec_regex_match(pattern@, text@),
{
    regex::Regex::new(pattern).ok().map(|re| re.is_match(text))
}

/// Index of the first pattern of `globals` that compiles and matches `key`.
pub open spec fn global_attr_index(globals: Seq<(String, TheadAttr)>, key: Seq<char>) -> Option<nat>
    decreases globals.len(),
{
    if globals.len() == 0 {
        None
    } else if spec_regex_match(globals[0].0@, key) == Some(true) {
        Some(0)
    } else {
        match global_attr_index(globals.drop_first(), key) {
            Some(i) => Some(i + 1),
            None => None,
        }
    }
}

proof fn lemma_global_attr_index(globals: Seq<(String, TheadAttr)>, key: Seq<char>)
    ensures
        global_attr_index(globals, key) matches Some(i) ==> i < globals.len(),
    decreases globals.len(),
{
    if globals.len() > 0 {
        lemma_global_attr_index(globals.drop_first(), key);
    }
}

fn find_global_attr(globals: &Vec<(String, TheadAttr)>, key: &str) -> (r: Option<usize>)
    ensures
        r matches Some(j) ==> global_attr_index(globals@, key@) == Some(j as nat),
        r is None ==> global_attr_index(globals@, key@) is None,
{
    let mut i: usize = 0;
    assert(globals@.skip(0) =~= globals@);
    while i < globals.len()
        invariant
            0 <= i <= globals@.len(),
            match global_attr_index(globals@, key@) {
                Some(k) => k >= i && global_attr_index(globals@.skip(i as int), key@) == Some(
                    (k - i) as nat,
                ),
                None => global_attr_index(globals@.skip(i as int), key@) is None,
            },
        decreases globals.len() - i,
    {
        assert(globals@.skip(i as int)[0] == globals@[i as int]);
        assert(globals@.skip(i as int).drop_first() =~= globals@.skip(i + 1));
        match regex_is_match(globals[i].0.as_str(), key) {
            Some(true) => return Some(i),
            _ => {},
        }
        i = i + 1;
    }
    assert(globals@.skip(i as int) =~= Seq::<(String, TheadAttr)>::empty());
    None
}

/// The key-case converter of a sub-key: its entry in the global table, or
/// the global key case.
pub open spec fn key_case_for(cfg: Config, sub: Seq<char>) -> Seq<char> {
    if cfg.global_key_case@.contains_key(sub) {
        cfg.global_key_case@[sub]@
    } else {
        cfg.key_case@
    }
}

/// Whether token `t` makes an automatic index (`[]`, or a bracket that
/// does not hold a number).
pub open spec fn token_auto(t: KeyToken) -> bool {
    match t {
        KeyToken::Auto => true,
        KeyToken::Index(v) => v < 0,
        KeyToken::Name(_) => false,
    }
}

/// Whether token `i` is the last automatic index of `toks`.
pub open spec fn last_auto_token(toks: Seq<KeyToken>, i: int) -> bool {
    token_auto(toks[i]) && forall|j: int| i < j < toks.len() ==> !#[trigger] token_auto(toks[j])
}

/// The part that token `t` of a header key becomes before its automatic
/// index is filled, its name converted with the key case for it.
pub open spec fn key_part(cfg: Config, t: KeyToken, p: FlattenPart) -> bool {
    match t {
        KeyToken::Auto => p.name@.len() == 0 && p.index == Some(-1i32),
        KeyToken::Index(v) => p.name@ == int_decimal(v) && p.index == Some(v as i32),
        KeyToken::Name(n) => p.index is None && p.name@ == crate::cell_helper::spec_str_converter(
            key_case_for(cfg, n),
            n,
        ),
    }
}

/// Whether `key` is the header key `raw` read: one part per token, names
/// converted with their key case; where `raw` is not empty, the last
/// automatic index takes `counter` and every earlier one 0.  A key with a
/// `[` that is never closed is the empty key.
pub open spec fn key_read(cfg: Config, raw: Seq<char>, counter: usize, key: FlattenKey) -> bool {
    match scan_key_from(raw, 0) {
        KeyScan::Tokens(toks) => {
            &&& key.raw@ == raw
            &&& key.parts@.len() == toks.len()
            &&& forall|i: int|
                0 <= i < toks.len() ==> {
                    let p = #[trigger] key.parts@[i];
                    if token_auto(toks[i]) && raw.len() > 0 {
                        &&& p.name@ == match toks[i] {
                            KeyToken::Index(v) => int_decimal(v),
                            _ => Seq::<char>::empty(),
                        }
                        &&& p.index == Some(
                            if last_auto_token(toks, i) {
                                counter as i32
                            } else {
                                0i32
                            },
                        )
                    } else {
                        key_part(cfg, toks[i], p)
                    }
                }
        },
        _ => key.raw@.len() == 0 && key.parts@.len() == 0,
    }
}

/// How many used header columns before `j` have the same key as column `i`.
pub open spec fn same_keys_before(wl: bool, fr: Seq<Seq<char>>, ks: Seq<Seq<char>>, i: int, j: int) -> nat
    decreases j,
{
    if j <= 0 {
        0
    } else {
        same_keys_before(wl, fr, ks, i, j - 1) + if key_ok(wl, fr, ks, j - 1) && ks[j - 1] == ks[i] {
            1nat
        } else {
            0nat
        }
    }
}

/// Whether every index token of `toks` is -1 or a number that fits `i32`.
pub open spec fn indexes_fit(toks: Seq<KeyToken>) -> bool {
    forall|i: int| 0 <= i < toks.len() ==> (#[trigger] toks[i] matches KeyToken::Index(v) ==> -1 <= v <= i32::MAX)
}

proof fn lemma_bracket_value(seg: Seq<char>, acc: int)
    requires
        0 <= acc <= i32::MAX,
    ensures
        bracket_value(seg, acc) matches Some(v) ==> -1 <= v <= i32::MAX,
    decreases seg.len(),
{
    if seg.len() > 0 && '0' <= seg[0] && seg[0] <= '9' {
        let v = acc * 10 + (seg[0] as int - '0' as int);
        if v <= i32::MAX {
            lemma_bracket_value(seg.drop_first(), v);
        }
    }
}

proof fn lemma_scan_indexes(s: Seq<char>, pos: nat)
    ensures
        scan_key_from(s, pos) matches KeyScan::Tokens(toks) ==> indexes_fit(toks),
    decreases s.len() - pos,
{
    if pos < s.len() {
        if s[pos as int] == '[' {
            let c = find_from(s, ']', pos);
            lemma_find_from(s, ']', pos);
            if c < s.len() {
                lemma_scan_indexes(s, skip_dot(s, c + 1));
                if c >= pos + 2 {
                    lemma_bracket_value(s.subrange(pos as int + 1, c as int), 0);
                }
                if let KeyScan::Tokens(t) = scan_key_from(s, skip_dot(s, c + 1)) {
                    if let KeyScan::Tokens(toks) = scan_key_from(s, pos) {
                        assert forall|i: int| 0 <= i < toks.len() implies (#[trigger] toks[i] matches KeyToken::Index(
                            v,
                        ) ==> -1 <= v <= i32::MAX) by {
                            if i > 0 {
                                assert(toks[i] == t[i - 1]);
                            }
                        }
                    }
                }
            }
        } else {
            let seg_end = find_from(s, '.', pos);
            let br = find_from(s, '[', pos);
            lemma_find_from(s, '.', pos);
            lemma_find_from(s, '[', pos);
            let name_end = if br < seg_end {
                br
            } else {
                seg_end
            };
            lemma_scan_indexes(s, skip_dot(s, name_end));
            if let KeyScan::Tokens(t) = scan_key_from(s, skip_dot(s, name_end)) {
                if let KeyScan::Tokens(toks) = scan_key_from(s, pos) {
                    assert forall|i: int| 0 <= i < toks.len() implies (#[trigger] toks[i] matches KeyToken::Index(
                        v,
                    ) ==> -1 <= v <= i32::MAX) by {
                        if i > 0 {
                            assert(toks[i] == t[i - 1]);
                        }
                    }
                }
            }
        }
    }
}

/// Whether header key `raw` is read with an automatic index to fill: it is
/// not empty and one of its tokens is an automatic index.
pub open spec fn key_has_auto(raw: Seq<char>) -> bool {
    &&& raw.len() > 0
    &&& scan_key_from(raw, 0) matches KeyScan::Tokens(toks) && exists|i: int|
        0 <= i < toks.len() && #[trigger] token_auto(toks[i])
}

proof fn lemma_parts_read<F: Fn(&str) -> String>(
    cfg: Config,
    f: F,
    toks: Seq<KeyToken>,
    parts: Seq<FlattenPart>,
)
    requires
        parts_from_tokens(f, toks, parts),
        indexes_fit(toks),
        forall|x: &str, r: String|
            call_ensures(f, (x,), r) ==> r@ == crate::cell_helper::spec_str_converter(key_case_for(cfg, x@), x@),
    ensures
        forall|i: int| 0 <= i < toks.len() ==> key_part(cfg, toks[i], #[trigger] parts[i]),
        forall|i: int| 0 <= i < toks.len() ==> is_auto(#[trigger] parts[i]) == token_auto(toks[i]),
{
    assert forall|i: int| 0 <= i < toks.len() implies key_part(cfg, toks[i], #[trigger] parts[i]) && (is_auto(
        parts[i],
    ) == token_auto(toks[i])) by {
        assert(part_from_token(f, toks[i], parts[i]));
        assert(toks[i] matches KeyToken::Index(v) ==> -1 <= v <= i32::MAX);
        if let KeyToken::Name(n) = toks[i] {
            let x = choose|x: &str| x@ == n && call_ensures(f, (x,), parts[i].name);
            assert(call_ensures(f, (x,), parts[i].name));
        }
    }
}

proof fn lemma_count_auto(parts: Seq<FlattenPart>)
    ensures
        (count_auto(parts) > 0) == (exists|i: int| 0 <= i < parts.len() && #[trigger] is_auto(parts[i])),
    decreases parts.len(),
{
    if parts.len() > 0 {
        lemma_count_auto(parts.drop_last());
        if exists|i: int| 0 <= i < parts.len() && #[trigger] is_auto(parts[i]) {
            let i = choose|i: int| 0 <= i < parts.len() && #[trigger] is_auto(parts[i]);
            if i < parts.len() - 1 {
                assert(is_auto(parts.drop_last()[i]));
            }
        }
        if exists|i: int| 0 <= i < parts.drop_last().len() && #[trigger] is_auto(parts.drop_last()[i]) {
            let i = choose|i: int| 0 <= i < parts.drop_last().len() && #[trigger] is_auto(parts.drop_last()[i]);
            assert(is_auto(parts[i]));
        }
    }
}

proof fn lemma_same_keys_before(wl: bool, fr: Seq<Seq<char>>, ks: Seq<Seq<char>>, i: int, i2: int, j: int)
    requires
        0 <= i < ks.len(),
        0 <= i2 < ks.len(),
        ks[i] == ks[i2],
    ensures
        same_keys_before(wl, fr, ks, i, j) == same_keys_before(wl, fr, ks, i2, j),
    decreases j,
{
    if j > 0 {
        lemma_same_keys_before(wl, fr, ks, i, i2, j - 1);
    }
}

/// Whether column `i` of the header is used: its first-row cell and its key
/// are taken, and the key is not empty.
pub open spec fn key_ok(wl: bool, first_row: Seq<Seq<char>>, keys: Seq<Seq<char>>, i: int) -> bool {
    &&& i < first_row.len() && cell_ok(wl, first_row[i])
    &&& keys[i].len() > 0 && cell_ok(wl, keys[i])
}

/// The used header columns from `i` on.
pub open spec fn ok_keys(wl: bool, first_row: Seq<Seq<char>>, keys: Seq<Seq<char>>, i: nat) -> Seq<nat>
    decreases keys.len() - i,
{
    if i >= keys.len() {
        seq![]
    } else if key_ok(wl, first_row, keys, i as int) {
        seq![i] + ok_keys(wl, first_row, keys, i + 1)
    } else {
        ok_keys(wl, first_row, keys, i + 1)
    }
}

/// The global attribute table: each pattern of `global_attr_by_key` with its
/// attribute text read over the default attributes.
pub fn global_attrs(cfg: &Config, default_attr: &TheadAttr, enums: &StrMap<StrMap<i64>>) -> (r: Vec<
    (String, TheadAttr),
>)
    ensures
        r@.len() == cfg.global_attr_by_key.pairs().len(),
        forall|i: int|
            0 <= i < r@.len() ==> (#[trigger] r@[i]).0@ == cfg.global_attr_by_key.pairs()[i].0
                && parsed_attr(r@[i].1, cfg.global_attr_by_key.pairs()[i].1@, *default_attr, enums@),
{
    let mut out: Vec<(String, TheadAttr)> = Vec::new();
    let mut i: usize = 0;
    while i < cfg.global_attr_by_key.len()
        invariant
            0 <= i <= cfg.global_attr_by_key.pairs().len(),
            out@.len() == i,
            forall|k: int|
                0 <= k < i ==> (#[trigger] out@[k]).0@ == cfg.global_attr_by_key.pairs()[k].0
                    && parsed_attr(
                    out@[k].1,
                    cfg.global_attr_by_key.pairs()[k].1@,
                    *default_attr,
                    enums@,
                ),
        decreases cfg.global_attr_by_key.pairs().len() - i,
    {
        let k = cfg.global_attr_by_key.key_at(i).clone();
        let v = cfg.global_attr_by_key.value_at(i);
        let a = parse_attr(v.as_str(), default_attr, enums);
        out.push((k, a));
        i = i + 1;
    }
    out
}

/// The attribute text of header column `i`: the `##attr` cell, or empty.
pub open spec fn attr_text_at(attrs: Seq<Seq<char>>, i: int) -> Seq<char> {
    if 0 <= i < attrs.len() {
        attrs[i]
    } else {
        Seq::empty()
    }
}

/// Whether `c` is the column made for header column `i`: empty, with the
/// attributes that its `##attr` text gives over the matching global
/// attributes (or the defaults).
pub open spec fn new_column_for(
    c: SheetColumn,
    i: nat,
    keys: Seq<Seq<char>>,
    attrs: Seq<Seq<char>>,
    globals: Seq<(String, TheadAttr)>,
    default_attr: TheadAttr,
    enums: Map<Seq<char>, StrMap<i64>>,
) -> bool {
    &&& c.column == i
    &&& c.body@.len() == 0
    &&& c.meta@.len() == 0
    &&& parsed_attr(
        c.attr,
        attr_text_at(attrs, i as int),
        match global_attr_index(globals, keys[i as int]) {
            Some(g) => globals[g as int].1,
            None => default_attr,
        },
        enums,
    )
}

/// The warning for a key with several automatic indexes.
pub open spec fn auto_index_warning(key: Seq<char>, n: nat) -> Seq<char> {
    "`"@ + key + "` 有"@ + int_decimal(n as int) + "个自动索引, 但只有最后一个会被识别, 请明确指定索引值"@
}

/// Whether header column `i` is used but its key has a bracket whose number
/// cannot be read.
pub open spec fn key_unreadable(wl: bool, first_row: Seq<Seq<char>>, keys: Seq<Seq<char>>, i: int) -> bool {
    key_ok(wl, first_row, keys, i) && scan_key_from(keys[i], 0) is Panic
}

/// The attributes that decide the text of a cell: cut, default, conversion,
/// prefix, suffix and encoding.
pub open spec fn text_view(a: TheadAttr) -> (nat, Seq<char>, Seq<char>, Seq<char>, Seq<char>, Seq<char>) {
    (a.cut as nat, a.cell_default@, a.conv@, a.prefix@, a.suffix@, a.encode@)
}

/// The [`text_view`] of the default attributes.
pub open spec fn default_text_view() -> (nat, Seq<char>, Seq<char>, Seq<char>, Seq<char>, Seq<char>) {
    (0, Seq::empty(), Seq::empty(), Seq::empty(), Seq::empty(), Seq::empty())
}

/// The [`text_view`] of the attributes that reading the attribute text
/// `text` over attributes with view `d` gives (see `parsed_attr`).
pub open spec fn parsed_text_view(
    text: Seq<char>,
    d: (nat, Seq<char>, Seq<char>, Seq<char>, Seq<char>, Seq<char>),
) -> (nat, Seq<char>, Seq<char>, Seq<char>, Seq<char>, Seq<char>) {
    let ps = spec_urlencoded_pairs(text);
    (
        match last_value(ps, "cut"@) {
            Some(v) => match spec_parse_usize(v) {
                Some(n) => n as nat,
                None => 0,
            },
            None => d.0,
        },
        attr_or(ps, "default"@, d.1),
        attr_or(ps, "conv"@, d.2),
        attr_or(ps, "prefix"@, d.3),
        attr_or(ps, "suffix"@, d.4),
        attr_or(ps, "encode"@, d.5),
    )
}

/// Whether a cell `cell` of a column whose attributes have the view `v`
/// has a cut that splits a character (see `cut_ok`).
pub open spec fn view_cut_fails(
    v: (nat, Seq<char>, Seq<char>, Seq<char>, Seq<char>, Seq<char>),
    encode_map: Map<Seq<char>, String>,
    cell: Seq<char>,
) -> bool {
    let content = if cell.len() == 0 {
        v.1
    } else {
        cell
    };
    let converted = spec_str_converter(v.2, v.3 + content + v.4);
    let s = if v.5 == "custom"@ && encode_map.contains_key(converted) {
        encode_map[converted]@
    } else {
        converted
    };
    v.0 != 0 && !is_char_boundary(encode_utf8(s), v.0 as int)
}

/// Index of the first global attribute pattern that compiles and matches
/// `key`.
pub open spec fn global_pair_index(pairs: Seq<(Seq<char>, String)>, key: Seq<char>) -> Option<nat>
    decreases pairs.len(),
{
    if pairs.len() == 0 {
        None
    } else if spec_regex_match(pairs[0].0, key) == Some(true) {
        Some(0)
    } else {
        match global_pair_index(pairs.drop_first(), key) {
            Some(i) => Some(i + 1),
            None => None,
        }
    }
}

/// The [`text_view`] of the attributes of header column `c`: its `##attr`
/// text over the first matching global attributes (or the defaults).
pub open spec fn column_view(
    cfg: Config,
    keys: Seq<Seq<char>>,
    attrs: Seq<Seq<char>>,
    c: int,
) -> (nat, Seq<char>, Seq<char>, Seq<char>, Seq<char>, Seq<char>) {
    let pairs = cfg.global_attr_by_key.pairs();
    let base = match global_pair_index(pairs, keys[c]) {
        Some(g) => parsed_text_view(pairs[g as int].1@, default_text_view()),
        None => default_text_view(),
    };
    parsed_text_view(attr_text_at(attrs, c), base)
}

/// Whether row `r` of a table is a data row: its first cell is taken.
pub open spec fn data_row(wl: bool, all: Seq<Seq<Seq<char>>>, r: int) -> bool {
    0 <= r < all.len() && all[r].len() > 0 && cell_ok(wl, all[r][0])
}

/// Whether the cell in column `c` of data row `r` goes to a column whose cut
/// splits it.
pub open spec fn cell_fails(cfg: Config, all: Seq<Seq<Seq<char>>>, encode_map: Map<Seq<char>, String>, r: int, c: int) -> bool {
    let wl = cfg.is_whitelist_mode;
    let keys = marked_row(all, cfg.row_var_mark@);
    &&& data_row(wl, all, r)
    &&& !row_blank(all[r])
    &&& all[r].len() < usize::MAX
    &&& 0 <= c < all[r].len()
    &&& c < keys.len()
    &&& key_ok(wl, all[0], keys, c)
    &&& view_cut_fails(
        column_view(cfg, keys, marked_row(all, cfg.row_attr_mark@), c),
        encode_map,
        all[r][c],
    )
}

/// Whether reading the rows `all` as a table fails: there is a data row and
/// a used key that cannot be read, or a cell whose column's cut splits it.
pub open spec fn table_fails(cfg: Config, all: Seq<Seq<Seq<char>>>, encode_map: Map<Seq<char>, String>) -> bool {
    let wl = cfg.is_whitelist_mode;
    let keys = marked_row(all, cfg.row_var_mark@);
    ||| (exists|r: int| #[trigger] data_row(wl, all, r)) && (exists|i: int|
        0 <= i < keys.len() && #[trigger] key_unreadable(wl, all[0], keys, i))
    ||| exists|r: int, c: int| #[trigger] cell_fails(cfg, all, encode_map, r, c)
}

/// Whether reading a sheet fails (see [`table_fails`]).
pub open spec fn sheet_fails(cfg: Config, sheet: SheetContent, encode_map: Map<Seq<char>, String>) -> bool {
    has_table(cfg, sheet) && table_fails(cfg, read_rows(cfg, table_texts(sheet.rows@)), encode_map)
}

proof fn lemma_ok_keys(wl: bool, fr: Seq<Seq<char>>, ks: Seq<Seq<char>>, i: nat)
    ensures
        forall|j: int|
            0 <= j < ok_keys(wl, fr, ks, i).len() ==> i <= #[trigger] ok_keys(wl, fr, ks, i)[j] < ks.len()
                && key_ok(wl, fr, ks, ok_keys(wl, fr, ks, i)[j] as int),
        forall|c: int|
            i <= c < ks.len() && key_ok(wl, fr, ks, c) ==> exists|j: int|
                0 <= j < ok_keys(wl, fr, ks, i).len() && #[trigger] ok_keys(wl, fr, ks, i)[j] == c,
    decreases ks.len() - i,
{
    if i < ks.len() {
        lemma_ok_keys(wl, fr, ks, i + 1);
        let rest = ok_keys(wl, fr, ks, i + 1);
        if key_ok(wl, fr, ks, i as int) {
            let all = ok_keys(wl, fr, ks, i);
            assert(all == seq![i] + rest);
            assert forall|j: int| 0 <= j < all.len() implies i <= #[trigger] all[j] < ks.len() && key_ok(
                wl,
                fr,
                ks,
                all[j] as int,
            ) by {
                if j > 0 {
                    assert(all[j] == rest[j - 1]);
                }
            }
            assert forall|c: int| i <= c < ks.len() && key_ok(wl, fr, ks, c) implies exists|j: int|
                0 <= j < all.len() && #[trigger] all[j] == c by {
                if c == i {
                    assert(all[0] == c);
                } else {
                    let j = choose|j: int| 0 <= j < rest.len() && #[trigger] rest[j] == c;
                    assert(all[j + 1] == c);
                }
            }
        } else {
            assert(ok_keys(wl, fr, ks, i) == rest);
            assert forall|c: int| i <= c < ks.len() && key_ok(wl, fr, ks, c) implies exists|j: int|
                0 <= j < rest.len() && #[trigger] rest[j] == c by {
                assert(c != i);
            }
        }
    }
}

proof fn lemma_global_index_same(globals: Seq<(String, TheadAttr)>, pairs: Seq<(Seq<char>, String)>, key: Seq<char>)
    requires
        globals.len() == pairs.len(),
        forall|i: int| 0 <= i < globals.len() ==> (#[trigger] globals[i]).0@ == pairs[i].0,
    ensures
        global_attr_index(globals, key) == global_pair_index(pairs, key),
    decreases globals.len(),
{
    if globals.len() > 0 {
        assert(globals[0].0@ == pairs[0].0);
        assert forall|i: int| 0 <= i < globals.drop_first().len() implies (#[trigger] globals.drop_first()[i]).0@
            == pairs.drop_first()[i].0 by {
            assert(globals[i + 1].0@ == pairs[i + 1].0);
        }
        lemma_global_index_same(globals.drop_first(), pairs.drop_first(), key);
    }
}

proof fn lemma_view_cut(a: TheadAttr, encode_map: Map<Seq<char>, String>, cell: Seq<char>)
    ensures
        !cut_ok(a, encode_map, cell_content(cell, a)) == view_cut_fails(text_view(a), encode_map, cell),
{
}

proof fn lemma_column_index_some(t: Seq<SheetColumn>, col: nat, k: int)
    requires
        0 <= k < t.len(),
        t[k].column == col,
    ensures
        column_index(t, col) is Some,
    decreases t.len(),
{
    if t[0].column != col {
        assert(t.drop_first()[k - 1] == t[k]);
        lemma_column_index_some(t.drop_first(), col, k - 1);
    }
}

/// Whether `globals` are the global attributes of `cfg`, read over
/// `default_attr`.
pub open spec fn globals_of(
    globals: Seq<(String, TheadAttr)>,
    cfg: Config,
    default_attr: TheadAttr,
    enums: Map<Seq<char>, StrMap<i64>>,
) -> bool {
    &&& globals.len() == cfg.global_attr_by_key.pairs().len()
    &&& forall|i: int|
        0 <= i < globals.len() ==> (#[trigger] globals[i]).0@ == cfg.global_attr_by_key.pairs()[i].0
            && parsed_attr(globals[i].1, cfg.global_attr_by_key.pairs()[i].1@, default_attr, enums)
}

proof fn lemma_new_column_view(
    c: SheetColumn,
    col: nat,
    ks: Seq<Seq<char>>,
    attrs: Seq<Seq<char>>,
    globals: Seq<(String, TheadAttr)>,
    default_attr: TheadAttr,
    enums: Map<Seq<char>, StrMap<i64>>,
    cfg: Config,
)
    requires
        col < ks.len(),
        new_column_for(c, col, ks, attrs, globals, default_attr, enums),
        globals_of(globals, cfg, default_attr, enums),
        text_view(default_attr) == default_text_view(),
    ensures
        text_view(c.attr) == column_view(cfg, ks, attrs, col as int),
{
    let pairs = cfg.global_attr_by_key.pairs();
    lemma_global_index_same(globals, pairs, ks[col as int]);
    lemma_global_attr_index(globals, ks[col as int]);
    match global_attr_index(globals, ks[col as int]) {
        Some(g) => {
            assert(parsed_attr(globals[g as int].1, pairs[g as int].1@, default_attr, enums));
            assert(text_view(globals[g as int].1) == parsed_text_view(pairs[g as int].1@, default_text_view()));
        },
        None => {},
    }
}

fn add_key_columns(
    table: &mut Vec<SheetColumn>,
    valid: &mut Vec<bool>,
    report: &mut SheetResult,
    keys: &Vec<String>,
    attrs: &Vec<String>,
    first_row: &Vec<String>,
    cfg: &Config,
    globals: &Vec<(String, TheadAttr)>,
    default_attr: &TheadAttr,
    enums: &StrMap<StrMap<i64>>,
) -> (r: Result<(), String>)
    requires
        old(valid)@.len() == keys@.len(),
    ensures
        final(report).excel_name == old(report).excel_name,
        final(report).name == old(report).name,
        final(report).full_name_raw == old(report).full_name_raw,
        final(report).full_name == old(report).full_name,
        final(report).is_finished == old(report).is_finished,
        r is Err <==> exists|i: int|
            0 <= i < keys@.len() && #[trigger] key_unreadable(
                cfg.is_whitelist_mode,
                texts(first_row@),
                texts(keys@),
                i,
            ),
        r matches Err(e) ==> exists|i: int|
            0 <= i < keys@.len() && #[trigger] key_unreadable(
                cfg.is_whitelist_mode,
                texts(first_row@),
                texts(keys@),
                i,
            ) && (forall|j: int|
                0 <= j < i ==> !#[trigger] key_unreadable(
                    cfg.is_whitelist_mode,
                    texts(first_row@),
                    texts(keys@),
                    j,
                )) && e@ == "unreadable index in key: "@ + texts(keys@)[i],
        r is Ok ==> {
            &&& final(valid)@.len() == keys@.len()
            &&& forall|i: int|
                0 <= i < keys@.len() ==> #[trigger] final(valid)@[i] == (old(valid)@[i] || key_ok(
                    cfg.is_whitelist_mode,
                    texts(first_row@),
                    texts(keys@),
                    i,
                ))
            &&& final(table)@.len() == old(table)@.len() + ok_keys(
                cfg.is_whitelist_mode,
                texts(first_row@),
                texts(keys@),
                0,
            ).len()
            &&& forall|j: int| 0 <= j < old(table)@.len() ==> #[trigger] final(table)@[j] == old(table)@[j]
            &&& forall|j: int|
                0 <= j < final(table)@.len() - old(table)@.len() ==> new_column_for(
                    #[trigger] final(table)@[old(table)@.len() + j],
                    ok_keys(cfg.is_whitelist_mode, texts(first_row@), texts(keys@), 0)[j],
                    texts(keys@),
                    texts(attrs@),
                    globals@,
                    *default_attr,
                    enums@,
                )
            &&& forall|j: int|
                0 <= j < final(table)@.len() - old(table)@.len() ==> {
                    let col = ok_keys(cfg.is_whitelist_mode, texts(first_row@), texts(keys@), 0)[j] as int;
                    key_read(
                        *cfg,
                        texts(keys@)[col],
                        same_keys_before(
                            cfg.is_whitelist_mode,
                            texts(first_row@),
                            texts(keys@),
                            col,
                            col,
                        ) as usize,
                        (#[trigger] final(table)@[old(table)@.len() + j]).key,
                    )
                }
        },
{
    let ghost wl = cfg.is_whitelist_mode;
    let ghost fr = texts(first_row@);
    let ghost ks = texts(keys@);
    let ghost t0 = table@;
    let ghost v0 = valid@;
    let mut auto_index_map: StrMap<usize> = StrMap::new();
    let mut key_i: usize = 0;
    assert(ok_keys(wl, fr, ks, 0) == Seq::<nat>::empty() + ok_keys(wl, fr, ks, 0));
    while key_i < keys.len()
        invariant
            0 <= key_i <= keys@.len(),
            report.excel_name == old(report).excel_name,
            report.name == old(report).name,
            report.full_name_raw == old(report).full_name_raw,
            report.full_name == old(report).full_name,
            report.is_finished == old(report).is_finished,
            wl == cfg.is_whitelist_mode,
            fr == texts(first_row@),
            ks == texts(keys@),
            valid@.len() == keys@.len(),
            forall|i: int| 0 <= i < key_i ==> #[trigger] valid@[i] == (v0[i] || key_ok(wl, fr, ks, i)),
            forall|i: int| key_i <= i < keys@.len() ==> #[trigger] valid@[i] == v0[i],
            t0.len() <= table@.len(),
            forall|j: int| 0 <= j < t0.len() ==> #[trigger] table@[j] == t0[j],
            ok_keys(wl, fr, ks, 0) == Seq::new((table@.len() - t0.len()) as nat, |j: int| table@[t0.len() + j].column as nat)
                + ok_keys(wl, fr, ks, key_i as nat),
            forall|j: int|
                0 <= j < table@.len() - t0.len() ==> new_column_for(
                    #[trigger] table@[t0.len() + j],
                    table@[t0.len() + j].column as nat,
                    ks,
                    texts(attrs@),
                    globals@,
                    *default_attr,
                    enums@,
                ) && table@[t0.len() + j].column < key_i && key_read(
                    *cfg,
                    ks[table@[t0.len() + j].column as int],
                    same_keys_before(
                        wl,
                        fr,
                        ks,
                        table@[t0.len() + j].column as int,
                        table@[t0.len() + j].column as int,
                    ) as usize,
                    table@[t0.len() + j].key,
                ),
            forall|i: int|
                key_i <= i < ks.len() && key_ok(wl, fr, ks, i) && key_has_auto(ks[i]) ==> counter_of(
                    auto_index_map@,
                    #[trigger] ks[i],
                ) == same_keys_before(wl, fr, ks, i, key_i as int),
            forall|k: Seq<char>| auto_index_map@.contains_key(k) ==> #[trigger] auto_index_map@[k] <= key_i,
            forall|j: int| 0 <= j < key_i ==> !#[trigger] key_unreadable(wl, fr, ks, j),
        decreases keys.len() - key_i,
    {
        let key_raw = &keys[key_i];
        assert(ks[key_i as int] == key_raw@);
        let ok = key_i < first_row.len() && is_cell_ok(cfg, first_row[key_i].as_str())
            && !key_raw.as_str().is_empty() && is_cell_ok(cfg, key_raw.as_str());
        assert(ok == key_ok(wl, fr, ks, key_i as int));
        if ok {
            valid.set(key_i, true);
            let converter = |sub: &str| -> (r: String)
                ensures
                    r@ == crate::cell_helper::spec_str_converter(key_case_for(*cfg, sub@), sub@),
                {
                    let sub_s = String::from_str(sub);
                    match cfg.global_key_case.get(&sub_s) {
                        Some(c) => str_converter(c.as_str(), sub),
                        None => str_converter(cfg.key_case.as_str(), sub),
                    }
                };
            let mut flat_key = match FlattenKey::try_new(key_raw.clone(), converter) {
                Some(k) => k,
                None => {
                    assert(key_unreadable(wl, fr, ks, key_i as int));
                    return Err(concat_str("unreadable index in key: ", key_raw.as_str()));
                },
            };
            assert(!key_unreadable(wl, fr, ks, key_i as int));
            let ghost k0 = flat_key;
            let ghost m0 = auto_index_map@;
            let n = fill_auto_indexes(&mut flat_key, &mut auto_index_map);
            let ghost counter = same_keys_before(wl, fr, ks, key_i as int, key_i as int) as usize;
            proof {
                lemma_scan_indexes(ks[key_i as int], 0);
                if let KeyScan::Tokens(toks) = scan_key_from(ks[key_i as int], 0) {
                    lemma_parts_read(*cfg, converter, toks, k0.parts@);
                    lemma_count_auto(k0.parts@);
                    if key_has_auto(ks[key_i as int]) {
                        let w = choose|i: int| 0 <= i < toks.len() && #[trigger] token_auto(toks[i]);
                        assert(is_auto(k0.parts@[w]));
                        assert(counter_of(m0, ks[key_i as int]) == counter);
                    } else if ks[key_i as int].len() > 0 {
                        assert forall|i: int| 0 <= i < k0.parts@.len() implies !is_auto(#[trigger] k0.parts@[i]) by {
                            assert(!token_auto(toks[i]));
                        }
                    }
                    assert forall|i: int| 0 <= i < toks.len() implies is_last_auto(k0.parts@, i) == last_auto_token(toks, i) by {
                        assert forall|j: int| i < j < toks.len() implies is_auto(k0.parts@[j]) == #[trigger] token_auto(toks[j]) by {}
                    }
                }
                assert(key_read(*cfg, ks[key_i as int], counter, flat_key));
            }
            if n > 1 {
                let a = join3("`", key_raw.as_str(), "` 有");
                let num = u64_to_decimal(n as u64);
                let b = join3(a.as_str(), num.as_str(), "个自动索引, 但只有最后一个会被识别, 请明确指定索引值");
                report.warn(b);
            }
            let attr_text = if key_i < attrs.len() {
                attrs[key_i].clone()
            } else {
                String::new()
            };
            assert(attr_text@ == attr_text_at(texts(attrs@), key_i as int));
            assert(ks[key_i as int] == key_raw@);
            let gi = find_global_attr(globals, key_raw.as_str());
            proof {
                lemma_global_attr_index(globals@, key_raw@);
            }
            let attr = match gi {
                Some(g) => {
                    let a = parse_attr(attr_text.as_str(), &globals[g].1, enums);
                    assert(global_attr_index(globals@, ks[key_i as int]) == Some(g as nat));
                    a
                },
                None => {
                    let a = parse_attr(attr_text.as_str(), default_attr, enums);
                    assert(global_attr_index(globals@, ks[key_i as int]) is None);
                    a
                },
            };
            let col = SheetColumn::new(key_i, flat_key, attr);
            assert(col.column == key_i);
            assert(col.body@.len() == 0);
            assert(parsed_attr(col.attr, attr_text_at(texts(attrs@), key_i as int), match global_attr_index(globals@, ks[key_i as int]) {
                Some(g) => globals@[g as int].1,
                None => *default_attr,
            }, enums@));
            assert(new_column_for(col, key_i as nat, ks, texts(attrs@), globals@, *default_attr, enums@));
            let ghost before = table@;
            table.push(col);
            proof {
                assert(table@[before.len() as int] == col);
                assert(Seq::new((table@.len() - t0.len()) as nat, |j: int| table@[t0.len() + j].column as nat)
                    =~= Seq::new((before.len() - t0.len()) as nat, |j: int| before[t0.len() + j].column as nat).push(key_i as nat));
                assert(ok_keys(wl, fr, ks, key_i as nat) == seq![key_i as nat] + ok_keys(wl, fr, ks, (key_i + 1) as nat));
                assert(ok_keys(wl, fr, ks, 0) =~= Seq::new((table@.len() - t0.len()) as nat, |j: int| table@[t0.len() + j].column as nat)
                    + ok_keys(wl, fr, ks, (key_i + 1) as nat));
            }
        }
        key_i = key_i + 1;
    }
    proof {
        assert(ok_keys(wl, fr, ks, key_i as nat) =~= Seq::<nat>::empty());
        let s = Seq::new((table@.len() - t0.len()) as nat, |j: int| table@[t0.len() + j].column as nat);
        assert(ok_keys(wl, fr, ks, 0) =~= s);
        assert forall|j: int| 0 <= j < table@.len() - t0.len() implies new_column_for(
            #[trigger] table@[t0.len() + j],
            ok_keys(wl, fr, ks, 0)[j],
            ks,
            texts(attrs@),
            globals@,
            *default_attr,
            enums@,
        ) by {
            assert(s[j] == table@[t0.len() + j].column as nat);
        }
        assert forall|j: int| 0 <= j < table@.len() - t0.len() implies {
            let col = ok_keys(wl, fr, ks, 0)[j] as int;
            key_read(*cfg, ks[col], same_keys_before(wl, fr, ks, col, col) as usize, (#[trigger] table@[t0.len() + j]).key)
        } by {
            assert(s[j] == table@[t0.len() + j].column as nat);
        }
    }
    Ok(())
}

/// Index of the first column made for header column `col`.
pub open spec fn column_index(table: Seq<SheetColumn>, col: nat) -> Option<nat>
    decreases table.len(),
{
    if table.len() == 0 {
        None
    } else if table[0].column == col {
        Some(0)
    } else {
        match column_index(table.drop_first(), col) {
            Some(i) => Some(i + 1),
            None => None,
        }
    }
}

proof fn lemma_column_index(table: Seq<SheetColumn>, col: nat)
    ensures
        column_index(table, col) matches Some(i) ==> i < table.len() && table[i as int].column == col,
    decreases table.len(),
{
    if table.len() > 0 {
        lemma_column_index(table.drop_first(), col);
    }
}

fn find_column(table: &Vec<SheetColumn>, col: usize) -> (r: Option<usize>)
    ensures
        r matches Some(j) ==> column_index(table@, col as nat) == Some(j as nat) && j < table@.len(),
        r is None ==> column_index(table@, col as nat) is None,
{
    let mut i: usize = 0;
    assert(table@.skip(0) =~= table@);
    while i < table.len()
        invariant
            0 <= i <= table@.len(),
            match column_index(table@, col as nat) {
                Some(k) => k >= i && column_index(table@.skip(i as int), col as nat) == Some(
                    (k - i) as nat,
                ),
                None => column_index(table@.skip(i as int), col as nat) is None,
            },
        decreases table.len() - i,
    {
        assert(table@.skip(i as int)[0] == table@[i as int]);
        assert(table@.skip(i as int).drop_first() =~= table@.skip(i + 1));
        if table[i].column == col {
            return Some(i);
        }
        i = i + 1;
    }
    assert(table@.skip(i as int) =~= Seq::<SheetColumn>::empty());
    None
}

/// Whether `t2` is `t1` with cells added: the same columns and keys, each
/// body and meta list at least as long, and every cell a scalar.
pub open spec fn cells_added(t1: Seq<SheetColumn>, t2: Seq<SheetColumn>) -> bool {
    &&& t2.len() == t1.len()
    &&& forall|j: int|
        0 <= j < t1.len() ==> {
            &&& (#[trigger] t2[j]).column == t1[j].column
            &&& t2[j].column_name == t1[j].column_name
            &&& t2[j].key == t1[j].key
            &&& t2[j].body@.len() >= t1[j].body@.len()
        }
    &&& bodies_scalar(t2)
}

/// The text a cell is converted from: its own, or the column's default
/// when it is empty.
pub open spec fn cell_content(cell: Seq<char>, attr: TheadAttr) -> Seq<char> {
    if cell.len() == 0 {
        attr.cell_default@
    } else {
        cell
    }
}

/// Whether entry `k` of the table takes a cell of `row`: it is the first
/// column made for its header column, the row reaches that column, and the
/// column is not marked unused.
pub open spec fn cell_target(t0: Seq<SheetColumn>, row: Seq<Seq<char>>, valid: Seq<bool>, k: int) -> bool {
    let col = t0[k].column as int;
    &&& 0 <= k < t0.len()
    &&& col < row.len()
    &&& !(col < valid.len() && !valid[col])
    &&& column_index(t0, col as nat) == Some(k as nat)
}

/// Whether entry `k` takes a cell of `row` whose cut would split a character.
pub open spec fn cell_cut_fails(
    t0: Seq<SheetColumn>,
    row: Seq<Seq<char>>,
    valid: Seq<bool>,
    encode_map: Map<Seq<char>, String>,
    k: int,
) -> bool {
    &&& cell_target(t0, row, valid, k)
    &&& !cut_ok(t0[k].attr, encode_map, cell_content(row[t0[k].column as int], t0[k].attr))
}

/// The number a cell is recorded with: the row, counted from 1, of the
/// sheet as it is read, where the cell stands.
pub open spec fn cell_origin(row_i: int) -> int {
    row_i + 1
}

/// Whether `c1` is `c0` with one cell added: `content` converted as
/// [`convert_cell_to_json`] does, its JSON value at the end of the body,
/// `origin` at the end of the meta lines, and the converted type taken as
/// the column's type where that was unknown.
pub open spec fn cell_added<F: Fn(&str) -> Option<Json>>(
    c0: SheetColumn,
    c1: SheetColumn,
    content: Seq<char>,
    origin: int,
    enums: Map<Seq<char>, StrMap<i64>>,
    encode_map: Map<Seq<char>, String>,
    parse_float: F,
) -> bool {
    &&& c1.column == c0.column
    &&& c1.column_name == c0.column_name
    &&& c1.key == c0.key
    &&& c1.body@.len() == c0.body@.len() + 1
    &&& c1.body@.subrange(0, c0.body@.len() as int) == c0.body@
    &&& c1.meta@.len() == c0.meta@.len() + 1
    &&& c1.meta@.subrange(0, c0.meta@.len() as int) == c0.meta@
    &&& c1.meta@.last()@ == int_decimal(origin)
    &&& exists|x: &str, o: Option<Json>|
        #![trigger call_ensures(parse_float, (x,), o)]
        x@ == spec_cell_text(c0.attr, encode_map, content) && call_ensures(parse_float, (x,), o) && {
            let (t, m) = spec_cell_json(c0.attr, enums, x@, opt_model(o));
            &&& c1.body@.last().model() == m
            &&& c1.attr == (TheadAttr {
                cell_type: if c0.attr.cell_type == CellTypes::Unknown {
                    t
                } else {
                    c0.attr.cell_type
                },
                ..c0.attr
            })
        }
}

proof fn lemma_column_index_same(t0: Seq<SheetColumn>, t1: Seq<SheetColumn>, col: nat)
    requires
        t1.len() == t0.len(),
        forall|k: int| 0 <= k < t0.len() ==> (#[trigger] t1[k]).column == t0[k].column,
    ensures
        column_index(t1, col) == column_index(t0, col),
    decreases t0.len(),
{
    if t0.len() > 0 {
        assert forall|k: int| 0 <= k < t0.drop_first().len() implies (#[trigger] t1.drop_first()[k]).column
            == t0.drop_first()[k].column by {
            assert(t1[k + 1].column == t0[k + 1].column);
        }
        lemma_column_index_same(t0.drop_first(), t1.drop_first(), col);
    }
}

/// Adds the cells of one data row to their columns: each cell whose header
/// column is used goes, converted, to the first column made for it, with
/// the number of the row it came from.  `Err` when a column's cut would
/// split a character.
fn add_row_cells<F>(
    table: &mut Vec<SheetColumn>,
    row: &Vec<String>,
    row_i: usize,
    valid: &Vec<bool>,
    enums: &StrMap<StrMap<i64>>,
    encode_map: &StrMap<String>,
    parse_float: &F,
) -> (r: Result<(), String>) where F: Fn(&str) -> Option<Json>
    requires
        bodies_scalar(old(table)@),
        row_i < usize::MAX,
        row@.len() < usize::MAX,
        forall|x: &str| call_requires(*parse_float, (x,)),
        forall|x: &str, o: Option<Json>|
            call_ensures(*parse_float, (x,), o) ==> (o matches Some(f) ==> f.is_scalar()),
    ensures
        r is Err <==> exists|k: int| #[trigger]
            cell_cut_fails(old(table)@, texts(row@), valid@, encode_map@, k),
        r matches Err(e) ==> e@ == "a column cut splits a character"@,
        r is Ok ==> cells_added(old(table)@, final(table)@),
        r is Ok ==> forall|k: int|
            #![trigger final(table)@[k]]
            0 <= k < old(table)@.len() ==> if cell_target(old(table)@, texts(row@), valid@, k) {
                cell_added(
                    old(table)@[k],
                    final(table)@[k],
                    cell_content(texts(row@)[old(table)@[k].column as int], old(table)@[k].attr),
                    cell_origin(row_i as int),
                    enums@,
                    encode_map@,
                    *parse_float,
                )
            } else {
                final(table)@[k] == old(table)@[k]
            },
{
    let ghost t0 = table@;
    let ghost rt = texts(row@);
    let mut col_j: usize = 0;
    while col_j < row.len()
        invariant
            0 <= col_j <= row@.len(),
            row@.len() < usize::MAX,
            row_i < usize::MAX,
            rt == texts(row@),
            t0 == old(table)@,
            cells_added(t0, table@),
            forall|k: int|
                #![trigger table@[k]]
                0 <= k < t0.len() ==> if cell_target(t0, rt, valid@, k) && t0[k].column < col_j {
                    cell_added(
                        t0[k],
                        table@[k],
                        cell_content(rt[t0[k].column as int], t0[k].attr),
                        cell_origin(row_i as int),
                        enums@,
                        encode_map@,
                        *parse_float,
                    )
                } else {
                    table@[k] == t0[k]
                },
            forall|k: int|
                0 <= k < t0.len() && t0[k].column < col_j ==> !#[trigger] cell_cut_fails(
                    t0,
                    rt,
                    valid@,
                    encode_map@,
                    k,
                ),
            forall|x: &str| call_requires(*parse_float, (x,)),
            forall|x: &str, o: Option<Json>|
                call_ensures(*parse_float, (x,), o) ==> (o matches Some(f) ==> f.is_scalar()),
        decreases row.len() - col_j,
    {
        proof {
            lemma_column_index_same(t0, table@, col_j as nat);
        }
        let skip = col_j < valid.len() && !valid[col_j];
        if !skip {
            match find_column(table, col_j) {
                None => {},
                Some(idx) => {
                    proof {
                        lemma_column_index(t0, col_j as nat);
                        assert(t0[idx as int].column == col_j);
                        assert(cell_target(t0, rt, valid@, idx as int));
                        assert(table@[idx as int] == t0[idx as int]);
                    }
                    let ghost before = table@;
                    let mut c = table.remove(idx);
                    assert(c == before[idx as int]);
                    let content = if row[col_j].as_str().is_empty() {
                        c.attr.cell_default.clone()
                    } else {
                        row[col_j].clone()
                    };
                    assert(content@ == cell_content(rt[col_j as int], t0[idx as int].attr));
                    match convert_cell_to_json(&c.attr, enums, encode_map, content.as_str(), parse_float) {
                        None => {
                            assert(cell_cut_fails(t0, rt, valid@, encode_map@, idx as int));
                            return Err(String::from_str("a column cut splits a character"));
                        },
                        Some((t, json)) => {
                            let ghost c0 = c;
                            if c.attr.cell_type == CellTypes::Unknown {
                                c.attr.cell_type = t;
                            }
                            let ghost body0 = c.body@;
                            c.body.push(json);
                            let origin = row_i + 1;
                            c.meta.push(u64_to_decimal(origin as u64));
                            proof {
                                assert forall|i: int| 0 <= i < c.body@.len() implies (#[trigger] c.body@[i]).is_scalar() by {
                                    if i < body0.len() {
                                        assert(before[idx as int].body@[i].is_scalar());
                                    }
                                }
                                let (x, o) = choose|x: &str, o: Option<Json>|
                                    x@ == spec_cell_text(c0.attr, encode_map@, content@) && call_ensures(
                                        *parse_float,
                                        (x,),
                                        o,
                                    ) && (t, json.model()) == spec_cell_json(c0.attr, enums@, x@, opt_model(o));
                                assert(call_ensures(*parse_float, (x,), o));
                                assert(c.body@.subrange(0, c0.body@.len() as int) =~= c0.body@);
                                assert(c.meta@.subrange(0, c0.meta@.len() as int) =~= c0.meta@);
                                assert(cell_added(
                                    t0[idx as int],
                                    c,
                                    cell_content(rt[col_j as int], t0[idx as int].attr),
                                    cell_origin(row_i as int),
                                    enums@,
                                    encode_map@,
                                    *parse_float,
                                ));
                            }
                            table.insert(idx, c);
                            proof {
                                assert forall|j: int| 0 <= j < table@.len() && j != idx implies #[trigger] table@[j] == before[j] by {}
                                assert forall|cc: int, i: int|
                                    0 <= cc < table@.len() && 0 <= i < table@[cc].body@.len() implies (#[trigger] table@[cc].body@[i]).is_scalar() by {
                                    if cc != idx {
                                        assert(table@[cc] == before[cc]);
                                    }
                                }
                            }
                        },
                    }
                },
            }
        }
        col_j = col_j + 1;
    }
    Ok(())
}

/// Whether every cell of a row is empty.
pub open spec fn row_blank(row: Seq<Seq<char>>) -> bool {
    forall|i: int| 0 <= i < row.len() ==> (#[trigger] row[i]).len() == 0
}

fn is_row_blank(row: &Vec<String>) -> (r: bool)
    ensures
        r == row_blank(texts(row@)),
{
    let mut i: usize = 0;
    while i < row.len()
        invariant
            0 <= i <= row@.len(),
            forall|k: int| 0 <= k < i ==> (#[trigger] texts(row@)[k]).len() == 0,
        decreases row.len() - i,
    {
        if !row[i].as_str().is_empty() {
            assert(texts(row@)[i as int].len() != 0);
            return false;
        }
        i = i + 1;
    }
    true
}

/// The strings of `v` that are taken cells.
pub open spec fn ok_strings(wl: bool, v: Seq<Seq<char>>) -> Seq<Seq<char>> {
    v.filter(|s: Seq<char>| cell_ok(wl, s))
}

fn filter_ok(cfg: &Config, v: &Vec<String>) -> (r: Vec<String>)
    ensures
        texts(r@) == ok_strings(cfg.is_whitelist_mode, texts(v@)),
{
    let mut out: Vec<String> = Vec::new();
    let mut i: usize = 0;
    assert(texts(v@).take(0) =~= Seq::<Seq<char>>::empty());
    while i < v.len()
        invariant
            0 <= i <= v@.len(),
            texts(out@) == ok_strings(cfg.is_whitelist_mode, texts(v@).take(i as int)),
        decreases v.len() - i,
    {
        let ghost before = out@;
        assert(texts(v@).take(i + 1).drop_last() =~= texts(v@).take(i as int));
        reveal_with_fuel(Seq::<_>::filter, 1);
        if is_cell_ok(cfg, v[i].as_str()) {
            out.push(v[i].clone());
            assert(texts(out@) =~= texts(before).push(v@[i as int]@));
        }
        assert(texts(v@).take(i + 1).last() == v@[i as int]@);
        i = i + 1;
    }
    assert(texts(v@).take(v@.len() as int) =~= texts(v@));
    out
}

/// Where a sheet is written and how: its configured path (or `output/NAME`)
/// joined to the base directory and normalised; the kind comes from the
/// path's extension, or, without one, from the configured format, whose
/// extension is then added.
pub open spec fn spec_output(base: Seq<char>, cfg: Config, name: Seq<char>) -> (Seq<char>, ContentKinds) {
    let joined = if cfg.specified_output@.contains_key(name) {
        spec_path_join(base, cfg.specified_output@[name]@)
    } else {
        spec_path_join(spec_path_join(base, cfg.output@), name)
    };
    let p = spec_path_collect(normalized_texts(spec_path_components(joined)));
    match spec_path_extension(p) {
        Some(ext) => (p, kind_of(ext)),
        None => (spec_path_with_extension(p, kind_name(kind_of(cfg.format@))), kind_of(cfg.format@)),
    }
}

fn sheet_output(base: &str, cfg: &Config, name: &String) -> (r: (String, ContentKinds))
    ensures
        (r.0@, r.1) == spec_output(base@, *cfg, name@),
{
    let joined = match cfg.specified_output.get(name) {
        Some(spec_output) => path_join(base, spec_output.as_str()),
        None => {
            let a = path_join(base, cfg.output.as_str());
            path_join(a.as_str(), name.as_str())
        },
    };
    let p = path_normalize(joined.as_str());
    match path_extension(p.as_str()) {
        Some(ext) => (p, ContentKinds::from(ext.as_str())),
        None => {
            let kind = ContentKinds::from(cfg.format.as_str());
            proof {
                reveal_strlit("json");
                reveal_strlit("txt");
                reveal_strlit("csv");
            }
            (path_with_extension(p.as_str(), kind.as_str()), kind)
        },
    }
}

fn copy_rows(rows: &Vec<Vec<String>>) -> (r: Vec<Vec<String>>)
    ensures
        table_texts(r@) == table_texts(rows@),
{
    let mut out: Vec<Vec<String>> = Vec::new();
    let mut i: usize = 0;
    while i < rows.len()
        invariant
            0 <= i <= rows@.len(),
            out@.len() == i,
            forall|k: int| 0 <= k < i ==> #[trigger] texts(out@[k]@) == texts(rows@[k]@),
        decreases rows.len() - i,
    {
        let row = &rows[i];
        let mut copy: Vec<String> = Vec::new();
        let mut j: usize = 0;
        while j < row.len()
            invariant
                0 <= j <= row@.len(),
                copy@.len() == j,
                forall|k: int| 0 <= k < j ==> #[trigger] copy@[k] == row@[k],
            decreases row.len() - j,
        {
            copy.push(row[j].clone());
            j = j + 1;
        }
        assert(texts(copy@) =~= texts(row@));
        out.push(copy);
        i = i + 1;
    }
    assert(table_texts(out@) =~= table_texts(rows@));
    out
}

/// The name a sheet is written under: its name up to the first `#`.
pub open spec fn write_name(name: Seq<char>) -> Seq<char> {
    spec_remove_after(name, "#"@)
}

/// Whether a sheet is left out: its written name is empty or blacklisted.
pub open spec fn sheet_skipped(name: Seq<char>) -> bool {
    write_name(name).len() == 0 || blacklisted(write_name(name))
}

/// The message for a skipped sheet.
pub open spec fn skip_message(excel_name: Seq<char>, name: Seq<char>) -> Seq<char> {
    "> ⏩ 跳过: "@ + excel_name + "/"@ + name
}

/// The sheets that are not skipped, in order.
pub open spec fn kept_sheets(sheets: Seq<SheetContent>) -> Seq<SheetContent> {
    sheets.filter(|s: SheetContent| !sheet_skipped(s.name@))
}

/// The messages for the skipped sheets, in order.
pub open spec fn skip_messages(excel_name: Seq<char>, sheets: Seq<SheetContent>) -> Seq<Seq<char>> {
    sheets.filter(|s: SheetContent| sheet_skipped(s.name@)).map_values(
        |s: SheetContent| skip_message(excel_name, s.name@),
    )
}

/// Reads the sheets of one workbook.  A sheet whose written name (up to `#`)
/// is empty or blacklisted is skipped with a message; every other sheet gets
/// a result (see [`sheet_read`]).  A sheet starting with the transpose mark
/// is transposed.  The `##var` row gives the keys and the `##attr` row the
/// attributes; each data row (first cell taken) adds the columns of its used
/// keys, and, unless it is blank, its cells, converted, to the first column
/// made for each.  The rows are then built as JSON objects or text lines
/// according to the output kind.  `parse_float` reads a text as a
/// floating-point number.  `Err` exactly when a kept sheet read as a table
/// has a key or a cut that cannot be read (see [`sheet_fails`]).
pub fn read_excel<F>(
    excel_name: &str,
    sheets: &Vec<SheetContent>,
    base_path: &str,
    cfg: &Config,
    enums_map: &StrMap<StrMap<i64>>,
    encode_map: &StrMap<String>,
    parse_float: &F,
) -> (r: Result<(Vec<SheetResult>, Vec<String>), String>) where F: Fn(&str) -> Option<Json>
    requires
        forall|x: &str| call_requires(*parse_float, (x,)),
        forall|x: &str, o: Option<Json>|
            call_ensures(*parse_float, (x,), o) ==> (o matches Some(f) ==> f.is_scalar()),
    ensures
        r matches Ok((reports, skipped)) ==> {
            &&& texts(skipped@) == skip_messages(excel_name@, sheets@)
            &&& reports@.len() == kept_sheets(sheets@).len()
            &&& forall|i: int|
                0 <= i < reports@.len() ==> sheet_read(
                    *cfg,
                    excel_name@,
                    base_path@,
                    enums_map@,
                    encode_map@,
                    *parse_float,
                    kept_sheets(sheets@)[i],
                    #[trigger] reports@[i],
                )
        },
        r is Err <==> exists|i: int|
            0 <= i < sheets@.len() && !sheet_skipped(sheets@[i].name@) && sheet_fails(
                *cfg,
                #[trigger] sheets@[i],
                encode_map@,
            ),
{
    let default_attr = TheadAttr::default();
    let globals = global_attrs(cfg, &default_attr, enums_map);
    assert(text_view(default_attr) == default_text_view());
    assert(is_default_attr(default_attr));
    assert(globals_of(globals@, *cfg, default_attr, enums_map@));
    let mut reports: Vec<SheetResult> = Vec::new();
    let mut skipped: Vec<String> = Vec::new();
    let mut si: usize = 0;
    assert(sheets@.take(0) =~= Seq::<SheetContent>::empty());
    while si < sheets.len()
        invariant
            0 <= si <= sheets@.len(),
            texts(skipped@) == sheets@.take(si as int).filter(
                |s: SheetContent| sheet_skipped(s.name@),
            ).map_values(|s: SheetContent| skip_message(excel_name@, s.name@)),
            reports@.len() == sheets@.take(si as int).filter(
                |s: SheetContent| !sheet_skipped(s.name@),
            ).len(),
            forall|i: int|
                0 <= i < reports@.len() ==> sheet_read(
                    *cfg,
                    excel_name@,
                    base_path@,
                    enums_map@,
                    encode_map@,
                    *parse_float,
                    sheets@.take(si as int).filter(|s: SheetContent| !sheet_skipped(s.name@))[i],
                    #[trigger] reports@[i],
                ),
            globals_of(globals@, *cfg, default_attr, enums_map@),
            text_view(default_attr) == default_text_view(),
            is_default_attr(default_attr),
            forall|j: int|
                0 <= j < si ==> !(!sheet_skipped(sheets@[j].name@) && #[trigger] sheet_fails(
                    *cfg,
                    sheets@[j],
                    encode_map@,
                )),
            forall|x: &str| call_requires(*parse_float, (x,)),
            forall|x: &str, o: Option<Json>|
                call_ensures(*parse_float, (x,), o) ==> (o matches Some(f) ==> f.is_scalar()),
        decreases sheets.len() - si,
    {
        let sheet = &sheets[si];
        let ghost pre = sheets@.take(si + 1);
        let ghost kept_old = sheets@.take(si as int).filter(|s: SheetContent| !sheet_skipped(s.name@));
        let ghost skip_old = sheets@.take(si as int).filter(|s: SheetContent| sheet_skipped(s.name@));
        proof {
            assert(pre.drop_last() =~= sheets@.take(si as int));
            assert(pre.last() == *sheet);
            reveal_with_fuel(Seq::<_>::filter, 1);
        }
        let wname = remove_after(sheet.name.as_str(), "#");
        if wname.as_str().is_empty() || is_in_blacklist(wname.as_str()) {
            let reading_at = join3(excel_name, "/", sheet.name.as_str());
            let msg = concat_str("> ⏩ 跳过: ", reading_at.as_str());
            let ghost before = texts(skipped@);
            assert(msg@ =~= skip_message(excel_name@, sheet.name@));
            skipped.push(msg);
            proof {
                assert(texts(skipped@) =~= before.push(skip_message(excel_name@, sheet.name@)));
                assert(pre.filter(|s: SheetContent| sheet_skipped(s.name@)) == skip_old.push(*sheet));
                assert(pre.filter(|s: SheetContent| !sheet_skipped(s.name@)) == kept_old);
                assert(texts(skipped@) =~= pre.filter(|s: SheetContent| sheet_skipped(s.name@)).map_values(
                    |s: SheetContent| skip_message(excel_name@, s.name@),
                ));
            }
            si = si + 1;
            continue;
        }
        let mut report = SheetResult::new(excel_name, wname.as_str(), sheet.name.as_str());
        let finished = process_sheet(
            &mut report,
            sheet,
            &wname,
            excel_name,
            base_path,
            cfg,
            &globals,
            &default_attr,
            enums_map,
            encode_map,
            parse_float,
        );
        match finished {
            Err(e) => {
                assert(sheet_fails(*cfg, sheets@[si as int], encode_map@));
                return Err(e);
            },
            Ok(()) => {},
        }
        proof {
            if !sheet_blank(table_texts(sheet.rows@)) && !has_table(*cfg, *sheet) {
                assert(texts(report.warnings@) =~= seq![report.full_name@ + ": "@ + "未找到 var 行"@]);
            }
            assert(sheet_read(*cfg, excel_name@, base_path@, enums_map@, encode_map@, *parse_float, *sheet, report));
        }
        let ghost before = reports@;
        reports.push(report);
        proof {
            assert(pre.filter(|s: SheetContent| !sheet_skipped(s.name@)) == kept_old.push(*sheet));
            assert(pre.filter(|s: SheetContent| sheet_skipped(s.name@)) == skip_old);
            assert forall|i: int| 0 <= i < reports@.len() implies sheet_read(
                *cfg,
                excel_name@,
                base_path@,
                enums_map@,
                encode_map@,
                *parse_float,
                pre.filter(|s: SheetContent| !sheet_skipped(s.name@))[i],
                #[trigger] reports@[i],
            ) by {
                if i < before.len() {
                    assert(reports@[i] == before[i]);
                }
            }
        }
        si = si + 1;
    }
    proof {
        assert(sheets@.take(sheets@.len() as int) =~= sheets@);
    }
    Ok((reports, skipped))
}

/// Whether `t1`, `v1` are `t0`, `v0` after the columns of the used keys
/// were added for one data row (see `add_key_columns`): one new, empty
/// column per used key, in order, with its attributes and its key read.
pub open spec fn keys_added(
    cfg: Config,
    all: Seq<Seq<Seq<char>>>,
    globals: Seq<(String, TheadAttr)>,
    default_attr: TheadAttr,
    enums: Map<Seq<char>, StrMap<i64>>,
    t0: Seq<SheetColumn>,
    v0: Seq<bool>,
    t1: Seq<SheetColumn>,
    v1: Seq<bool>,
) -> bool {
    let wl = cfg.is_whitelist_mode;
    let keys = marked_row(all, cfg.row_var_mark@);
    let attrs = marked_row(all, cfg.row_attr_mark@);
    let nk = ok_keys(wl, all[0], keys, 0);
    &&& v1.len() == keys.len()
    &&& forall|i: int| 0 <= i < keys.len() ==> #[trigger] v1[i] == (v0[i] || key_ok(wl, all[0], keys, i))
    &&& t1.len() == t0.len() + nk.len()
    &&& forall|j: int| 0 <= j < t0.len() ==> #[trigger] t1[j] == t0[j]
    &&& forall|j: int|
        0 <= j < nk.len() ==> new_column_for(
            #[trigger] t1[t0.len() + j],
            nk[j],
            keys,
            attrs,
            globals,
            default_attr,
            enums,
        )
    &&& forall|j: int|
        0 <= j < nk.len() ==> key_read(
            cfg,
            keys[nk[j] as int],
            same_keys_before(wl, all[0], keys, nk[j] as int, nk[j] as int) as usize,
            (#[trigger] t1[t0.len() + j]).key,
        )
}

/// Whether `t1` is `t0` after the cells of row `r` were added (see
/// `add_row_cells`).
pub open spec fn row_cells_added<F: Fn(&str) -> Option<Json>>(
    all: Seq<Seq<Seq<char>>>,
    r: int,
    valid: Seq<bool>,
    enums: Map<Seq<char>, StrMap<i64>>,
    encode_map: Map<Seq<char>, String>,
    parse_float: F,
    t0: Seq<SheetColumn>,
    t1: Seq<SheetColumn>,
) -> bool {
    &&& cells_added(t0, t1)
    &&& forall|k: int|
        #![trigger t1[k]]
        0 <= k < t0.len() ==> if cell_target(t0, all[r], valid, k) {
            cell_added(
                t0[k],
                t1[k],
                cell_content(all[r][t0[k].column as int], t0[k].attr),
                cell_origin(r),
                enums,
                encode_map,
                parse_float,
            )
        } else {
            t1[k] == t0[k]
        }
}

/// Whether reading row `r` turns the table `tp` and the used-column marks
/// `vp` into `t` and `v`: a data row adds the columns of the used keys and,
/// unless blank, its cells.
pub open spec fn row_step<F: Fn(&str) -> Option<Json>>(
    cfg: Config,
    all: Seq<Seq<Seq<char>>>,
    globals: Seq<(String, TheadAttr)>,
    default_attr: TheadAttr,
    enums: Map<Seq<char>, StrMap<i64>>,
    encode_map: Map<Seq<char>, String>,
    parse_float: F,
    r: int,
    tp: Seq<SheetColumn>,
    vp: Seq<bool>,
    tm: Seq<SheetColumn>,
    t: Seq<SheetColumn>,
    v: Seq<bool>,
) -> bool {
    if !data_row(cfg.is_whitelist_mode, all, r) {
        t == tp && v == vp
    } else {
        &&& keys_added(cfg, all, globals, default_attr, enums, tp, vp, tm, v)
        &&& if !row_blank(all[r]) && all[r].len() < usize::MAX {
            row_cells_added(all, r, v, enums, encode_map, parse_float, tm, t)
        } else {
            t == tm
        }
    }
}

/// Whether `t` and `v` are the table of columns and the used-column marks
/// after reading the first `n` rows of `all`.
pub open spec fn table_after<F: Fn(&str) -> Option<Json>>(
    cfg: Config,
    all: Seq<Seq<Seq<char>>>,
    globals: Seq<(String, TheadAttr)>,
    default_attr: TheadAttr,
    enums: Map<Seq<char>, StrMap<i64>>,
    encode_map: Map<Seq<char>, String>,
    parse_float: F,
    n: nat,
    t: Seq<SheetColumn>,
    v: Seq<bool>,
) -> bool
    decreases n,
{
    if n == 0 {
        t.len() == 0 && v == Seq::new(marked_row(all, cfg.row_var_mark@).len(), |i: int| false)
    } else {
        exists|tp: Seq<SheetColumn>, vp: Seq<bool>, tm: Seq<SheetColumn>|
            table_after(
                cfg,
                all,
                globals,
                default_attr,
                enums,
                encode_map,
                parse_float,
                (n - 1) as nat,
                tp,
                vp,
            ) && #[trigger] row_step(
                cfg,
                all,
                globals,
                default_attr,
                enums,
                encode_map,
                parse_float,
                n - 1,
                tp,
                vp,
                tm,
                t,
                v,
            )
    }
}

proof fn lemma_table_after_step<F: Fn(&str) -> Option<Json>>(
    cfg: Config,
    all: Seq<Seq<Seq<char>>>,
    globals: Seq<(String, TheadAttr)>,
    default_attr: TheadAttr,
    enums: Map<Seq<char>, StrMap<i64>>,
    encode_map: Map<Seq<char>, String>,
    parse_float: F,
    n: nat,
    tp: Seq<SheetColumn>,
    vp: Seq<bool>,
    tm: Seq<SheetColumn>,
    t: Seq<SheetColumn>,
    v: Seq<bool>,
)
    requires
        table_after(cfg, all, globals, default_attr, enums, encode_map, parse_float, n, tp, vp),
        row_step(cfg, all, globals, default_attr, enums, encode_map, parse_float, n as int, tp, vp, tm, t, v),
    ensures
        table_after(cfg, all, globals, default_attr, enums, encode_map, parse_float, n + 1, t, v),
{
    let m: nat = n + 1;
    assert((m - 1) as nat == n);
    assert(m - 1 == n as int);
    assert(table_after(cfg, all, globals, default_attr, enums, encode_map, parse_float, (m - 1) as nat, tp, vp));
    assert(row_step(cfg, all, globals, default_attr, enums, encode_map, parse_float, m - 1, tp, vp, tm, t, v));
}

/// Whether `rows` and `meta` are what a table `t` is written as for `kind`
/// (see [`get_json_list_by_table`], [`get_table_list_by_table`]).
pub open spec fn table_output(kind: ContentKinds, t: Seq<SheetColumn>, rows: Seq<Json>, meta: Seq<String>) -> bool {
    &&& rows.len() == max_body_len(t)
    &&& match kind {
        ContentKinds::Json => {
            &&& forall|i: int|
                0 <= i < rows.len() ==> #[trigger] rows[i].model() == row_doc(t, i, 0, JsonV::Object(seq![]))
            &&& texts(meta) == all_meta(t, max_body_len(t))
        },
        ContentKinds::Csv => {
            &&& forall|i: int|
                0 <= i < rows.len() ==> #[trigger] rows[i].model() == JsonV::Str(row_text(t, i, 0, ","@))
            &&& meta.len() == 0
        },
        ContentKinds::Txt => {
            &&& forall|i: int|
                0 <= i < rows.len() ==> #[trigger] rows[i].model() == JsonV::Str(row_text(t, i, 0, "\t"@))
            &&& meta.len() == 0
        },
    }
}

/// Fills the result of one sheet that is not skipped (see [`read_excel`]).
fn process_sheet<F>(
    report: &mut SheetResult,
    sheet: &SheetContent,
    wname: &String,
    excel_name: &str,
    base_path: &str,
    cfg: &Config,
    globals: &Vec<(String, TheadAttr)>,
    default_attr: &TheadAttr,
    enums_map: &StrMap<StrMap<i64>>,
    encode_map: &StrMap<String>,
    parse_float: &F,
) -> (r: Result<(), String>) where F: Fn(&str) -> Option<Json>
    requires
        globals_of(globals@, *cfg, *default_attr, enums_map@),
        text_view(*default_attr) == default_text_view(),
        forall|x: &str| call_requires(*parse_float, (x,)),
        forall|x: &str, o: Option<Json>|
            call_ensures(*parse_float, (x,), o) ==> (o matches Some(f) ==> f.is_scalar()),
    ensures
        final(report).excel_name == old(report).excel_name,
        final(report).name == old(report).name,
        final(report).full_name_raw == old(report).full_name_raw,
        final(report).full_name == old(report).full_name,
        r is Err <==> sheet_fails(*cfg, *sheet, encode_map@),
        sheet_blank(table_texts(sheet.rows@)) ==> r is Ok && *final(report) == *old(report),
        !sheet_blank(table_texts(sheet.rows@)) && !has_table(*cfg, *sheet) ==> {
            &&& r is Ok
            &&& *final(report) == (SheetResult { warnings: final(report).warnings, ..*old(report) })
            &&& texts(final(report).warnings@) == texts(old(report).warnings@).push(
                old(report).full_name@ + ": "@ + "未找到 var 行"@,
            )
        },
        has_table(*cfg, *sheet) && r is Ok ==> {
            let all = read_rows(*cfg, table_texts(sheet.rows@));
            &&& exists|t: Seq<SheetColumn>, v: Seq<bool>|
                #[trigger] table_after(
                    *cfg,
                    all,
                    globals@,
                    *default_attr,
                    enums_map@,
                    encode_map@,
                    *parse_float,
                    all.len(),
                    t,
                    v,
                ) && table_output(final(report).kind, t, final(report).rows@, final(report).meta@)
            &&& final(report).is_finished
            &&& (final(report).output_path@, final(report).kind) == spec_output(base_path@, *cfg, wname@)
            &&& texts(final(report).var_strings@) == ok_strings(
                cfg.is_whitelist_mode,
                marked_row(all, cfg.row_var_mark@),
            )
            &&& texts(final(report).attr_strings@) == ok_strings(
                cfg.is_whitelist_mode,
                marked_row(all, cfg.row_attr_mark@),
            )
        },
{
    if sheet.rows.len() == 0 || sheet.rows[0].len() == 0 {
        return Ok(());
    }
    let transposed = sheet.rows[0][0] == cfg.row_transpose_mark;
    let all_rows = if transposed {
        transpose_rows(&sheet.rows)
    } else {
        copy_rows(&sheet.rows)
    };
    let ghost rows = table_texts(sheet.rows@);
    proof {
        assert(rows[0] == texts(sheet.rows@[0]@));
        assert(transposed == (rows[0][0] == cfg.row_transpose_mark@));
        if transposed {
            lemma_transpose_is(rows, table_texts(all_rows@));
            lemma_max_width(rows);
        }
        assert(table_texts(all_rows@) == read_rows(*cfg, rows));
    }
    if all_rows.len() == 0 {
        let reading_at = join3(excel_name, "/", sheet.name.as_str());
        report.warn(concat_str("未找到有效行: ", reading_at.as_str()));
        return Ok(());
    }
    let var_idx = match find_head_row(&all_rows, &cfg.row_var_mark) {
        Some(i) => i,
        None => {
            report.warn(String::from_str("未找到 var 行"));
            return Ok(());
        },
    };
    proof {
        lemma_head_row(table_texts(all_rows@), cfg.row_var_mark@);
    }
    let keys = &all_rows[var_idx];
    if keys.len() == 0 {
        return Ok(());
    }
    let attrs: Vec<String> = match find_head_row(&all_rows, &cfg.row_attr_mark) {
        Some(i) => {
            proof {
                lemma_head_row(table_texts(all_rows@), cfg.row_attr_mark@);
            }
            let mut v: Vec<String> = Vec::new();
            let row = &all_rows[i];
            let mut j: usize = 0;
            while j < row.len()
                invariant
                    0 <= j <= row@.len(),
                    v@.len() == j,
                    forall|q: int| 0 <= q < j ==> #[trigger] v@[q] == row@[q],
                decreases row.len() - j,
            {
                v.push(row[j].clone());
                j = j + 1;
            }
            assert(texts(v@) =~= texts(row@));
            assert(texts(v@) == marked_row(table_texts(all_rows@), cfg.row_attr_mark@));
            v
        },
        None => {
            let v: Vec<String> = Vec::new();
            assert(texts(v@) =~= marked_row(table_texts(all_rows@), cfg.row_attr_mark@));
            v
        },
    };
    assert(texts(keys@) == marked_row(table_texts(all_rows@), cfg.row_var_mark@));
    let first_row = &all_rows[0];
    let mut table: Vec<SheetColumn> = Vec::new();
    let mut valid: Vec<bool> = Vec::new();
    let mut k: usize = 0;
    while k < keys.len()
        invariant
            0 <= k <= keys@.len(),
            valid@.len() == k,
            forall|i: int| 0 <= i < k ==> !#[trigger] valid@[i],
        decreases keys.len() - k,
    {
        valid.push(false);
        k = k + 1;
    }
    let ghost all = table_texts(all_rows@);
    let ghost wl = cfg.is_whitelist_mode;
    let ghost fr = texts(first_row@);
    let ghost ks = texts(keys@);
    let ghost ats = texts(attrs@);
    let ghost em = encode_map@;
    let ghost mut seen = false;
    let ghost pf = *parse_float;
    proof {
        assert(fr == all[0]);
        assert(ks == marked_row(all, cfg.row_var_mark@));
        assert(valid@ =~= Seq::new(ks.len(), |i: int| false));
        assert(table_after(*cfg, all, globals@, *default_attr, enums_map@, em, pf, 0, table@, valid@));
    }
    let mut row_i: usize = 0;
    while row_i < all_rows.len()
        invariant
            0 <= row_i <= all_rows@.len(),
            valid@.len() == keys@.len(),
            bodies_scalar(table@),
            report.excel_name == old(report).excel_name,
            report.name == old(report).name,
            report.full_name_raw == old(report).full_name_raw,
            report.full_name == old(report).full_name,
            report.is_finished == old(report).is_finished,
            has_table(*cfg, *sheet),
            all == table_texts(all_rows@),
            all == read_rows(*cfg, table_texts(sheet.rows@)),
            all.len() > 0,
            wl == cfg.is_whitelist_mode,
            fr == texts(first_row@),
            fr == all[0],
            ks == texts(keys@),
            ks == marked_row(all, cfg.row_var_mark@),
            ats == texts(attrs@),
            ats == marked_row(all, cfg.row_attr_mark@),
            em == encode_map@,
            pf == *parse_float,
            table_after(*cfg, all, globals@, *default_attr, enums_map@, em, pf, row_i as nat, table@, valid@),
            globals_of(globals@, *cfg, *default_attr, enums_map@),
            text_view(*default_attr) == default_text_view(),
            forall|k: int|
                0 <= k < table@.len() ==> (#[trigger] table@[k]).column < ks.len() && key_ok(
                    wl,
                    fr,
                    ks,
                    table@[k].column as int,
                ) && text_view(table@[k].attr) == column_view(*cfg, ks, ats, table@[k].column as int),
            seen <==> exists|r: int| 0 <= r < row_i && #[trigger] data_row(wl, all, r),
            seen ==> forall|c: int|
                0 <= c < ks.len() && #[trigger] key_ok(wl, fr, ks, c) ==> valid@[c] && exists|k: int|
                    0 <= k < table@.len() && #[trigger] table@[k].column == c,
            seen ==> forall|i: int| 0 <= i < ks.len() ==> !#[trigger] key_unreadable(wl, fr, ks, i),
            forall|r: int, c: int| 0 <= r < row_i ==> !#[trigger] cell_fails(*cfg, all, em, r, c),
            forall|x: &str| call_requires(*parse_float, (x,)),
            forall|x: &str, o: Option<Json>|
                call_ensures(*parse_float, (x,), o) ==> (o matches Some(f) ==> f.is_scalar()),
        decreases all_rows.len() - row_i,
    {
        let row = &all_rows[row_i];
        let ghost tp = table@;
        let ghost vp = valid@;
        proof {
            assert(all[row_i as int] == texts(row@));
        }
        if row.len() > 0 && is_cell_ok(cfg, row[0].as_str()) {
            assert(data_row(wl, all, row_i as int));
            let ghost t0 = table@;
            let ghost v0 = valid@;
            match add_key_columns(
                &mut table,
                &mut valid,
                report,
                keys,
                &attrs,
                first_row,
                cfg,
                globals,
                default_attr,
                enums_map,
            ) {
                Err(e) => {
                    proof {
                        let i = choose|i: int| 0 <= i < keys@.len() && #[trigger] key_unreadable(wl, fr, ks, i);
                        assert(key_unreadable(wl, all[0], ks, i));
                        assert(table_fails(*cfg, all, em));
                    }
                    return Err(e);
                },
                Ok(()) => {},
            }
            proof {
                let nk = ok_keys(wl, fr, ks, 0);
                lemma_ok_keys(wl, fr, ks, 0);
                assert forall|c: int, i: int|
                    0 <= c < table@.len() && 0 <= i < table@[c].body@.len() implies (#[trigger] table@[c].body@[i]).is_scalar() by {
                    if c < t0.len() {
                        assert(table@[c] == t0[c]);
                    } else {
                        assert(table@[t0.len() + (c - t0.len())] == table@[c]);
                    }
                }
                assert forall|k: int| 0 <= k < table@.len() implies (#[trigger] table@[k]).column < ks.len()
                    && key_ok(wl, fr, ks, table@[k].column as int) && text_view(table@[k].attr) == column_view(
                    *cfg,
                    ks,
                    ats,
                    table@[k].column as int,
                ) by {
                    if k < t0.len() {
                        assert(table@[k] == t0[k]);
                    } else {
                        let j = k - t0.len();
                        assert(table@[t0.len() + j] == table@[k]);
                        assert(new_column_for(table@[k], nk[j], ks, ats, globals@, *default_attr, enums_map@));
                        assert(nk[j] < ks.len());
                        lemma_new_column_view(table@[k], nk[j], ks, ats, globals@, *default_attr, enums_map@, *cfg);
                    }
                }
                assert forall|c: int| 0 <= c < ks.len() && #[trigger] key_ok(wl, fr, ks, c) implies valid@[c]
                    && exists|k: int| 0 <= k < table@.len() && #[trigger] table@[k].column == c by {
                    let j = choose|j: int| 0 <= j < nk.len() && #[trigger] nk[j] == c;
                    assert(table@[t0.len() + j].column == c);
                }
                assert forall|i: int| 0 <= i < ks.len() implies !#[trigger] key_unreadable(wl, fr, ks, i) by {}
                seen = true;
                assert(keys_added(*cfg, all, globals@, *default_attr, enums_map@, tp, vp, table@, valid@));
            }
            let ghost tm = table@;
            let blank = is_row_blank(row);
            if !blank && row.len() < usize::MAX && row_i < usize::MAX {
                let ghost t1 = table@;
                match add_row_cells(
                    &mut table,
                    row,
                    row_i,
                    &valid,
                    enums_map,
                    encode_map,
                    parse_float,
                ) {
                    Err(e) => {
                        proof {
                            let k = choose|k: int| #[trigger] cell_cut_fails(t1, texts(row@), valid@, em, k);
                            let c = t1[k].column as int;
                            lemma_view_cut(t1[k].attr, em, texts(row@)[c]);
                            assert(cell_fails(*cfg, all, em, row_i as int, c));
                            assert(table_fails(*cfg, all, em));
                        }
                        return Err(e);
                    },
                    Ok(()) => {},
                }
                proof {
                    assert forall|k: int| 0 <= k < table@.len() implies (#[trigger] table@[k]).column < ks.len()
                        && key_ok(wl, fr, ks, table@[k].column as int) && text_view(table@[k].attr)
                        == column_view(*cfg, ks, ats, table@[k].column as int) by {
                        assert(table@[k].column == t1[k].column);
                        if cell_target(t1, texts(row@), valid@, k) {
                            assert(text_view(table@[k].attr) == text_view(t1[k].attr));
                        }
                    }
                    assert forall|c: int| 0 <= c < ks.len() && #[trigger] key_ok(wl, fr, ks, c) implies valid@[c]
                        && exists|k: int| 0 <= k < table@.len() && #[trigger] table@[k].column == c by {
                        let k = choose|k: int| 0 <= k < t1.len() && #[trigger] t1[k].column == c;
                        assert(table@[k].column == c);
                    }
                    assert forall|r: int, c: int| 0 <= r < row_i + 1 implies !#[trigger] cell_fails(
                        *cfg,
                        all,
                        em,
                        r,
                        c,
                    ) by {
                        if r == row_i && cell_fails(*cfg, all, em, r, c) {
                            let k = choose|k: int| 0 <= k < t1.len() && #[trigger] t1[k].column == c;
                            lemma_column_index_some(t1, c as nat, k);
                            lemma_column_index(t1, c as nat);
                            let k2 = column_index(t1, c as nat)->0 as int;
                            assert(cell_target(t1, texts(row@), valid@, k2));
                            assert(!cell_cut_fails(t1, texts(row@), valid@, em, k2));
                            lemma_view_cut(t1[k2].attr, em, texts(row@)[c]);
                        }
                    }
                    assert(row_cells_added(all, row_i as int, valid@, enums_map@, em, pf, tm, table@));
                    lemma_table_after_step(*cfg, all, globals@, *default_attr, enums_map@, em, pf, row_i as nat, tp, vp, tm, table@, valid@);
                }
            } else {
                proof {
                    assert forall|r: int, c: int| 0 <= r < row_i + 1 implies !#[trigger] cell_fails(
                        *cfg,
                        all,
                        em,
                        r,
                        c,
                    ) by {
                        if r == row_i {
                            assert(blank == row_blank(all[r]));
                        }
                    }
                    assert(blank == row_blank(all[row_i as int]));
                    lemma_table_after_step(*cfg, all, globals@, *default_attr, enums_map@, em, pf, row_i as nat, tp, vp, tm, table@, valid@);
                }
            }
        } else {
            proof {
                assert(!data_row(wl, all, row_i as int));
                lemma_table_after_step(*cfg, all, globals@, *default_attr, enums_map@, em, pf, row_i as nat, tp, vp, tp, table@, valid@);
                assert forall|r: int, c: int| 0 <= r < row_i + 1 implies !#[trigger] cell_fails(
                    *cfg,
                    all,
                    em,
                    r,
                    c,
                ) by {}
            }
        }
        proof {
            assert(seen <==> exists|r: int| 0 <= r < row_i + 1 && #[trigger] data_row(wl, all, r));
            assert(table_after(*cfg, all, globals@, *default_attr, enums_map@, em, pf, (row_i + 1) as nat, table@, valid@));
        }
        row_i = row_i + 1;
    }
    proof {
        assert(!table_fails(*cfg, all, em)) by {
            if exists|r: int| #[trigger] data_row(wl, all, r) {
                let r = choose|r: int| #[trigger] data_row(wl, all, r);
                assert(0 <= r < row_i);
            }
            assert forall|r: int, c: int| !#[trigger] cell_fails(*cfg, all, em, r, c) by {
                if 0 <= r < row_i {
                } else {
                    assert(!data_row(wl, all, r));
                }
            }
        }
    }
    let (path, kind) = sheet_output(base_path, cfg, wname);
    let body = match kind {
        ContentKinds::Json => get_json_list_by_table(&table),
        ContentKinds::Csv => get_table_list_by_table(&table, ","),
        ContentKinds::Txt => get_table_list_by_table(&table, "\t"),
    };
    let var_strings = filter_ok(cfg, keys);
    let attr_strings = filter_ok(cfg, &attrs);
    assert(table_output(kind, table@, body.0@, body.1@));
    report.finish_sheet(kind, path, var_strings, attr_strings, body.0, body.1);
    assert(table_after(*cfg, all, globals@, *default_attr, enums_map@, em, pf, all.len(), table@, valid@));
    Ok(())
}

proof fn lemma_head_row(rows: Seq<Seq<Seq<char>>>, mark: Seq<char>)
    ensures
        head_row(rows, mark) matches Some(i) ==> i < rows.len() && rows[i as int].len() > 0
            && rows[i as int][0] == mark,
    decreases rows.len(),
{
    if rows.len() > 0 {
        lemma_head_row(rows.drop_first(), mark);
        if let Some(i) = head_row(rows, mark) {
            if i > 0 {
                assert(rows.drop_first()[i - 1] == rows[i as int]);
            }
        }
    }
}

// ---------------------------------------------------------------------------
// Merging the results by output path
// ---------------------------------------------------------------------------

/// The output path of a result.
pub open spec fn path_of(s: SheetResult) -> Seq<char> {
    s.output_path_string@
}

/// The output paths of `reports`, each once, in the order in which they first occur.
pub open spec fn output_paths(reports: Seq<SheetResult>) -> Seq<Seq<char>>
    decreases reports.len(),
{
    if reports.len() == 0 {
        seq![]
    } else {
        let pre = output_paths(reports.drop_last());
        if pre.contains(path_of(reports.last())) {
            pre
        } else {
            pre.push(path_of(reports.last()))
        }
    }
}

/// The rows of all results written to `path`, in order.
pub open spec fn rows_for(reports: Seq<SheetResult>, path: Seq<char>) -> Seq<Json>
    decreases reports.len(),
{
    if reports.len() == 0 {
        seq![]
    } else {
        rows_for(reports.drop_last(), path) + if path_of(reports.last()) == path {
            reports.last().rows@
        } else {
            seq![]
        }
    }
}

/// Index of the first result written to `path`.
pub open spec fn first_for(reports: Seq<SheetResult>, path: Seq<char>) -> Option<nat>
    decreases reports.len(),
{
    if reports.len() == 0 {
        None
    } else {
        match first_for(reports.drop_last(), path) {
            Some(i) => Some(i),
            None => if path_of(reports.last()) == path {
                Some((reports.len() - 1) as nat)
            } else {
                None
            },
        }
    }
}

/// The message shown when `other` is merged into `into`.
pub open spec fn merge_message(into: SheetResult, other: SheetResult) -> Seq<char> {
    "> 🔄 合并: "@ + into.full_name_raw@ + " <-> "@ + other.full_name_raw@
}

/// The merge messages for `reports`: one for each result whose output path
/// an earlier result already has, naming that earlier result first.
pub open spec fn merge_messages(reports: Seq<SheetResult>) -> Seq<Seq<char>>
    decreases reports.len(),
{
    if reports.len() == 0 {
        seq![]
    } else {
        let pre = reports.drop_last();
        let p = path_of(reports.last());
        merge_messages(pre) + match first_for(pre, p) {
            Some(f) => seq![merge_message(pre[f as int], reports.last())],
            None => seq![],
        }
    }
}

/// `e` is the merged result for its output path: the first result written
/// there, holding the rows of all results written there, in order.
pub open spec fn merged_entry(reports: Seq<SheetResult>, e: SheetResult) -> bool {
    &&& first_for(reports, path_of(e)) matches Some(f) && e == (SheetResult {
        rows: e.rows,
        ..reports[f as int]
    })
    &&& e.rows@ == rows_for(reports, path_of(e))
}

/// `merged` holds one merged result per output path of `reports`, in the
/// order in which the paths first occur.
pub open spec fn merged_by_path(reports: Seq<SheetResult>, merged: Seq<SheetResult>) -> bool {
    &&& merged.len() == output_paths(reports).len()
    &&& forall|k: int|
        0 <= k < merged.len() ==> path_of(#[trigger] merged[k]) == output_paths(reports)[k]
            && merged_entry(reports, merged[k])
}

proof fn lemma_prefix_step(all: Seq<SheetResult>, i: int)
    requires
        0 <= i < all.len(),
    ensures
        all.take(i + 1).drop_last() == all.take(i),
        all.take(i + 1).last() == all[i],
{
    assert(all.take(i + 1).drop_last() =~= all.take(i));
}

proof fn lemma_output_paths_step(all: Seq<SheetResult>, i: int)
    requires
        0 <= i < all.len(),
    ensures
        forall|q: Seq<char>|
            #[trigger] output_paths(all.take(i + 1)).contains(q) <==> (output_paths(
                all.take(i),
            ).contains(q) || q == path_of(all[i])),
{
    lemma_prefix_step(all, i);
    let pre = output_paths(all.take(i));
    let cur = output_paths(all.take(i + 1));
    assert forall|q: Seq<char>| #[trigger] cur.contains(q) <==> (pre.contains(q) || q == path_of(all[i])) by {
        if !pre.contains(path_of(all[i])) {
            assert(cur == pre.push(path_of(all[i])));
            if cur.contains(q) {
                let j = choose|j: int| 0 <= j < cur.len() && cur[j] == q;
                if j < pre.len() {
                    assert(pre[j] == q);
                }
            }
            if pre.contains(q) {
                let j = choose|j: int| 0 <= j < pre.len() && pre[j] == q;
                assert(cur[j] == q);
            }
            assert(cur[pre.len() as int] == path_of(all[i]));
        }
    }
}

proof fn lemma_first_for(reports: Seq<SheetResult>, path: Seq<char>)
    ensures
        first_for(reports, path) matches Some(f) ==> f < reports.len() && path_of(reports[f as int])
            == path,
        first_for(reports, path) is None <==> !output_paths(reports).contains(path),
        first_for(reports, path) is None ==> rows_for(reports, path) == Seq::<Json>::empty(),
    decreases reports.len(),
{
    if reports.len() > 0 {
        let pre = reports.drop_last();
        lemma_first_for(pre, path);
        if let Some(f) = first_for(pre, path) {
            assert(reports[f as int] == pre[f as int]);
        }
        let q = path_of(reports.last());
        if !output_paths(pre).contains(q) {
            if output_paths(reports).contains(path) && !output_paths(pre).contains(path) {
                let j = choose|j: int|
                    0 <= j < output_paths(reports).len() && output_paths(reports)[j] == path;
                if j < output_paths(pre).len() {
                    assert(output_paths(pre)[j] == path);
                }
            }
            if output_paths(pre).contains(path) {
                let j = choose|j: int|
                    0 <= j < output_paths(pre).len() && output_paths(pre)[j] == path;
                assert(output_paths(reports)[j] == path);
            }
        }
        if path == q {
            assert(output_paths(pre).contains(q) || output_paths(reports).last() == q);
        }
    }
}

proof fn lemma_output_paths_distinct(reports: Seq<SheetResult>)
    ensures
        output_paths(reports).no_duplicates(),
    decreases reports.len(),
{
    if reports.len() > 0 {
        lemma_output_paths_distinct(reports.drop_last());
    }
}

/// Law: merging leaves one result per output path: no two merged results
/// are written to the same file.
pub proof fn law_merged_paths_distinct(reports: Seq<SheetResult>, merged: Seq<SheetResult>, a: int, b: int)
    requires
        merged_by_path(reports, merged),
        0 <= a < b < merged.len(),
    ensures
        path_of(merged[a]) != path_of(merged[b]),
{
    lemma_output_paths_distinct(reports);
    assert(path_of(merged[a]) == output_paths(reports)[a]);
    assert(path_of(merged[b]) == output_paths(reports)[b]);
}

/// Law: every result is merged somewhere: its output path has a merged
/// result, which holds its rows.
pub proof fn law_every_result_merged(reports: Seq<SheetResult>, merged: Seq<SheetResult>, i: int)
    requires
        merged_by_path(reports, merged),
        0 <= i < reports.len(),
    ensures
        exists|k: int| 0 <= k < merged.len() && path_of(#[trigger] merged[k]) == path_of(reports[i]),
{
    lemma_path_listed(reports, i);
    let k = choose|k: int| 0 <= k < output_paths(reports).len() && output_paths(reports)[k] == path_of(reports[i]);
    assert(path_of(merged[k]) == path_of(reports[i]));
}

proof fn lemma_path_listed(reports: Seq<SheetResult>, i: int)
    requires
        0 <= i < reports.len(),
    ensures
        output_paths(reports).contains(path_of(reports[i])),
    decreases reports.len(),
{
    let pre = reports.drop_last();
    let all = output_paths(reports);
    if i < reports.len() - 1 {
        lemma_path_listed(pre, i);
        assert(pre[i] == reports[i]);
        let j = choose|j: int| 0 <= j < output_paths(pre).len() && output_paths(pre)[j] == path_of(reports[i]);
        if !output_paths(pre).contains(path_of(reports.last())) {
            assert(all[j] == output_paths(pre)[j]);
        }
    } else {
        if !output_paths(pre).contains(path_of(reports.last())) {
            assert(all[all.len() - 1] == path_of(reports.last()));
        }
    }
}

/// The step of the merge loop where `all[i]` goes into the result at `k`.
proof fn lemma_merge_into(
    all: Seq<SheetResult>,
    i: int,
    old_merged: Seq<SheetResult>,
    k: int,
    target: SheetResult,
)
    requires
        0 <= i < all.len(),
        merged_by_path(all.take(i), old_merged),
        0 <= k < old_merged.len(),
        path_of(old_merged[k]) == path_of(all[i]),
        target == (SheetResult { rows: target.rows, ..old_merged[k] }),
        target.rows@ == old_merged[k].rows@ + all[i].rows@,
    ensures
        merged_by_path(all.take(i + 1), old_merged.update(k, target)),
{
    let pre = all.take(i);
    let cur = all.take(i + 1);
    let p = path_of(all[i]);
    lemma_prefix_step(all, i);
    assert(output_paths(pre)[k] == p);
    assert(output_paths(cur) == output_paths(pre));
    lemma_output_paths_distinct(pre);
    let m = old_merged.update(k, target);
    assert forall|kk: int| 0 <= kk < m.len() implies path_of(#[trigger] m[kk]) == output_paths(cur)[kk]
        && merged_entry(cur, m[kk]) by {
        let q = path_of(old_merged[kk]);
        lemma_first_for(pre, q);
        if let Some(f) = first_for(pre, q) {
            assert(cur[f as int] == pre[f as int]);
        }
        if kk != k {
            assert(output_paths(pre)[kk] != output_paths(pre)[k]);
        }
    }
}

/// The step of the merge loop where `all[i]` starts a new result.
proof fn lemma_merge_new(all: Seq<SheetResult>, i: int, old_merged: Seq<SheetResult>)
    requires
        0 <= i < all.len(),
        merged_by_path(all.take(i), old_merged),
        !output_paths(all.take(i)).contains(path_of(all[i])),
    ensures
        merged_by_path(all.take(i + 1), old_merged.push(all[i])),
{
    let pre = all.take(i);
    let cur = all.take(i + 1);
    let p = path_of(all[i]);
    lemma_prefix_step(all, i);
    lemma_first_for(pre, p);
    assert(output_paths(cur) == output_paths(pre).push(p));
    let m = old_merged.push(all[i]);
    assert forall|kk: int| 0 <= kk < m.len() implies path_of(#[trigger] m[kk]) == output_paths(cur)[kk]
        && merged_entry(cur, m[kk]) by {
        if kk < old_merged.len() {
            let q = path_of(old_merged[kk]);
            assert(output_paths(pre)[kk] == q);
            assert(q != p);
            lemma_first_for(pre, q);
            if let Some(f) = first_for(pre, q) {
                assert(cur[f as int] == pre[f as int]);
            }
        } else {
            assert(m[kk] == all[i]);
            assert(rows_for(cur, p) =~= all[i].rows@);
        }
    }
}

/// Groups the results by output path, in the order in which the paths first
/// occur: each group is its first result, holding the rows of all results of
/// the group in order. Also gives the merge message of each result that went
/// into an earlier one.
pub fn merge_reports(reports: Vec<SheetResult>) -> (r: (Vec<SheetResult>, Vec<String>))
    ensures
        merged_by_path(reports@, r.0@),
        r.1@.map_values(|m: String| m@) == merge_messages(reports@),
{
    let ghost all = reports@;
    let mut rest = reports;
    let mut merged: Vec<SheetResult> = Vec::new();
    let mut index: StrMap<usize> = StrMap::new();
    let mut messages: Vec<String> = Vec::new();
    let ghost mut i: int = 0;
    assert(all.skip(0) =~= all);
    assert(all.take(0) =~= Seq::<SheetResult>::empty());
    assert(messages@.map_values(|m: String| m@) =~= merge_messages(all.take(0)));
    while rest.len() > 0
        invariant
            0 <= i <= all.len(),
            rest@ == all.skip(i),
            forall|q: Seq<char>|
                #[trigger] index@.contains_key(q) <==> output_paths(all.take(i)).contains(q),
            forall|q: Seq<char>|
                #[trigger] index@.contains_key(q) ==> index@[q] < merged@.len() && path_of(
                    merged@[index@[q] as int],
                ) == q,
            merged_by_path(all.take(i), merged@),
            messages@.map_values(|m: String| m@) == merge_messages(all.take(i)),
        decreases rest@.len(),
    {
        let ghost old_merged = merged@;
        assert(all.skip(i)[0] == all[i]);
        let mut sheet = rest.remove(0);
        assert(rest@ =~= all.skip(i + 1));
        proof {
            lemma_prefix_step(all, i);
            lemma_output_paths_step(all, i);
            lemma_first_for(all.take(i), path_of(all[i]));
        }
        match index.get(&sheet.output_path_string) {
            Some(kp) => {
                let k = *kp;
                let mut target = merged.remove(k);
                let head = join3("> 🔄 合并: ", target.full_name_raw.as_str(), " <-> ");
                messages.push(concat_str(head.as_str(), sheet.full_name_raw.as_str()));
                let mut taken: Vec<Json> = Vec::new();
                std::mem::swap(&mut taken, &mut sheet.rows);
                target.rows.append(&mut taken);
                merged.insert(k, target);
                proof {
                    assert(merged@ =~= old_merged.update(k as int, target));
                    lemma_merge_into(all, i, old_merged, k as int, target);
                    let f = first_for(all.take(i), path_of(all[i]))->0;
                    assert(old_merged[k as int].full_name_raw == all.take(i)[f as int].full_name_raw);
                    assert(messages@.map_values(|m: String| m@) =~= merge_messages(all.take(i + 1)));
                }
            },
            None => {
                index.insert(sheet.output_path_string.clone(), merged.len());
                merged.push(sheet);
                proof {
                    assert(merged@ =~= old_merged.push(all[i]));
                    lemma_merge_new(all, i, old_merged);
                    assert(messages@.map_values(|m: String| m@) =~= merge_messages(all.take(i + 1)));
                }
            },
        }
        proof {
            i = i + 1;
        }
    }
    assert(all.take(i) =~= all);
    (merged, messages)
}

// ---------------------------------------------------------------------------
// What is written for each result
// ---------------------------------------------------------------------------

/// `parts` with `sep` between each two.
pub open spec fn joined(parts: Seq<Seq<char>>, sep: Seq<char>) -> Seq<char>
    decreases parts.len(),
{
    if parts.len() == 0 {
        seq![]
    } else if parts.len() == 1 {
        parts[0]
    } else {
        joined(parts.drop_last(), sep) + sep + parts.last()
    }
}

/// The texts of `v`.
pub open spec fn texts_of(v: Seq<String>) -> Seq<Seq<char>> {
    v.map_values(|s: String| s@)
}

/// Joins `parts` with `sep` between each two.
pub fn join_strings(parts: &Vec<String>, sep: &str) -> (r: String)
    ensures
        r@ == joined(texts_of(parts@), sep@),
{
    let sepc = to_chars(sep);
    let mut out: Vec<char> = Vec::new();
    let mut i: usize = 0;
    assert(texts_of(parts@.take(0)) =~= Seq::<Seq<char>>::empty());
    while i < parts.len()
        invariant
            0 <= i <= parts@.len(),
            sepc@ == sep@,
            out@ == joined(texts_of(parts@.take(i as int)), sep@),
        decreases parts.len() - i,
    {
        assert(texts_of(parts@.take(i + 1)).drop_last() =~= texts_of(parts@.take(i as int)));
        assert(texts_of(parts@.take(i + 1)).last() == parts@[i as int]@);
        if i > 0 {
            push_all(&mut out, &sepc);
        } else {
            assert(texts_of(parts@.take(1)).len() == 1);
        }
        push_all(&mut out, &to_chars(parts[i].as_str()));
        i = i + 1;
    }
    assert(parts@.take(parts@.len() as int) =~= parts@);
    from_chars(&out)
}

/// The separator of the cells of a text table of `kind`.
pub open spec fn splitter_of(kind: ContentKinds) -> Seq<char> {
    match kind {
        ContentKinds::Csv => ","@,
        _ => "\t"@,
    }
}

/// The line written for an output row: its text if it is a string, else nothing.
pub open spec fn line_of(v: Json) -> Seq<char> {
    match v {
        Json::Str(s) => s@,
        _ => seq![],
    }
}

/// The text of a table result: the variable names joined by the splitter,
/// then one line per row.
pub open spec fn table_text_of(sheet: SheetResult) -> Seq<char> {
    joined(
        seq![joined(texts_of(sheet.var_strings@), splitter_of(sheet.kind))] + sheet.rows@.map_values(
            |v: Json| line_of(v),
        ),
        "\n"@,
    )
}

/// The text written for a result whose kind is CSV or TXT.
pub fn table_text(sheet: &SheetResult) -> (r: String)
    ensures
        r@ == table_text_of(*sheet),
{
    let splitter = match sheet.kind {
        ContentKinds::Csv => ",",
        _ => "\t",
    };
    proof {
        reveal_strlit(",");
        reveal_strlit("\t");
    }
    let mut lines: Vec<String> = Vec::new();
    lines.push(join_strings(&sheet.var_strings, splitter));
    let mut i: usize = 0;
    let ghost head = seq![joined(texts_of(sheet.var_strings@), splitter_of(sheet.kind))];
    assert(texts_of(lines@) =~= head + sheet.rows@.take(0).map_values(|v: Json| line_of(v)));
    while i < sheet.rows.len()
        invariant
            0 <= i <= sheet.rows@.len(),
            texts_of(lines@) == head + sheet.rows@.take(i as int).map_values(|v: Json| line_of(v)),
        decreases sheet.rows.len() - i,
    {
        let line = match &sheet.rows[i] {
            Json::Str(s) => s.clone(),
            _ => String::new(),
        };
        assert(line@ == line_of(sheet.rows@[i as int]));
        let ghost before = lines@;
        lines.push(line);
        assert(sheet.rows@.take(i + 1) =~= sheet.rows@.take(i as int).push(sheet.rows@[i as int]));
        assert(texts_of(lines@) =~= texts_of(before).push(line@));
        i = i + 1;
        assert(texts_of(lines@) =~= head + sheet.rows@.take(i as int).map_values(|v: Json| line_of(v)));
    }
    assert(sheet.rows@.take(i as int) =~= sheet.rows@);
    proof {
        reveal_strlit("\n");
    }
    join_strings(&lines, "\n")
}

/// The text of the meta file of a result: its full name, then its meta lines.
pub fn meta_text(sheet: &SheetResult) -> (r: String)
    ensures
        r@ == sheet.full_name@ + "\n"@ + joined(texts_of(sheet.meta@), "\n"@),
{
    let body = join_strings(&sheet.meta, "\n");
    join3(sheet.full_name.as_str(), "\n", body.as_str())
}

/// The path of the meta file that goes beside `output_path`.
pub open spec fn spec_meta_path(output_path: Seq<char>, meta_ext: Seq<char>) -> Seq<char> {
    let stem = match spec_path_file_stem(output_path) {
        Some(s) => s,
        None => output_path,
    };
    spec_path_with_extension(spec_path_with_file_name(output_path, "~"@ + stem), meta_ext)
}

/// The path of the meta file beside `output_path`: the file's stem behind a
/// `~`, with the extension `meta_ext`, which holds no path separator.
pub fn meta_path(output_path: &str, meta_ext: &str) -> (r: String)
    requires
        no_separator(meta_ext@),
    ensures
        r@ == spec_meta_path(output_path@, meta_ext@),
{
    let stem = match path_file_stem(output_path) {
        Some(s) => s,
        None => output_path.to_string(),
    };
    let name = concat_str("~", stem.as_str());
    proof {
        reveal_strlit("~");
    }
    let p = path_with_file_name(output_path, name.as_str());
    path_with_extension(p.as_str(), meta_ext)
}

/// Whether the output is gzip-compressed: `zip` is `gzip` in release mode.
pub open spec fn spec_should_compress(cfg: Config) -> bool {
    cfg.zip@ == "gzip"@ && cfg.mode@ == "release"@
}

/// Whether a meta file is written beside each output: in debug mode, when enabled.
pub open spec fn spec_should_write_meta(cfg: Config) -> bool {
    cfg.mode@ == "debug"@ && cfg.is_write_meta
}

/// Whether the output is gzip-compressed.
pub fn should_compress(cfg: &Config) -> (r: bool)
    ensures
        r == spec_should_compress(*cfg),
{
    str_eq(cfg.zip.as_str(), "gzip") && cfg.is_release()
}

/// Whether a meta file is written beside each output.
pub fn should_write_meta(cfg: &Config) -> (r: bool)
    ensures
        r == spec_should_write_meta(*cfg),
{
    cfg.is_debug() && cfg.is_write_meta
}

/// What flate2 writes for `data` with a `GzEncoder` at the default level.
pub uninterp spec fn spec_gzip(data: Seq<u8>) -> Seq<u8>;

/// Compresses `data` with flate2's `GzEncoder` at the default level. As
/// flate2's source shows, the stream starts with the ten-byte gzip header
/// it writes for that level: no flags, no time stamp, system byte 255.
#[verifier::external_body]
pub fn gzip_compress(data: &[u8]) -> (r: Vec<u8>)
    ensures
        r@ == spec_gzip(data@),
        r@.len() >= 10,
        r@.take(10) == seq![0x1fu8, 0x8bu8, 8u8, 0u8, 0u8, 0u8, 0u8, 0u8, 0u8, 255u8],
{
    let mut encoder = flate2::write::GzEncoder::new(Vec::new(), flate2::Compression::default());
    std::io::Write::write_all(&mut encoder, data).unwrap();
    encoder.finish().unwrap()
}

/// The bytes written for `text`: its UTF-8 encoding, gzip-compressed where
/// the settings ask for it.
pub fn output_data(cfg: &Config, text: &str) -> (r: Vec<u8>)
    ensures
        r@ == if spec_should_compress(*cfg) {
            spec_gzip(vstd::utf8::encode_utf8(text@))
        } else {
            vstd::utf8::encode_utf8(text@)
        },
{
    if should_compress(cfg) {
        gzip_compress(text.as_bytes())
    } else {
        text.as_bytes_vec()
    }
}

/// Whether JSON is written pretty-printed: in every mode but `release`.
pub open spec fn spec_json_pretty(cfg: Config) -> bool {
    !(cfg.mode@ == "release"@)
}

/// Whether JSON is written pretty-printed (see [`spec_json_pretty`]).
pub fn json_pretty(cfg: &Config) -> (r: bool)
    ensures
        r == spec_json_pretty(*cfg),
{
    !cfg.is_release()
}

/// The text written for a finished sheet: `json_text`, the JSON array of its
/// rows, for a JSON sheet; its table text for any other.
pub open spec fn spec_output_text(sheet: SheetResult, json_text: Seq<char>) -> Seq<char> {
    if sheet.kind == ContentKinds::Json {
        json_text
    } else {
        table_text_of(sheet)
    }
}

/// The bytes written for a finished sheet: its text (see
/// [`spec_output_text`]), compressed where [`spec_should_compress`] says.
pub open spec fn spec_sheet_bytes(cfg: Config, sheet: SheetResult, json_text: Seq<char>) -> Seq<u8> {
    let text = spec_output_text(sheet, json_text);
    if spec_should_compress(cfg) {
        spec_gzip(vstd::utf8::encode_utf8(text))
    } else {
        vstd::utf8::encode_utf8(text)
    }
}

/// The bytes written for a finished sheet, given the JSON text of its rows
/// (written pretty or compact as [`json_pretty`] says; not read for a sheet
/// of another kind).
pub fn sheet_bytes(cfg: &Config, sheet: &SheetResult, json_text: &str) -> (r: Vec<u8>)
    ensures
        r@ == spec_sheet_bytes(*cfg, *sheet, json_text@),
{
    if sheet.kind == ContentKinds::Json {
        output_data(cfg, json_text)
    } else {
        let text = table_text(sheet);
        output_data(cfg, text.as_str())
    }
}

/// The positions of the results that are written: the finished ones, in
/// order.
pub open spec fn finished_positions(sheets: Seq<SheetResult>) -> Seq<int> {
    Seq::new(sheets.len(), |i: int| i).filter(|i: int| sheets[i].is_finished)
}

/// The positions of the results that are written (see
/// [`finished_positions`]); an unfinished result is never written.
pub fn sheets_to_write(merged: &Vec<SheetResult>) -> (r: Vec<usize>)
    ensures
        r@.map_values(|k: usize| k as int) == finished_positions(merged@),
{
    let ghost idx = Seq::new(merged@.len(), |i: int| i);
    let mut out: Vec<usize> = Vec::new();
    let mut i: usize = 0;
    assert(idx.take(0) =~= Seq::<int>::empty());
    while i < merged.len()
        invariant
            0 <= i <= merged@.len(),
            idx == Seq::new(merged@.len(), |i: int| i),
            out@.map_values(|k: usize| k as int) == idx.take(i as int).filter(
                |k: int| merged@[k].is_finished,
            ),
        decreases merged.len() - i,
    {
        let ghost before = out@;
        assert(idx.take(i + 1).drop_last() =~= idx.take(i as int));
        assert(idx.take(i + 1).last() == i as int);
        reveal_with_fuel(Seq::<_>::filter, 1);
        if merged[i].is_finished {
            out.push(i);
            assert(out@.map_values(|k: usize| k as int) =~= before.map_values(|k: usize| k as int).push(
                i as int,
            ));
        }
        i = i + 1;
    }
    assert(idx.take(merged@.len() as int) =~= idx);
    out
}

/// The message for a result that was never finished and is not written.
pub fn unfinished_message(sheet: &SheetResult) -> (r: String)
    ensures
        r@ == "> ⚠️ 跳过未完成表格: "@ + sheet.full_name@,
{
    concat_str("> ⚠️ 跳过未完成表格: ", sheet.full_name.as_str())
}

/// The file that a setting `x` names under `base_dir`, cleaned: `None` when
/// the setting is empty.
pub fn ensure_path_target(base_dir: &str, x: &str) -> (r: Option<String>)
    ensures
        x@.len() == 0 ==> r is None,
        x@.len() > 0 ==> (r matches Some(p) && p@ == spec_path_clean(spec_path_join(base_dir@, x@))),
{
    if x.is_empty() {
        return None;
    }
    let joined = path_join(base_dir, x);
    Some(path_clean(joined.as_str()))
}

} // verus!
