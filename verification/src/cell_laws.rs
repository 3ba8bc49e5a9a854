//! Laws of column attributes and of the typing of cells.
use vstd::prelude::*;
use crate::cell_helper::{
    bool_text, final_cell_type, last_value, parsed_attr, spec_cell_json, spec_urlencoded_pairs, CellTypes, TheadAttr,
};
use crate::json::JsonV;
use crate::str_map::StrMap;
use crate::text::{all_ascii, ascii_lowercase, spec_lower, spec_parse_i64};

verus! {

proof fn lemma_last_value_at(ps: Seq<(Seq<char>, Seq<char>)>, key: Seq<char>, i: int)
    requires
        0 <= i < ps.len(),
        ps[i].0 == key,
        forall|j: int| i < j < ps.len() ==> (#[trigger] ps[j]).0 != key,
    ensures
        last_value(ps, key) == Some(ps[i].1),
    decreases ps.len(),
{
    if i < ps.len() - 1 {
        assert(ps[ps.len() - 1].0 != key);
        assert forall|j: int| i < j < ps.drop_last().len() implies (#[trigger] ps.drop_last()[j]).0 != key by {
            assert(ps.drop_last()[j] == ps[j]);
        }
        assert(ps.drop_last()[i] == ps[i]);
        lemma_last_value_at(ps.drop_last(), key, i);
    }
}

proof fn lemma_last_value_none(ps: Seq<(Seq<char>, Seq<char>)>, key: Seq<char>)
    requires
        forall|j: int| 0 <= j < ps.len() ==> (#[trigger] ps[j]).0 != key,
    ensures
        last_value(ps, key) is None,
    decreases ps.len(),
{
    if ps.len() > 0 {
        assert(ps[ps.len() - 1].0 != key);
        assert forall|j: int| 0 <= j < ps.drop_last().len() implies (#[trigger] ps.drop_last()[j]).0 != key by {
            assert(ps.drop_last()[j] == ps[j]);
        }
        lemma_last_value_none(ps.drop_last(), key);
    }
}

/// Law: a column's attribute text that gives `ignore=v` makes `v` the
/// column's ignored value, the last `ignore` given winning; a text that
/// gives none keeps the ignored value of the default attributes.
pub proof fn law_ignore_attribute(
    r: TheadAttr,
    text: Seq<char>,
    default_attr: TheadAttr,
    enums: Map<Seq<char>, StrMap<i64>>,
    i: int,
)
    requires
        parsed_attr(r, text, default_attr, enums),
    ensures
        ({
            let ps = spec_urlencoded_pairs(text);
            0 <= i < ps.len() && ps[i].0 == "ignore"@ && (forall|j: int|
                i < j < ps.len() ==> (#[trigger] ps[j]).0 != "ignore"@) ==> (r.ignore matches Some(x) && x@
                == ps[i].1)
        }),
        (forall|j: int|
            0 <= j < spec_urlencoded_pairs(text).len() ==> (#[trigger] spec_urlencoded_pairs(text)[j]).0
                != "ignore"@) ==> r.ignore == default_attr.ignore,
{
    let ps = spec_urlencoded_pairs(text);
    if 0 <= i < ps.len() && ps[i].0 == "ignore"@ && (forall|j: int| i < j < ps.len() ==> (#[trigger] ps[j]).0 != "ignore"@) {
        lemma_last_value_at(ps, "ignore"@, i);
    }
    if forall|j: int| 0 <= j < ps.len() ==> (#[trigger] ps[j]).0 != "ignore"@ {
        lemma_last_value_none(ps, "ignore"@);
    }
}

/// Law: in a `bool` or `bool?` column, a cell whose text is `0`, or `false`
/// in any letter case, is the JSON value `false`; so is an empty cell of a
/// `bool` column.
pub proof fn law_false_cells_are_false(
    attr: TheadAttr,
    enums: Map<Seq<char>, StrMap<i64>>,
    s: Seq<char>,
    float_json: Option<JsonV>,
)
    requires
        attr.cell_type == CellTypes::Bool || attr.cell_type == CellTypes::NullableBool,
        s == "0"@ || (all_ascii(s) && ascii_lowercase(s) == "false"@) || (s.len() == 0 && attr.cell_type
            == CellTypes::Bool),
    ensures
        spec_cell_json(attr, enums, s, float_json) == (attr.cell_type, JsonV::Bool(false)),
{
    reveal_strlit("0");
    reveal_strlit("false");
    reveal_strlit("true");
    reveal_strlit("null");
    assert(final_cell_type(attr.cell_type, spec_parse_i64(s) is Some || float_json is Some) == attr.cell_type);
    if s == "0"@ {
        assert(all_ascii(s));
        assert(ascii_lowercase(s) =~= s);
        assert(spec_lower(s) == s);
        assert(s != "null"@);
        assert(bool_text(s) == false);
    } else if s.len() == 0 {
        assert(ascii_lowercase(s).len() == 0);
        assert("false"@.len() == 5);
        assert(attr.cell_type == CellTypes::Bool);
    } else {
        assert(spec_lower(s) == "false"@);
        assert(s.len() == 5);
        assert("false"@ != "null"@);
        assert("false"@ != "true"@);
        assert(s != "0"@);
        assert(bool_text(s) == false);
    }
}

/// Whether the `i`-th pair of `ps` is the last one for `key`.
pub open spec fn given_last(ps: Seq<(Seq<char>, Seq<char>)>, key: Seq<char>, i: int) -> bool {
    &&& 0 <= i < ps.len()
    &&& ps[i].0 == key
    &&& forall|j: int| i < j < ps.len() ==> (#[trigger] ps[j]).0 != key
}

/// Whether no pair of `ps` is for `key`.
pub open spec fn not_given(ps: Seq<(Seq<char>, Seq<char>)>, key: Seq<char>) -> bool {
    forall|j: int| 0 <= j < ps.len() ==> (#[trigger] ps[j]).0 != key
}

/// The text that the column attributes `r` hold for the attribute named
/// `key` (`default`, `conv`, `encode`, `prefix`, `suffix`; any other name
/// stands for `type`).
pub open spec fn attr_text(r: TheadAttr, key: Seq<char>) -> Seq<char> {
    if key == "default"@ {
        r.cell_default@
    } else if key == "conv"@ {
        r.conv@
    } else if key == "encode"@ {
        r.encode@
    } else if key == "prefix"@ {
        r.prefix@
    } else if key == "suffix"@ {
        r.suffix@
    } else {
        r.cell_type_raw@
    }
}

/// Law: each text attribute of a column (`default`, `conv`, `encode`,
/// `prefix`, `suffix`, and the `type` name) is the last value that the
/// attribute text gives for it, and the default attributes' value when it
/// gives none; `cut` is the number given last (0 when it does not read as
/// one), and the default's when none is given.
pub proof fn law_text_attributes(
    r: TheadAttr,
    text: Seq<char>,
    default_attr: TheadAttr,
    enums: Map<Seq<char>, StrMap<i64>>,
    key: Seq<char>,
    i: int,
)
    requires
        parsed_attr(r, text, default_attr, enums),
        key == "default"@ || key == "conv"@ || key == "encode"@ || key == "prefix"@ || key == "suffix"@
            || key == "type"@,
    ensures
        given_last(spec_urlencoded_pairs(text), key, i) ==> attr_text(r, key) == spec_urlencoded_pairs(
            text,
        )[i].1,
        not_given(spec_urlencoded_pairs(text), key) ==> attr_text(r, key) == attr_text(default_attr, key),
        given_last(spec_urlencoded_pairs(text), "cut"@, i) ==> r.cut == (match crate::text::spec_parse_usize(
            spec_urlencoded_pairs(text)[i].1,
        ) {
            Some(n) => n,
            None => 0,
        }),
        not_given(spec_urlencoded_pairs(text), "cut"@) ==> r.cut == default_attr.cut,
{
    let ps = spec_urlencoded_pairs(text);
    if given_last(ps, key, i) {
        lemma_last_value_at(ps, key, i);
    } else if not_given(ps, key) {
        lemma_last_value_none(ps, key);
    }
    if given_last(ps, "cut"@, i) {
        lemma_last_value_at(ps, "cut"@, i);
    } else if not_given(ps, "cut"@) {
        lemma_last_value_none(ps, "cut"@);
    }
}

/// Law: in a `bool` or `bool?` column, a non-empty cell whose text is none
/// of `0`, `false` (in any letter case) and, for `bool?`, `null`, is the JSON
/// value `true`; in a `bool?` column `null` in any letter case is JSON null.
pub proof fn law_other_bool_cells(
    attr: TheadAttr,
    enums: Map<Seq<char>, StrMap<i64>>,
    s: Seq<char>,
    float_json: Option<JsonV>,
)
    requires
        attr.cell_type == CellTypes::Bool || attr.cell_type == CellTypes::NullableBool,
        all_ascii(s),
        s.len() > 0,
    ensures
        s != "0"@ && ascii_lowercase(s) != "false"@ && !(attr.cell_type == CellTypes::NullableBool
            && ascii_lowercase(s) == "null"@) ==> spec_cell_json(attr, enums, s, float_json) == (
            attr.cell_type,
            JsonV::Bool(true),
        ),
        attr.cell_type == CellTypes::NullableBool && ascii_lowercase(s) == "null"@ ==> spec_cell_json(
            attr,
            enums,
            s,
            float_json,
        ) == (attr.cell_type, JsonV::Null),
{
    reveal_strlit("0");
    reveal_strlit("false");
    reveal_strlit("true");
    reveal_strlit("null");
    assert(final_cell_type(attr.cell_type, spec_parse_i64(s) is Some || float_json is Some) == attr.cell_type);
    assert(spec_lower(s) == ascii_lowercase(s));
}


/// Law: a non-empty cell of a `string` column is its text as a JSON string;
/// a cell whose text reads as a 64-bit integer is that integer in a
/// `number` or `number?` column, and in a column of no declared type, which
/// it makes a `number` column; a cell of a column of no declared type that
/// reads as no number is its text as a JSON string, typed `string`.
pub proof fn law_string_and_number_cells(
    attr: TheadAttr,
    enums: Map<Seq<char>, StrMap<i64>>,
    s: Seq<char>,
    float_json: Option<JsonV>,
)
    ensures
        attr.cell_type == CellTypes::String && s.len() > 0 ==> spec_cell_json(attr, enums, s, float_json) == (
            CellTypes::String,
            JsonV::Str(s),
        ),
        (attr.cell_type == CellTypes::Number || attr.cell_type == CellTypes::Unknown) && spec_parse_i64(s)
            is Some ==> spec_cell_json(
            attr,
            enums,
            s,
            float_json,
        ) == (
            if attr.cell_type == CellTypes::Unknown {
                CellTypes::Number
            } else {
                attr.cell_type
            },
            JsonV::Int(spec_parse_i64(s)->0 as int),
        ),
        attr.cell_type == CellTypes::Unknown && spec_parse_i64(s) is None && float_json is None && s.len() > 0
            ==> spec_cell_json(attr, enums, s, float_json) == (CellTypes::String, JsonV::Str(s)),
{
}

} // verus!
