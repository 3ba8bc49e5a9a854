//! Column attributes and the conversion of a cell's text to a JSON value.
use vstd::prelude::*;
use vstd::utf8::{decode_utf8, encode_utf8, is_char_boundary};
use crate::hash::{fnv1a32, spec_fnv1a32};
use crate::json::{Json, JsonV};
use crate::str_map::StrMap;
use crate::text::{
    concat_str, from_chars, i64_to_decimal, i64_to_upper_hex, int_decimal, nat_digits, parse_i64,
    parse_i64_hex, parse_usize, replace_all, replace_chars, spec_parse_i64, spec_parse_i64_hex,
    spec_parse_usize, spec_lower, split_chars, split_on, str_eq, sub_chars, to_chars,
    to_lowercase, trim, trim_chars, u64_to_decimal,
};

verus! {

// ---------------------------------------------------------------------------
// Case conversions (heck)
// ---------------------------------------------------------------------------

/// `s` in lower camel case, as heck's `ToLowerCamelCase` writes it.
pub uninterp spec fn spec_lower_camel_case(s: Seq<char>) -> Seq<char>;

/// `s` in upper camel (Pascal) case, as heck's `ToUpperCamelCase` writes it.
pub uninterp spec fn spec_upper_camel_case(s: Seq<char>) -> Seq<char>;

/// `s` in snake case, as heck's `ToSnakeCase` writes it.
pub uninterp spec fn spec_snake_case(s: Seq<char>) -> Seq<char>;

/// Calls heck's `to_lower_camel_case`; the result is named by [`spec_lower_camel_case`].
#[verifier::external_body]
pub(crate) fn lower_camel_case(s: &str) -> (r: String)
    ensures
        r@ == spec_lower_camel_case(s@),
{
    heck::ToLowerCamelCase::to_lower_camel_case(s)
}

/// Calls heck's `to_upper_camel_case`; the result is named by [`spec_upper_camel_case`].
#[verifier::external_body]
pub(crate) fn upper_camel_case(s: &str) -> (r: String)
    ensures
        r@ == spec_upper_camel_case(s@),
{
    heck::ToUpperCamelCase::to_upper_camel_case(s)
}

/// Calls heck's `to_snake_case`; the result is named by [`spec_snake_case`].
#[verifier::external_body]
pub(crate) fn snake_case(s: &str) -> (r: String)
    ensures
        r@ == spec_snake_case(s@),
{
    heck::ToSnakeCase::to_snake_case(s)
}

// ---------------------------------------------------------------------------
// Converters
// ---------------------------------------------------------------------------

/// The name of a converter as it is matched: underscores removed, lower case.
pub open spec fn conv_key(conv: Seq<char>) -> Seq<char> {
    spec_lower(replace_all(conv, seq!['_'], seq![]))
}

/// Upper-case hexadecimal text of the two's complement bits of `v`.
pub open spec fn upper_hex(v: int) -> Seq<char> {
    nat_digits((if v < 0 { v + 0x1_0000_0000_0000_0000int } else { v }) as nat, 16)
}

/// What the converter `conv` makes of `s`: `fnv1a32` hashes its UTF-8 bytes,
/// `hex` reads hexadecimal and writes decimal, `dec` reads decimal and writes
/// upper-case hexadecimal (unreadable numbers stay as they are), the case
/// converters rename, anything else leaves `s` unchanged.
pub open spec fn spec_str_converter(conv: Seq<char>, s: Seq<char>) -> Seq<char> {
    let k = conv_key(conv);
    if k == "fnv1a32"@ {
        int_decimal(spec_fnv1a32(encode_utf8(s)) as int)
    } else if k == "hex"@ {
        match spec_parse_i64_hex(s) {
            Some(v) => int_decimal(v as int),
            None => s,
        }
    } else if k == "dec"@ {
        match spec_parse_i64(s) {
            Some(v) => upper_hex(v as int),
            None => s,
        }
    } else if k == "camelcase"@ {
        spec_lower_camel_case(s)
    } else if k == "pascalcase"@ {
        spec_upper_camel_case(s)
    } else if k == "snakecase"@ {
        spec_snake_case(s)
    } else {
        s
    }
}

/// Converts `s` with the converter named `conv` (case and underscores ignored).
pub fn str_converter(conv: &str, s: &str) -> (r: String)
    ensures
        r@ == spec_str_converter(conv@, s@),
{
    let conv_chars = to_chars(conv);
    let pat: Vec<char> = vec!['_'];
    let rep: Vec<char> = Vec::new();
    assert(pat@ =~= seq!['_']);
    assert(rep@ =~= Seq::<char>::empty());
    let stripped = replace_chars(&conv_chars, &pat, &rep);
    let stripped_s = from_chars(&stripped);
    let key = to_lowercase(stripped_s.as_str());
    let k = key.as_str();
    if str_eq(k, "fnv1a32") {
        let h = fnv1a32(s.as_bytes());
        u64_to_decimal(h as u64)
    } else if str_eq(k, "hex") {
        match parse_i64_hex(s) {
            Some(v) => i64_to_decimal(v),
            None => String::from_str(s),
        }
    } else if str_eq(k, "dec") {
        match parse_i64(s) {
            Some(v) => i64_to_upper_hex(v),
            None => String::from_str(s),
        }
    } else if str_eq(k, "camelcase") {
        lower_camel_case(s)
    } else if str_eq(k, "pascalcase") {
        upper_camel_case(s)
    } else if str_eq(k, "snakecase") {
        snake_case(s)
    } else {
        String::from_str(s)
    }
}

// ---------------------------------------------------------------------------
// Cell types
// ---------------------------------------------------------------------------

/// The declared type of a column.
#[derive(Copy, Clone, PartialEq, Eq, Structural, Debug)]
pub enum CellTypes {
    Unknown,
    String,
    NullableString,
    Number,
    NullableNumber,
    Bool,
    NullableBool,
    Enum,
}

impl Default for CellTypes {
    fn default() -> (r: Self)
        ensures
            r == CellTypes::Unknown,
    {
        CellTypes::Unknown
    }
}

/// The type that a `type=` attribute names.
pub open spec fn spec_cell_type(name: Seq<char>, enums: Map<Seq<char>, StrMap<i64>>) -> CellTypes {
    if name == "string"@ {
        CellTypes::String
    } else if name == "string?"@ {
        CellTypes::NullableString
    } else if name == "number"@ {
        CellTypes::Number
    } else if name == "number?"@ {
        CellTypes::NullableNumber
    } else if name == "bool"@ {
        CellTypes::Bool
    } else if name == "bool?"@ {
        CellTypes::NullableBool
    } else if enums.contains_key(name) {
        CellTypes::Enum
    } else {
        CellTypes::Unknown
    }
}

/// The type that a `type=` attribute names: one of the built-in names, the
/// name of a defined enum, or unknown.
pub fn get_cell_type_by_name(name: &str, enum_map: &StrMap<StrMap<i64>>) -> (r: CellTypes)
    ensures
        r == spec_cell_type(name@, enum_map@),
{
    if str_eq(name, "string") {
        CellTypes::String
    } else if str_eq(name, "string?") {
        CellTypes::NullableString
    } else if str_eq(name, "number") {
        CellTypes::Number
    } else if str_eq(name, "number?") {
        CellTypes::NullableNumber
    } else if str_eq(name, "bool") {
        CellTypes::Bool
    } else if str_eq(name, "bool?") {
        CellTypes::NullableBool
    } else if enum_map.contains_key(&String::from_str(name)) {
        CellTypes::Enum
    } else {
        CellTypes::Unknown
    }
}

/// The value of an empty cell of type `t`.
pub open spec fn spec_default_json(t: CellTypes) -> JsonV {
    match t {
        CellTypes::String => JsonV::Str(seq![]),
        CellTypes::NullableString => JsonV::Null,
        CellTypes::Number => JsonV::Int(0),
        CellTypes::NullableNumber => JsonV::Null,
        CellTypes::Bool => JsonV::Bool(false),
        CellTypes::NullableBool => JsonV::Null,
        _ => JsonV::Str(seq![]),
    }
}

/// The value of an empty cell of type `c_type`.
pub fn get_default_json_by_cell_type(c_type: CellTypes) -> (r: Json)
    ensures
        r.model() == spec_default_json(c_type),
        r.is_scalar(),
{
    match c_type {
        CellTypes::String => Json::Str(String::new()),
        CellTypes::NullableString => Json::Null,
        CellTypes::Number => Json::Int(0),
        CellTypes::NullableNumber => Json::Null,
        CellTypes::Bool => Json::Bool(false),
        CellTypes::NullableBool => Json::Null,
        _ => Json::Str(String::new()),
    }
}

// ---------------------------------------------------------------------------
// Column attributes
// ---------------------------------------------------------------------------

/// The attributes of a column, read from its `##attr` cell.
pub struct TheadAttr {
    pub raw: String,
    pub cell_type_raw: String,
    pub cell_type: CellTypes,
    pub cell_enum_type: String,
    pub cell_default: String,
    pub conv: String,
    pub encode: String,
    pub prefix: String,
    pub suffix: String,
    pub ignore: Option<String>,
    pub cut: usize,
}

impl Default for TheadAttr {
    fn default() -> (r: Self)
        ensures
            r.raw@ == Seq::<char>::empty(),
            r.cell_type_raw@ == Seq::<char>::empty(),
            r.cell_type == CellTypes::Unknown,
            r.cell_enum_type@ == Seq::<char>::empty(),
            r.cell_default@ == Seq::<char>::empty(),
            r.conv@ == Seq::<char>::empty(),
            r.encode@ == Seq::<char>::empty(),
            r.prefix@ == Seq::<char>::empty(),
            r.suffix@ == Seq::<char>::empty(),
            r.ignore is None,
            r.cut == 0,
    {
        TheadAttr {
            raw: String::new(),
            cell_type_raw: String::new(),
            cell_type: CellTypes::Unknown,
            cell_enum_type: String::new(),
            cell_default: String::new(),
            conv: String::new(),
            encode: String::new(),
            prefix: String::new(),
            suffix: String::new(),
            ignore: None,
            cut: 0,
        }
    }
}

impl TheadAttr {
    /// A copy of these attributes.
    pub fn copy(&self) -> (r: Self)
        ensures
            r == *self,
    {
        TheadAttr {
            raw: self.raw.clone(),
            cell_type_raw: self.cell_type_raw.clone(),
            cell_type: self.cell_type,
            cell_enum_type: self.cell_enum_type.clone(),
            cell_default: self.cell_default.clone(),
            conv: self.conv.clone(),
            encode: self.encode.clone(),
            prefix: self.prefix.clone(),
            suffix: self.suffix.clone(),
            ignore: match &self.ignore {
                Some(s) => Some(s.clone()),
                None => None,
            },
            cut: self.cut,
        }
    }
}

/// The `key=value` pairs of `application/x-www-form-urlencoded` text, decoded,
/// as the url crate's `form_urlencoded::parse` yields them.
pub uninterp spec fn spec_urlencoded_pairs(s: Seq<char>) -> Seq<(Seq<char>, Seq<char>)>;

/// Calls `form_urlencoded::parse` (url crate) and collects the decoded pairs.
#[verifier::external_body]
pub(crate) fn urlencoded_pairs(s: &str) -> (r: Vec<(String, String)>)
    ensures
        r@.len() == spec_urlencoded_pairs(s@).len(),
        forall|i: int|
            0 <= i < r@.len() ==> (#[trigger] r@[i]).0@ == spec_urlencoded_pairs(s@)[i].0
                && r@[i].1@ == spec_urlencoded_pairs(s@)[i].1,
{
    url::form_urlencoded::parse(s.as_bytes()).into_owned().collect()
}

/// The value of the last pair named `key`, as collecting the pairs into a map keeps it.
pub open spec fn last_value(ps: Seq<(Seq<char>, Seq<char>)>, key: Seq<char>) -> Option<Seq<char>>
    decreases ps.len(),
{
    if ps.len() == 0 {
        None
    } else if ps.last().0 == key {
        Some(ps.last().1)
    } else {
        last_value(ps.drop_last(), key)
    }
}

fn find_last_value(ps: &Vec<(String, String)>, key: &str) -> (r: Option<String>)
    ensures
        r matches Some(v) ==> last_value(pair_views(ps@), key@) == Some(v@),
        r is None ==> last_value(pair_views(ps@), key@) is None,
{
    let mut i: usize = ps.len();
    assert(pair_views(ps@).take(i as int) =~= pair_views(ps@));
    while i > 0
        invariant
            0 <= i <= ps@.len(),
            last_value(pair_views(ps@), key@) == last_value(pair_views(ps@).take(i as int), key@),
        decreases i,
    {
        let ghost pv = pair_views(ps@).take(i as int);
        assert(pv.last() == pair_views(ps@)[i - 1]);
        assert(pv.drop_last() =~= pair_views(ps@).take(i - 1));
        if str_eq(ps[i - 1].0.as_str(), key) {
            return Some(ps[i - 1].1.clone());
        }
        i = i - 1;
    }
    None
}

/// The pairs with their texts as character sequences.
pub open spec fn pair_views(ps: Seq<(String, String)>) -> Seq<(Seq<char>, Seq<char>)> {
    Seq::new(ps.len(), |i: int| (ps[i].0@, ps[i].1@))
}

/// A text attribute: the value given in `ps`, or the default.
pub open spec fn attr_or(ps: Seq<(Seq<char>, Seq<char>)>, key: Seq<char>, default: Seq<char>) -> Seq<
    char,
> {
    match last_value(ps, key) {
        Some(v) => v,
        None => default,
    }
}

/// Whether `r` is what reading the attribute text `attr_str` over
/// `default_attr` gives: each attribute that the text gives replaces the
/// default, every other one (`cut` too) is the default's; `cut` is a byte
/// count (0 when unreadable).
pub open spec fn parsed_attr(
    r: TheadAttr,
    attr_str: Seq<char>,
    default_attr: TheadAttr,
    enums: Map<Seq<char>, StrMap<i64>>,
) -> bool {
    let ps = spec_urlencoded_pairs(attr_str);
    let t = attr_or(ps, "type"@, default_attr.cell_type_raw@);
    &&& r.raw@ == attr_str
    &&& r.cell_type_raw@ == t
    &&& r.cell_type == spec_cell_type(t, enums)
    &&& r.cell_enum_type@ == (if spec_cell_type(t, enums) == CellTypes::Enum {
        t
    } else {
        Seq::<char>::empty()
    })
    &&& r.cell_default@ == attr_or(ps, "default"@, default_attr.cell_default@)
    &&& r.conv@ == attr_or(ps, "conv"@, default_attr.conv@)
    &&& r.encode@ == attr_or(ps, "encode"@, default_attr.encode@)
    &&& r.prefix@ == attr_or(ps, "prefix"@, default_attr.prefix@)
    &&& r.suffix@ == attr_or(ps, "suffix"@, default_attr.suffix@)
    &&& match last_value(ps, "ignore"@) {
        Some(v) => r.ignore matches Some(x) && x@ == v,
        None => r.ignore == default_attr.ignore,
    }
    &&& r.cut == match last_value(ps, "cut"@) {
        Some(v) => match spec_parse_usize(v) {
            Some(n) => n,
            None => 0,
        },
        None => default_attr.cut,
    }
}

/// Reads a column's attribute text (`type=number&default=0&...`) over the
/// defaults in `default_attr`: each attribute that the text gives replaces
/// the default; `cut` is a byte count (0 when unreadable).
pub fn parse_attr(attr_str: &str, default_attr: &TheadAttr, enum_map: &StrMap<StrMap<i64>>) -> (r:
    TheadAttr)
    ensures
        parsed_attr(r, attr_str@, *default_attr, enum_map@),
{
    let pairs = urlencoded_pairs(attr_str);
    proof {
        assert(pair_views(pairs@) =~= spec_urlencoded_pairs(attr_str@));
    }
    let attr_type = match find_last_value(&pairs, "type") {
        Some(v) => v,
        None => default_attr.cell_type_raw.clone(),
    };
    let attr_cell_type = get_cell_type_by_name(attr_type.as_str(), enum_map);
    let cell_enum_type = if attr_cell_type == CellTypes::Enum {
        attr_type.clone()
    } else {
        String::new()
    };
    let cell_default = match find_last_value(&pairs, "default") {
        Some(v) => v,
        None => default_attr.cell_default.clone(),
    };
    let conv = match find_last_value(&pairs, "conv") {
        Some(v) => v,
        None => default_attr.conv.clone(),
    };
    let encode = match find_last_value(&pairs, "encode") {
        Some(v) => v,
        None => default_attr.encode.clone(),
    };
    let prefix = match find_last_value(&pairs, "prefix") {
        Some(v) => v,
        None => default_attr.prefix.clone(),
    };
    let suffix = match find_last_value(&pairs, "suffix") {
        Some(v) => v,
        None => default_attr.suffix.clone(),
    };
    let ignore = match find_last_value(&pairs, "ignore") {
        Some(v) => Some(v),
        None => match &default_attr.ignore {
            Some(s) => Some(s.clone()),
            None => None,
        },
    };
    let cut = match find_last_value(&pairs, "cut") {
        Some(v) => match parse_usize(v.as_str()) {
            Some(n) => n,
            None => 0,
        },
        None => default_attr.cut,
    };
    TheadAttr {
        raw: String::from_str(attr_str),
        cell_type_raw: attr_type,
        cell_type: attr_cell_type,
        cell_enum_type,
        cell_default,
        conv,
        encode,
        prefix,
        suffix,
        ignore,
        cut,
    }
}

// ---------------------------------------------------------------------------
// Cell conversion
// ---------------------------------------------------------------------------

/// The first `cut` bytes of the UTF-8 encoding of `s`, as text.
pub open spec fn cut_text(s: Seq<char>, cut: nat) -> Seq<char> {
    decode_utf8(encode_utf8(s).subrange(0, cut as int))
}

/// The text after the custom encoding table: the table's entry when the
/// column asks for `encode=custom` and the table has one.
pub open spec fn encoded_text(attr: TheadAttr, encode_map: Map<Seq<char>, String>, s: Seq<char>) -> Seq<char> {
    if attr.encode@ == "custom"@ && encode_map.contains_key(s) {
        encode_map[s]@
    } else {
        s
    }
}

/// The cell text before it is cut: prefix and suffix added, converted, encoded.
pub open spec fn uncut_cell_text(attr: TheadAttr, encode_map: Map<Seq<char>, String>, input: Seq<char>) -> Seq<char> {
    encoded_text(attr, encode_map, spec_str_converter(attr.conv@, attr.prefix@ + input + attr.suffix@))
}

/// Whether the cut of a column falls between characters of this cell (the
/// reader slices bytes and fails otherwise).
pub open spec fn cut_ok(attr: TheadAttr, encode_map: Map<Seq<char>, String>, input: Seq<char>) -> bool {
    attr.cut == 0 || is_char_boundary(encode_utf8(uncut_cell_text(attr, encode_map, input)), attr.cut as int)
}

/// The final text of a cell: prefixed, suffixed, converted, encoded and cut.
pub open spec fn spec_cell_text(attr: TheadAttr, encode_map: Map<Seq<char>, String>, input: Seq<char>) -> Seq<char> {
    let s = uncut_cell_text(attr, encode_map, input);
    if attr.cut > 0 {
        cut_text(s, attr.cut as nat)
    } else {
        s
    }
}

#[verifier::external_body]
fn str_is_char_boundary(s: &str, index: usize) -> (r: bool)
    ensures
        r == is_char_boundary(encode_utf8(s@), index as int),
{
    s.is_char_boundary(index)
}

/// The final text of a cell (steps before typing): `prefix + input + suffix`,
/// converted with `conv`, looked up in the custom table when `encode=custom`,
/// and cut to `cut` bytes when `cut > 0`.  `None` when the cut would split a
/// character.
pub fn cell_text(attr: &TheadAttr, encode_map: &StrMap<String>, input: &str) -> (r: Option<String>)
    ensures
        cut_ok(*attr, encode_map@, input@) ==> (r matches Some(t) && t@ == spec_cell_text(
            *attr,
            encode_map@,
            input@,
        )),
        !cut_ok(*attr, encode_map@, input@) ==> r is None,
{
    let a = concat_str(attr.prefix.as_str(), input);
    let spliced = concat_str(a.as_str(), attr.suffix.as_str());
    let mut cell_string = str_converter(attr.conv.as_str(), spliced.as_str());
    if str_eq(attr.encode.as_str(), "custom") {
        if let Some(ed) = encode_map.get(&cell_string) {
            cell_string = ed.clone();
        }
    }
    assert(cell_string@ == uncut_cell_text(*attr, encode_map@, input@));
    if attr.cut > 0 {
        if !str_is_char_boundary(cell_string.as_str(), attr.cut) {
            return None;
        }
        let (head, _tail) = cell_string.as_str().split_at(attr.cut);
        proof {
            vstd::utf8::encode_utf8_decode_utf8(head@);
        }
        return Some(String::from_str(head));
    }
    Some(cell_string)
}

/// How a boolean column reads a non-empty text: `0` and `false` (any case)
/// are false, anything else true.
pub open spec fn bool_text(s: Seq<char>) -> bool {
    if s == "0"@ {
        false
    } else if s.len() == 0 {
        false
    } else if spec_lower(s) == "true"@ {
        true
    } else if spec_lower(s) == "false"@ {
        false
    } else {
        true
    }
}

/// The type a cell ends up with: the declared one, or, when unknown, number
/// if the text reads as a number and string otherwise.
pub open spec fn final_cell_type(declared: CellTypes, is_number: bool) -> CellTypes {
    if declared != CellTypes::Unknown {
        declared
    } else if is_number {
        CellTypes::Number
    } else {
        CellTypes::String
    }
}

/// The value of the cell text `s` in a column with attributes `attr`, where
/// `float_json` is what reading `s` as a floating-point number gave (`None`
/// when it is not one).
pub open spec fn spec_cell_json(
    attr: TheadAttr,
    enums: Map<Seq<char>, StrMap<i64>>,
    s: Seq<char>,
    float_json: Option<JsonV>,
) -> (CellTypes, JsonV) {
    let try_i64 = spec_parse_i64(s);
    let success = try_i64 is Some || float_json is Some;
    let number = match try_i64 {
        Some(v) => JsonV::Int(v as int),
        None => match float_json {
            Some(f) => f,
            None => JsonV::Int(0),
        },
    };
    let is_null = spec_lower(s) == "null"@;
    let t = final_cell_type(attr.cell_type, success);
    let value = if t == CellTypes::Enum {
        JsonV::Int(
            if enums.contains_key(attr.cell_enum_type@) && enums[attr.cell_enum_type@]@.contains_key(s) {
                enums[attr.cell_enum_type@]@[s] as int
            } else {
                0
            },
        )
    } else if s.len() == 0 {
        spec_default_json(t)
    } else if t == CellTypes::String || t == CellTypes::NullableString {
        if t == CellTypes::NullableString && is_null {
            JsonV::Null
        } else {
            JsonV::Str(s)
        }
    } else if t == CellTypes::Bool || t == CellTypes::NullableBool {
        if t == CellTypes::NullableBool && is_null {
            JsonV::Null
        } else {
            JsonV::Bool(bool_text(s))
        }
    } else if success || t == CellTypes::NullableNumber {
        if t == CellTypes::NullableNumber && is_null {
            JsonV::Null
        } else {
            number
        }
    } else {
        JsonV::Str(s)
    };
    (t, value)
}

/// The model of an optional value.
pub open spec fn opt_model(o: Option<Json>) -> Option<JsonV> {
    match o {
        Some(f) => Some(f.model()),
        None => None,
    }
}

/// Types the final cell text `s` and makes its JSON value; `float_json` is
/// what reading `s` as a floating-point number gave, if it is one.
pub fn cell_json(
    attr: &TheadAttr,
    enum_map: &StrMap<StrMap<i64>>,
    s: &str,
    float_json: Option<Json>,
) -> (r: (CellTypes, Json))
    requires
        float_json matches Some(f) ==> f.is_scalar(),
    ensures
        (r.0, r.1.model()) == spec_cell_json(
            *attr,
            enum_map@,
            s@,
            opt_model(float_json),
        ),
        r.1.is_scalar(),
{
    let ghost fj = opt_model(float_json);
    let try_i64 = parse_i64(s);
    let success = try_i64.is_some() || float_json.is_some();
    let lower = to_lowercase(s);
    let is_null = str_eq(lower.as_str(), "null");
    let t = if attr.cell_type != CellTypes::Unknown {
        attr.cell_type
    } else if success {
        CellTypes::Number
    } else {
        CellTypes::String
    };
    let ghost spec = spec_cell_json(*attr, enum_map@, s@, fj);
    assert(t == spec.0);
    let value = if t == CellTypes::Enum {
        let key = String::from_str(s);
        let v: i64 = match enum_map.get(&attr.cell_enum_type) {
            Some(im) => match im.get(&key) {
                Some(v) => *v,
                None => 0,
            },
            None => 0,
        };
        Json::Int(v)
    } else if s.is_empty() {
        get_default_json_by_cell_type(t)
    } else if t == CellTypes::String || t == CellTypes::NullableString {
        if t == CellTypes::NullableString && is_null {
            Json::Null
        } else {
            Json::Str(String::from_str(s))
        }
    } else if t == CellTypes::Bool || t == CellTypes::NullableBool {
        if t == CellTypes::NullableBool && is_null {
            Json::Null
        } else {
            let b = if str_eq(s, "0") {
                false
            } else if str_eq(lower.as_str(), "true") {
                true
            } else if str_eq(lower.as_str(), "false") {
                false
            } else {
                true
            };
            Json::Bool(b)
        }
    } else if success || t == CellTypes::NullableNumber {
        if t == CellTypes::NullableNumber && is_null {
            Json::Null
        } else {
            match try_i64 {
                Some(v) => Json::Int(v),
                None => match float_json {
                    Some(f) => f,
                    None => Json::Int(0),
                },
            }
        }
    } else {
        Json::Str(String::from_str(s))
    };
    (t, value)
}

/// Converts one cell: its final text (see [`cell_text`]) typed and turned
/// into JSON (see [`cell_json`]); `parse_float` reads a text as a
/// floating-point number and gives its JSON value.  `None` when the column's
/// cut would split a character of this cell.
pub fn convert_cell_to_json<F>(
    attr: &TheadAttr,
    enum_map: &StrMap<StrMap<i64>>,
    encode_map: &StrMap<String>,
    input: &str,
    parse_float: &F,
) -> (r: Option<(CellTypes, Json)>) where F: Fn(&str) -> Option<Json>
    requires
        forall|x: &str| call_requires(*parse_float, (x,)),
        forall|x: &str, o: Option<Json>|
            call_ensures(*parse_float, (x,), o) ==> (o matches Some(f) ==> f.is_scalar()),
    ensures
        !cut_ok(*attr, encode_map@, input@) ==> r is None,
        cut_ok(*attr, encode_map@, input@) ==> (r matches Some((t, v)) && v.is_scalar() && exists|
            x: &str,
            o: Option<Json>,
        |
            x@ == spec_cell_text(*attr, encode_map@, input@) && call_ensures(*parse_float, (x,), o)
                && (t, v.model()) == spec_cell_json(
                *attr,
                enum_map@,
                x@,
                opt_model(o),
            )),
{
    let text = match cell_text(attr, encode_map, input) {
        Some(t) => t,
        None => return None,
    };
    let f = parse_float(text.as_str());
    let r = cell_json(attr, enum_map, text.as_str(), f);
    Some(r)
}

// ---------------------------------------------------------------------------
// Function expressions
// ---------------------------------------------------------------------------

/// A function expression `name(param, ...)`.
pub struct FuncExpr {
    pub name: String,
    pub params: Vec<String>,
}

/// A parameter as it is kept: trimmed, one pair of surrounding double quotes removed.
pub open spec fn param_text(p: Seq<char>) -> Seq<char> {
    let t = trim(p);
    if t.len() >= 2 && t[0] == '"' && t.last() == '"' {
        t.subrange(1, t.len() - 1)
    } else {
        t
    }
}

/// The parameters of a comma-separated list, empty ones dropped.
pub open spec fn params_of(pieces: Seq<Seq<char>>) -> Seq<Seq<char>>
    decreases pieces.len(),
{
    if pieces.len() == 0 {
        seq![]
    } else {
        let rest = params_of(pieces.drop_last());
        let p = param_text(pieces.last());
        if p.len() == 0 {
            rest
        } else {
            rest.push(p)
        }
    }
}

/// What `input` reads as a function expression: it must end with `)` and
/// hold a `(`; the name is what comes before the first `(`.
pub open spec fn spec_function(input: Seq<char>) -> Option<(Seq<char>, Seq<Seq<char>>)> {
    let i = crate::text::first_of(input, '(');
    if input.len() == 0 || input.last() != ')' || i >= input.len() {
        None
    } else {
        Some((input.take(i as int), params_of(split_on(input.subrange(i as int + 1, input.len() - 1), ','))))
    }
}

impl FuncExpr {
    /// The parameter at `at`, read as a `T` (`None` when missing or unreadable).
    pub fn parse_at<T: std::str::FromStr>(&self, at: usize) -> (r: Option<T>)
        ensures
            at >= self.params@.len() ==> r is None,
    {
        if at >= self.params.len() {
            return None;
        }
        parse_text::<T>(self.params[at].as_str())
    }
}

/// Calls std `str::parse::<T>`; nothing is promised of the result.
#[verifier::external_body]
fn parse_text<T: std::str::FromStr>(s: &str) -> Option<T> {
    s.parse::<T>().ok()
}

/// Reads `name(p1, "p2", ...)`: the name before the first `(`, the
/// parameters between it and the final `)` split at commas, trimmed,
/// unquoted, empty ones dropped.
pub fn parse_function(input: &str) -> (r: Option<FuncExpr>)
    ensures
        match spec_function(input@) {
            None => r is None,
            Some((name, params)) => r matches Some(f) && f.name@ == name && f.params@.len()
                == params.len() && forall|i: int|
                0 <= i < params.len() ==> #[trigger] f.params@[i]@ == params[i],
        },
{
    let chars = to_chars(input);
    let n = chars.len();
    if n == 0 || chars[n - 1] != ')' {
        return None;
    }
    let first_par = match crate::text::find_char(&chars, '(') {
        Some(i) => i,
        None => return None,
    };
    if first_par + 1 > n - 1 {
        // the `(` is the final character, which is `)`: cannot happen
        return None;
    }
    let name = sub_chars(&chars, 0, first_par);
    let inner = sub_chars(&chars, first_par + 1, n - 1);
    let pieces = split_chars(&inner, ',');
    let ghost all = split_on(inner@, ',');
    let mut params: Vec<String> = Vec::new();
    let mut k: usize = 0;
    assert(all.take(0) =~= Seq::<Seq<char>>::empty());
    while k < pieces.len()
        invariant
            pieces@.len() == all.len(),
            forall|q: int| 0 <= q < pieces@.len() ==> #[trigger] pieces@[q]@ == all[q],
            0 <= k <= pieces@.len(),
            params@.len() == params_of(all.take(k as int)).len(),
            forall|q: int|
                0 <= q < params@.len() ==> #[trigger] params@[q]@ == params_of(all.take(k as int))[q],
        decreases pieces.len() - k,
    {
        assert(all.take(k + 1).drop_last() =~= all.take(k as int));
        let t = trim_chars(&pieces[k]);
        let tn = t.len();
        let p = if tn >= 2 && t[0] == '"' && t[tn - 1] == '"' {
            sub_chars(&t, 1, tn - 1)
        } else {
            t
        };
        assert(p@ == param_text(all[k as int]));
        if p.len() > 0 {
            params.push(from_chars(&p));
        }
        k = k + 1;
    }
    assert(all.take(all.len() as int) =~= all);
    assert(name@ =~= input@.take(first_par as int));
    Some(FuncExpr { name: from_chars(&name), params })
}

/// The JSON number of an integer.
pub fn json_from_i64(i: i64) -> (r: Json)
    ensures
        r.model() == JsonV::Int(i as int),
{
    Json::Int(i)
}

} // verus!
