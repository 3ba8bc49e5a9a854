//! Tool settings: defaults, `KEY=VALUE` arguments and command-line overrides.
use vstd::prelude::*;
use crate::str_map::StrMap;
use crate::text::{
    concat_str, first_of, from_chars, replace_all, replace_chars, split_once_char, str_eq,
    to_chars, trim, trim_chars,
};

verus! {

/// Text that starts the message of a malformed `KEY=VALUE` argument.
pub open spec fn key_value_error_prefix() -> Seq<char> {
    "参数格式应为 KEY=VALUE, 当前传入: `"@
}

/// The message for a malformed `KEY=VALUE` argument `s`.
pub open spec fn key_value_error(s: Seq<char>) -> Seq<char> {
    key_value_error_prefix() + s + "`"@
}

/// What a `KEY=VALUE` argument reads as: split at the first `=`, the key
/// trimmed and not empty, the value kept as it is.
pub open spec fn spec_key_value(s: Seq<char>) -> Option<(Seq<char>, Seq<char>)> {
    let i = first_of(s, '=');
    if i < s.len() && trim(s.take(i as int)).len() > 0 {
        Some((trim(s.take(i as int)), s.skip(i as int + 1)))
    } else {
        None
    }
}

/// Parses a `KEY=VALUE` argument.
pub fn parse_key_value(s: &str) -> (r: Result<(String, String), String>)
    ensures
        match spec_key_value(s@) {
            Some((k, v)) => r matches Ok((rk, rv)) && rk@ == k && rv@ == v,
            None => r matches Err(e) && e@ == key_value_error(s@),
        },
{
    let chars = to_chars(s);
    match split_once_char(&chars, '=') {
        Some((key, value)) => {
            let key = trim_chars(&key);
            if key.len() > 0 {
                return Ok((from_chars(&key), from_chars(&value)));
            }
        },
        None => {},
    }
    let msg = concat_str("参数格式应为 KEY=VALUE, 当前传入: `", s);
    let msg = concat_str(msg.as_str(), "`");
    Err(msg)
}

/// What a `NAME=TEXT` enum argument reads as: a `KEY=VALUE` argument whose
/// text has each `\n` escape (backslash, `n`) turned into a line break.
pub open spec fn spec_enum_value(s: Seq<char>) -> Option<(Seq<char>, Seq<char>)> {
    match spec_key_value(s) {
        Some((k, v)) => Some((k, replace_all(v, seq!['\\', 'n'], seq!['\n']))),
        None => None,
    }
}

/// Parses a `NAME=TEXT` enum argument, restoring escaped line breaks.
pub fn parse_enum_value(s: &str) -> (r: Result<(String, String), String>)
    ensures
        match spec_enum_value(s@) {
            Some((k, v)) => r matches Ok((rk, rv)) && rk@ == k && rv@ == v,
            None => r matches Err(e) && e@ == key_value_error(s@),
        },
{
    let (name, text) = parse_key_value(s)?;
    let text_chars = to_chars(text.as_str());
    let pat: Vec<char> = vec!['\\', 'n'];
    let rep: Vec<char> = vec!['\n'];
    assert(pat@ =~= seq!['\\', 'n']);
    assert(rep@ =~= seq!['\n']);
    let replaced = replace_chars(&text_chars, &pat, &rep);
    Ok((name, from_chars(&replaced)))
}

/// Default generation mode.
pub fn get_default_mode() -> (r: String)
    ensures
        r@ == "debug"@,
{
    String::from_str("debug")
}

/// Default input and output directory.
pub fn get_default_path() -> (r: String)
    ensures
        r@ == "./"@,
{
    String::from_str("./")
}

/// Default compression method.
pub fn get_default_zip() -> (r: String)
    ensures
        r@ == "gzip"@,
{
    String::from_str("gzip")
}

/// Default whitelist mark.
pub fn get_default_whitelist_mark() -> (r: String)
    ensures
        r@ == "*"@,
{
    String::from_str("*")
}

/// Default extension of meta files.
pub fn get_default_meta_ext() -> (r: String)
    ensures
        r@ == "meta"@,
{
    String::from_str("meta")
}

/// Default mark of a transposed sheet.
pub fn get_default_row_transpose_mark() -> (r: String)
    ensures
        r@ == "##transpose"@,
{
    String::from_str("##transpose")
}

/// Default mark of the key row.
pub fn get_default_row_var_mark() -> (r: String)
    ensures
        r@ == "##var"@,
{
    String::from_str("##var")
}

/// Default mark of the attribute row.
pub fn get_default_row_attr_mark() -> (r: String)
    ensures
        r@ == "##attr"@,
{
    String::from_str("##attr")
}

/// Default output format.
pub fn get_default_format() -> (r: String)
    ensures
        r@ == "json"@,
{
    String::from_str("json")
}

/// Default number of mark rows.
pub fn get_default_mark_count() -> (r: usize)
    ensures
        r == 2,
{
    2
}

/// Default row index of the attribute row.
pub fn get_default_thead_attrs_at() -> (r: usize)
    ensures
        r == 0,
{
    0
}

/// Default row index of the key row.
pub fn get_default_thead_keys_at() -> (r: usize)
    ensures
        r == 1,
{
    1
}

/// The tool settings.  `epsilon_bits` holds the bit pattern of the `f64`
/// tolerance under which a fraction counts as an integer.
pub struct Config {
    pub mode: String,
    pub input: String,
    pub output: String,
    pub format: String,
    pub epsilon_bits: u64,
    pub zip: String,
    pub custom_encode_map_path: String,
    pub key_case: String,
    pub is_whitelist_mode: bool,
    pub is_write_meta: bool,
    pub meta_ext: String,
    pub row_transpose_mark: String,
    pub row_var_mark: String,
    pub row_attr_mark: String,
    pub attrs: StrMap<String>,
    pub global_key_case: StrMap<String>,
    pub global_attr_by_key: StrMap<String>,
    pub specified_output: StrMap<String>,
    pub enums: StrMap<String>,
}

/// Settings given on the command line; `None` and empty lists leave the
/// configured values alone.  `epsilon_bits` is the bit pattern of an `f64`.
#[derive(Clone, Default)]
pub struct ConfigArgs {
    pub mode: Option<String>,
    pub input: Option<String>,
    pub output: Option<String>,
    pub format: Option<String>,
    pub is_write_meta: Option<bool>,
    pub meta_ext: Option<String>,
    pub epsilon_bits: Option<u64>,
    pub zip: Option<String>,
    pub custom_encode_map_path: Option<String>,
    pub row_transpose_mark: Option<String>,
    pub row_var_mark: Option<String>,
    pub row_attr_mark: Option<String>,
    pub key_case: Option<String>,
    pub is_whitelist_mode: Option<bool>,
    pub global_key_case: Vec<(String, String)>,
    pub global_attr_by_key: Vec<(String, String)>,
    pub specified_output: Vec<(String, String)>,
    pub attrs: Vec<(String, String)>,
    pub enums: Vec<(String, String)>,
}

/// `m` after storing each pair of `ps`, first to last.
pub open spec fn insert_pairs(m: Map<Seq<char>, String>, ps: Seq<(String, String)>) -> Map<
    Seq<char>,
    String,
>
    decreases ps.len(),
{
    if ps.len() == 0 {
        m
    } else {
        insert_pairs(m.insert(ps[0].0@, ps[0].1), ps.drop_first())
    }
}

/// Law: of the pairs given for a table, the last one with a key decides
/// that key's value, whatever the table held before.
pub proof fn law_last_pair_wins(m: Map<Seq<char>, String>, ps: Seq<(String, String)>, i: int)
    requires
        0 <= i < ps.len(),
        forall|j: int| i < j < ps.len() ==> (#[trigger] ps[j]).0@ != ps[i].0@,
    ensures
        insert_pairs(m, ps).contains_key(ps[i].0@),
        insert_pairs(m, ps)[ps[i].0@] == ps[i].1,
    decreases ps.len(),
{
    if i == 0 {
        lemma_pairs_keep(m.insert(ps[0].0@, ps[0].1), ps.drop_first(), ps[0].0@);
    } else {
        assert forall|j: int| i - 1 < j < ps.drop_first().len() implies (#[trigger] ps.drop_first()[j]).0@ != ps.drop_first()[i - 1].0@ by {
            assert(ps.drop_first()[j] == ps[j + 1]);
        }
        law_last_pair_wins(m.insert(ps[0].0@, ps[0].1), ps.drop_first(), i - 1);
    }
}

/// Law: a key that none of the given pairs names keeps the value (or the
/// absence of one) that the table had.
pub proof fn law_unnamed_key_kept(m: Map<Seq<char>, String>, ps: Seq<(String, String)>, k: Seq<char>)
    requires
        forall|j: int| 0 <= j < ps.len() ==> (#[trigger] ps[j]).0@ != k,
    ensures
        insert_pairs(m, ps).contains_key(k) == m.contains_key(k),
        m.contains_key(k) ==> insert_pairs(m, ps)[k] == m[k],
{
    lemma_pairs_keep(m, ps, k);
}

proof fn lemma_pairs_keep(m: Map<Seq<char>, String>, ps: Seq<(String, String)>, k: Seq<char>)
    requires
        forall|j: int| 0 <= j < ps.len() ==> (#[trigger] ps[j]).0@ != k,
    ensures
        insert_pairs(m, ps).contains_key(k) == m.contains_key(k),
        m.contains_key(k) ==> insert_pairs(m, ps)[k] == m[k],
    decreases ps.len(),
{
    if ps.len() > 0 {
        assert(ps[0].0@ != k);
        assert forall|j: int| 0 <= j < ps.drop_first().len() implies (#[trigger] ps.drop_first()[j]).0@ != k by {
            assert(ps.drop_first()[j] == ps[j + 1]);
        }
        lemma_pairs_keep(m.insert(ps[0].0@, ps[0].1), ps.drop_first(), k);
    }
}

/// The value that an optional override leaves.
pub open spec fn overridden<T>(current: T, given: Option<T>) -> T {
    match given {
        Some(v) => v,
        None => current,
    }
}

fn insert_all(m: &mut StrMap<String>, ps: &Vec<(String, String)>)
    ensures
        final(m)@ == insert_pairs(old(m)@, ps@),
{
    let mut i: usize = 0;
    assert(ps@.skip(0) =~= ps@);
    while i < ps.len()
        invariant
            0 <= i <= ps@.len(),
            insert_pairs(m@, ps@.skip(i as int)) == insert_pairs(old(m)@, ps@),
        decreases ps.len() - i,
    {
        assert(ps@.skip(i as int).drop_first() =~= ps@.skip(i + 1));
        let k = ps[i].0.clone();
        let v = ps[i].1.clone();
        m.insert(k, v);
        i = i + 1;
    }
    assert(ps@.skip(i as int) =~= Seq::<(String, String)>::empty());
}

fn override_string(field: &mut String, given: &Option<String>)
    ensures
        *final(field) == overridden(*old(field), *given),
{
    if let Some(v) = given {
        *field = v.clone();
    }
}

impl Config {
    /// Whether the mode is `debug`.
    pub fn is_debug(&self) -> (r: bool)
        ensures
            r == (self.mode@ == "debug"@),
    {
        str_eq(self.mode.as_str(), "debug")
    }

    /// Whether the mode is `release`.
    pub fn is_release(&self) -> (r: bool)
        ensures
            r == (self.mode@ == "release"@),
    {
        str_eq(self.mode.as_str(), "release")
    }

    /// Overrides the settings with the arguments given on the command line:
    /// each given scalar replaces the setting, each given pair is stored in
    /// its table in order, so a later pair wins over an earlier one and over
    /// the configured value.  Everything not given stays as it was.
    pub fn apply_cli_args(&mut self, args: &ConfigArgs)
        ensures
            final(self).mode == overridden(old(self).mode, args.mode),
            final(self).input == overridden(old(self).input, args.input),
            final(self).output == overridden(old(self).output, args.output),
            final(self).format == overridden(old(self).format, args.format),
            final(self).epsilon_bits == overridden(old(self).epsilon_bits, args.epsilon_bits),
            final(self).zip == overridden(old(self).zip, args.zip),
            final(self).custom_encode_map_path == overridden(
                old(self).custom_encode_map_path,
                args.custom_encode_map_path,
            ),
            final(self).key_case == overridden(old(self).key_case, args.key_case),
            final(self).is_whitelist_mode == overridden(
                old(self).is_whitelist_mode,
                args.is_whitelist_mode,
            ),
            final(self).is_write_meta == overridden(old(self).is_write_meta, args.is_write_meta),
            final(self).meta_ext == overridden(old(self).meta_ext, args.meta_ext),
            final(self).row_transpose_mark == overridden(
                old(self).row_transpose_mark,
                args.row_transpose_mark,
            ),
            final(self).row_var_mark == overridden(old(self).row_var_mark, args.row_var_mark),
            final(self).row_attr_mark == overridden(old(self).row_attr_mark, args.row_attr_mark),
            final(self).attrs@ == insert_pairs(old(self).attrs@, args.attrs@),
            final(self).global_key_case@ == insert_pairs(
                old(self).global_key_case@,
                args.global_key_case@,
            ),
            final(self).global_attr_by_key@ == insert_pairs(
                old(self).global_attr_by_key@,
                args.global_attr_by_key@,
            ),
            final(self).specified_output@ == insert_pairs(
                old(self).specified_output@,
                args.specified_output@,
            ),
            final(self).enums@ == insert_pairs(old(self).enums@, args.enums@),
    {
        override_string(&mut self.mode, &args.mode);
        override_string(&mut self.input, &args.input);
        override_string(&mut self.output, &args.output);
        override_string(&mut self.format, &args.format);
        if let Some(v) = args.epsilon_bits {
            self.epsilon_bits = v;
        }
        override_string(&mut self.zip, &args.zip);
        override_string(&mut self.custom_encode_map_path, &args.custom_encode_map_path);
        override_string(&mut self.key_case, &args.key_case);
        if let Some(v) = args.is_whitelist_mode {
            self.is_whitelist_mode = v;
        }
        if let Some(v) = args.is_write_meta {
            self.is_write_meta = v;
        }
        override_string(&mut self.meta_ext, &args.meta_ext);
        override_string(&mut self.row_transpose_mark, &args.row_transpose_mark);
        override_string(&mut self.row_var_mark, &args.row_var_mark);
        override_string(&mut self.row_attr_mark, &args.row_attr_mark);
        insert_all(&mut self.attrs, &args.attrs);
        insert_all(&mut self.global_key_case, &args.global_key_case);
        insert_all(&mut self.global_attr_by_key, &args.global_attr_by_key);
        insert_all(&mut self.specified_output, &args.specified_output);
        insert_all(&mut self.enums, &args.enums);
    }
}

} // verus!
