//! Enum definitions written one item per line.
use vstd::prelude::*;
use crate::str_map::StrMap;
use crate::text::{
    first_of, from_chars, parse_i64, spec_parse_i64, split_chars, split_on, split_once_char,
    to_chars, trim, trim_chars, trim_end_char, trim_end_char_chars,
};

verus! {

/// A definition line as it is read: trimmed, trailing commas dropped, trimmed again.
pub open spec fn enum_line(line: Seq<char>) -> Seq<char> {
    trim(trim_end_char(trim(line), ','))
}

/// Reads the definition lines in order into `m`, numbering from `next`:
/// `NAME = VALUE` gives `NAME` the value `VALUE` and numbering resumes after
/// it, a bare `NAME` takes the next number, blank lines are skipped.  `None`
/// when a value is not an `i64` or the numbering overflows `i64`.
pub open spec fn enum_fold(lines: Seq<Seq<char>>, m: Map<Seq<char>, i64>, next: i64) -> Option<
    Map<Seq<char>, i64>,
>
    decreases lines.len(),
{
    if lines.len() == 0 {
        Some(m)
    } else {
        let l = enum_line(lines[0]);
        let rest = lines.drop_first();
        if l.len() == 0 {
            enum_fold(rest, m, next)
        } else if first_of(l, '=') < l.len() {
            let i = first_of(l, '=') as int;
            match spec_parse_i64(trim(l.skip(i + 1))) {
                Some(v) => if v < i64::MAX {
                    enum_fold(rest, m.insert(trim(l.take(i)), v), (v + 1) as i64)
                } else {
                    None
                },
                None => None,
            }
        } else if next < i64::MAX {
            enum_fold(rest, m.insert(l, next), (next + 1) as i64)
        } else {
            None
        }
    }
}

/// The enum that the text `s` defines, when every line can be read.
pub open spec fn spec_enum_type(s: Seq<char>) -> Option<Map<Seq<char>, i64>> {
    enum_fold(split_on(s, '\n'), Map::empty(), 0)
}

/// Parses an enum definition (see [`spec_enum_type`]); `None` where a line
/// cannot be read.
pub fn try_parse_enum_type(s: &str) -> (r: Option<StrMap<i64>>)
    ensures
        match spec_enum_type(s@) {
            Some(m) => r matches Some(x) && x@ == m,
            None => r is None,
        },
{
    let chars = to_chars(s);
    let lines = split_chars(&chars, '\n');
    let ghost all = split_on(s@, '\n');
    let mut result: StrMap<i64> = StrMap::new();
    let mut next_value: i64 = 0;
    let mut k: usize = 0;
    assert(all.skip(0) =~= all);
    while k < lines.len()
        invariant
            lines@.len() == all.len(),
            forall|q: int| 0 <= q < lines@.len() ==> #[trigger] lines@[q]@ == all[q],
            0 <= k <= lines@.len(),
            enum_fold(all.skip(k as int), result@, next_value) == spec_enum_type(s@),
        decreases lines.len() - k,
    {
        let ghost rest = all.skip(k as int);
        assert(rest[0] == all[k as int]);
        assert(rest.drop_first() =~= all.skip(k + 1));
        let t1 = trim_chars(&lines[k]);
        let t2 = trim_end_char_chars(&t1, ',');
        let line = trim_chars(&t2);
        assert(line@ == enum_line(all[k as int]));
        if line.len() > 0 {
            match split_once_char(&line, '=') {
                Some((name_part, value_part)) => {
                    let name = trim_chars(&name_part);
                    let value_chars = trim_chars(&value_part);
                    let value_text = from_chars(&value_chars);
                    match parse_i64(value_text.as_str()) {
                        Some(v) => {
                            if v == i64::MAX {
                                return None;
                            }
                            let key = from_chars(&name);
                            result.insert(key, v);
                            next_value = v + 1;
                        },
                        None => {
                            return None;
                        },
                    }
                },
                None => {
                    if next_value == i64::MAX {
                        return None;
                    }
                    let key = from_chars(&line);
                    result.insert(key, next_value);
                    next_value = next_value + 1;
                },
            }
        }
        k = k + 1;
    }
    assert(all.skip(k as int) =~= Seq::<Seq<char>>::empty());
    Some(result)
}

/// Parses an enum definition: one item per line, `NAME` or `NAME = VALUE`,
/// an optional trailing comma; items without a value count on from the
/// previous one, starting at 0.
pub fn parse_enum_type(s: &str) -> (r: StrMap<i64>)
    requires
        spec_enum_type(s@) is Some,
    ensures
        r@ == spec_enum_type(s@).unwrap(),
{
    match try_parse_enum_type(s) {
        Some(m) => m,
        None => {
            assert(false);
            StrMap::new()
        },
    }
}

/// The enums of the settings, each definition parsed; `None` where one of
/// them cannot be read.
pub fn parse_enums(enums: &StrMap<String>) -> (r: Option<StrMap<StrMap<i64>>>)
    ensures
        (forall|k: Seq<char>| #[trigger] enums@.contains_key(k) ==> spec_enum_type(enums@[k]@) is Some) ==> (
        r matches Some(m) && m@.dom() == enums@.dom() && forall|k: Seq<char>|
            #[trigger] m@.contains_key(k) ==> Some(m@[k]@) == spec_enum_type(enums@[k]@)),
        !(forall|k: Seq<char>| #[trigger] enums@.contains_key(k) ==> spec_enum_type(enums@[k]@) is Some) ==> r is None,
{
    let mut out: StrMap<StrMap<i64>> = StrMap::new();
    let mut i: usize = 0;
    while i < enums.len()
        invariant
            0 <= i <= enums.pairs().len(),
            forall|k: Seq<char>|
                #[trigger] out@.contains_key(k) ==> enums@.contains_key(k) && Some(out@[k]@) == spec_enum_type(
                    enums@[k]@,
                ),
            forall|j: int| 0 <= j < i ==> #[trigger] out@.contains_key(enums.pairs()[j].0),
        decreases enums.pairs().len() - i,
    {
        let name = enums.key_at(i);
        let text = enums.value_at(i);
        match try_parse_enum_type(text.as_str()) {
            Some(m) => {
                out.insert(name.clone(), m);
            },
            None => {
                assert(!(forall|k: Seq<char>| #[trigger] enums@.contains_key(k) ==> spec_enum_type(enums@[k]@) is Some));
                return None;
            },
        }
        i = i + 1;
    }
    assert(out@.dom() =~= enums@.dom()) by {
        assert forall|k: Seq<char>| enums@.contains_key(k) implies out@.contains_key(k) by {
            let j = choose|j: int| 0 <= j < enums.pairs().len() && enums.pairs()[j].0 == k;
        }
    }
    Some(out)
}

} // verus!
