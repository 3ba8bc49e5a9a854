//! Custom encoding tables: a `.json` object of codes, or a `.txt` file with
//! one `KEY CODE` pair per line.
use vstd::prelude::*;
use crate::path_helper::{path_extension, spec_path_extension};
use crate::str_map::StrMap;
use crate::text::{from_chars, is_unicode_whitespace, is_whitespace, split_chars, split_on, str_eq, sub_chars, to_chars};

verus! {

/// The texts of a list of pairs of strings, as a map (later pairs are never
/// needed: the keys are distinct).
pub open spec fn pairs_text_map(v: Seq<(String, String)>) -> Map<Seq<char>, Seq<char>> {
    Map::new(
        |k: Seq<char>| exists|i: int| 0 <= i < v.len() && v[i].0@ == k,
        |k: Seq<char>| v[choose|i: int| 0 <= i < v.len() && v[i].0@ == k].1@,
    )
}

/// Whether the keys of a list of pairs are distinct.
pub open spec fn distinct_keys(v: Seq<(String, String)>) -> bool {
    forall|i: int, j: int| 0 <= i < j < v.len() ==> v[i].0@ != v[j].0@
}

/// The members of the JSON object `content` as serde_json reads it into a
/// `HashMap<String, Value>`, each value written back as JSON text; or
/// serde_json's error message.
pub uninterp spec fn spec_json_object_texts(content: Seq<char>) -> Result<Map<Seq<char>, Seq<char>>, Seq<char>>;

/// Reads `content` with serde_json as a map from strings to JSON values and
/// gives each member with its value written as JSON text. The members come
/// from a `HashMap`, so their keys are distinct; their order is not stated.
#[verifier::external_body]
pub(crate) fn json_object_texts(content: &str) -> (r: Result<Vec<(String, String)>, String>)
    ensures
        match spec_json_object_texts(content@) {
            Ok(m) => r matches Ok(v) && distinct_keys(v@) && pairs_text_map(v@) == m,
            Err(e) => r matches Err(x) && x@ == e,
        },
{
    serde_json::from_str::<std::collections::HashMap<String, serde_json::Value>>(content)
        .map(|m| m.into_iter().map(|(k, v)| (k, v.to_string())).collect())
        .map_err(|e| e.to_string())
}

/// The first index from `i` on that is not whitespace.
pub open spec fn skip_space(s: Seq<char>, i: int) -> int
    decreases s.len() - i,
{
    if 0 <= i < s.len() && is_unicode_whitespace(s[i]) {
        skip_space(s, i + 1)
    } else {
        i
    }
}

/// The first index from `i` on that is whitespace.
pub open spec fn word_end(s: Seq<char>, i: int) -> int
    decreases s.len() - i,
{
    if 0 <= i < s.len() && !is_unicode_whitespace(s[i]) {
        word_end(s, i + 1)
    } else {
        i
    }
}

/// The code a line gives: its first word, and its second word (`0` when
/// there is none); nothing for a blank line.
pub open spec fn line_code(line: Seq<char>) -> Option<(Seq<char>, Seq<char>)> {
    let a = skip_space(line, 0);
    if a >= line.len() {
        None
    } else {
        let b = word_end(line, a);
        let c = skip_space(line, b);
        Some(
            (
                line.subrange(a, b),
                if c < line.len() {
                    line.subrange(c, word_end(line, c))
                } else {
                    "0"@
                },
            ),
        )
    }
}

/// The codes of the lines, read in order; a later line wins.
pub open spec fn codes_of_lines(lines: Seq<Seq<char>>) -> Map<Seq<char>, Seq<char>>
    decreases lines.len(),
{
    if lines.len() == 0 {
        Map::empty()
    } else {
        let m = codes_of_lines(lines.drop_last());
        match line_code(lines.last()) {
            Some((k, v)) => m.insert(k, v),
            None => m,
        }
    }
}

/// What a table of codes holds: for `.json` the members of the object, for
/// `.txt` (or no extension) the codes of its lines, else nothing.
pub open spec fn spec_encode_map(path: Seq<char>, content: Seq<char>) -> Result<Map<Seq<char>, Seq<char>>, Seq<char>> {
    let ext = match spec_path_extension(path) {
        Some(e) => e,
        None => "txt"@,
    };
    if ext == "json"@ {
        spec_json_object_texts(content)
    } else if ext == "txt"@ {
        Ok(codes_of_lines(split_on(content, '\n')))
    } else {
        Ok(Map::empty())
    }
}

/// Whether a map of strings holds exactly the texts of `m`.
pub open spec fn holds_texts(r: Map<Seq<char>, String>, m: Map<Seq<char>, Seq<char>>) -> bool {
    &&& r.dom() == m.dom()
    &&& forall|k: Seq<char>| #[trigger] r.contains_key(k) ==> r[k]@ == m[k]
}

fn skip_space_exec(s: &Vec<char>, i: usize) -> (r: usize)
    requires
        i <= s@.len(),
    ensures
        r as int == skip_space(s@, i as int),
        i <= r <= s@.len(),
{
    let mut j = i;
    while j < s.len() && is_whitespace(s[j])
        invariant
            i <= j <= s@.len(),
            skip_space(s@, j as int) == skip_space(s@, i as int),
        decreases s@.len() - j,
    {
        j = j + 1;
    }
    j
}

fn word_end_exec(s: &Vec<char>, i: usize) -> (r: usize)
    requires
        i <= s@.len(),
    ensures
        r as int == word_end(s@, i as int),
        i <= r <= s@.len(),
{
    let mut j = i;
    while j < s.len() && !is_whitespace(s[j])
        invariant
            i <= j <= s@.len(),
            word_end(s@, j as int) == word_end(s@, i as int),
        decreases s@.len() - j,
    {
        j = j + 1;
    }
    j
}

fn line_code_exec(line: &Vec<char>) -> (r: Option<(String, String)>)
    ensures
        match line_code(line@) {
            Some((k, v)) => r matches Some((rk, rv)) && rk@ == k && rv@ == v,
            None => r is None,
        },
{
    let a = skip_space_exec(line, 0);
    if a >= line.len() {
        return None;
    }
    let b = word_end_exec(line, a);
    let c = skip_space_exec(line, b);
    let key = from_chars(&sub_chars(line, a, b));
    let value = if c < line.len() {
        let d = word_end_exec(line, c);
        from_chars(&sub_chars(line, c, d))
    } else {
        proof {
            reveal_strlit("0");
        }
        String::from_str("0")
    };
    Some((key, value))
}

/// The codes of a `.txt` table: for each line, its first word mapped to its
/// second word (`0` when there is none); a later line wins.
pub fn codes_from_lines(content: &str) -> (r: StrMap<String>)
    ensures
        holds_texts(r@, codes_of_lines(split_on(content@, '\n'))),
{
    let chars = to_chars(content);
    let lines = split_chars(&chars, '\n');
    let ghost all = split_on(content@, '\n');
    let mut out: StrMap<String> = StrMap::new();
    let mut i: usize = 0;
    assert(all.take(0) =~= Seq::<Seq<char>>::empty());
    while i < lines.len()
        invariant
            0 <= i <= lines@.len(),
            lines@.len() == all.len(),
            all == split_on(content@, '\n'),
            forall|q: int| 0 <= q < lines@.len() ==> #[trigger] lines@[q]@ == all[q],
            holds_texts(out@, codes_of_lines(all.take(i as int))),
        decreases lines.len() - i,
    {
        assert(all.take(i + 1).drop_last() =~= all.take(i as int));
        assert(all.take(i + 1).last() == lines@[i as int]@);
        let ghost before = codes_of_lines(all.take(i as int));
        match line_code_exec(&lines[i]) {
            Some((k, v)) => {
                let ghost kv = k@;
                let ghost vv = v@;
                out.insert(k, v);
                assert(out@.dom() =~= before.insert(kv, vv).dom());
            },
            None => {},
        }
        i = i + 1;
    }
    assert(all.take(i as int) =~= all);
    out
}

/// The codes of a `.json` table: the members of the object, each value
/// written as JSON text.
pub fn codes_from_json(content: &str) -> (r: Result<StrMap<String>, String>)
    ensures
        match spec_json_object_texts(content@) {
            Ok(m) => r matches Ok(x) && holds_texts(x@, m),
            Err(e) => r matches Err(x) && x@ == e,
        },
{
    let pairs = json_object_texts(content)?;
    let ghost v = pairs@;
    let mut out: StrMap<String> = StrMap::new();
    let mut i: usize = 0;
    while i < pairs.len()
        invariant
            0 <= i <= v.len(),
            v == pairs@,
            distinct_keys(v),
            forall|k: Seq<char>| #[trigger] out@.contains_key(k) <==> exists|j: int| 0 <= j < i && v[j].0@ == k,
            forall|j: int| 0 <= j < i ==> #[trigger] out@[v[j].0@]@ == v[j].1@,
        decreases v.len() - i,
    {
        let k = pairs[i].0.clone();
        let val = pairs[i].1.clone();
        let ghost before = out@;
        out.insert(k, val);
        proof {
            assert forall|j: int| 0 <= j < i implies v[j].0@ != v[i as int].0@ by {}
            assert forall|kk: Seq<char>| #[trigger] out@.contains_key(kk) <==> exists|j: int|
                0 <= j < i + 1 && v[j].0@ == kk by {
                if before.contains_key(kk) {
                    let j = choose|j: int| 0 <= j < i && v[j].0@ == kk;
                    assert(0 <= j < i + 1 && v[j].0@ == kk);
                }
                if kk == v[i as int].0@ {
                    assert(0 <= i < i + 1 && v[i as int].0@ == kk);
                }
            }
        }
        i = i + 1;
    }
    proof {
        match spec_json_object_texts(content@) {
            Ok(m) => {
                assert(m == pairs_text_map(v));
                assert(out@.dom() =~= m.dom());
                assert forall|k: Seq<char>| #[trigger] out@.contains_key(k) implies out@[k]@ == m[k] by {
                    let j = choose|j: int| 0 <= j < v.len() && v[j].0@ == k;
                    let c = choose|c: int| 0 <= c < v.len() && v[c].0@ == k;
                    assert(c == j);
                }
            },
            Err(_) => {},
        }
    }
    Ok(out)
}

/// Reads a table of codes from the text `content` of the file `path`: a
/// `.json` object, a `.txt` list of lines (also for a file without
/// extension), and nothing for any other extension.
pub fn encode_map_of(path: &str, content: &str) -> (r: Result<StrMap<String>, String>)
    ensures
        match spec_encode_map(path@, content@) {
            Ok(m) => r matches Ok(x) && holds_texts(x@, m),
            Err(e) => r matches Err(x) && x@ == e,
        },
{
    let ext = match path_extension(path) {
        Some(e) => e,
        None => String::from_str("txt"),
    };
    proof {
        reveal_strlit("txt");
        reveal_strlit("json");
    }
    if str_eq(ext.as_str(), "json") {
        codes_from_json(content)
    } else if str_eq(ext.as_str(), "txt") {
        Ok(codes_from_lines(content))
    } else {
        let m: StrMap<String> = StrMap::new();
        assert(m@.dom() =~= Map::<Seq<char>, Seq<char>>::empty().dom());
        Ok(m)
    }
}

} // verus!
