//! JSON values as the conversion builds them.
use vstd::prelude::*;
use crate::text::{i64_to_decimal, int_decimal};

verus! {

/// A JSON value.  `Float` holds the JSON text of a non-integral number;
/// object members keep their insertion order.
pub enum Json {
    Null,
    Bool(bool),
    Int(i64),
    Float(String),
    Str(String),
    Array(Vec<Json>),
    Object(Vec<(String, Json)>),
}

/// The mathematical form of a JSON value.
pub enum JsonV {
    Null,
    Bool(bool),
    Int(int),
    Float(Seq<char>),
    Str(Seq<char>),
    Array(Seq<JsonV>),
    Object(Seq<(Seq<char>, JsonV)>),
}

impl Json {
    /// The value as a mathematical JSON value.
    pub open spec fn model(&self) -> JsonV
        decreases self,
    {
        match self {
            Json::Null => JsonV::Null,
            Json::Bool(b) => JsonV::Bool(*b),
            Json::Int(i) => JsonV::Int(*i as int),
            Json::Float(s) => JsonV::Float(s@),
            Json::Str(s) => JsonV::Str(s@),
            Json::Array(v) => JsonV::Array(
                Seq::new(
                    v@.len(),
                    |i: int|
                        if 0 <= i < v@.len() {
                            v@[i].model()
                        } else {
                            JsonV::Null
                        },
                ),
            ),
            Json::Object(v) => JsonV::Object(
                Seq::new(
                    v@.len(),
                    |i: int|
                        if 0 <= i < v@.len() {
                            (v@[i].0@, v@[i].1.model())
                        } else {
                            (Seq::empty(), JsonV::Null)
                        },
                ),
            ),
        }
    }

    /// Whether the value is neither an array nor an object.
    pub open spec fn is_scalar(&self) -> bool {
        !(self is Array) && !(self is Object)
    }

    /// A deep copy.
    #[verifier::loop_isolation(false)]
    pub fn copy(&self) -> (r: Json)
        ensures
            r.model() == self.model(),
        decreases self,
    {
        match self {
            Json::Null => Json::Null,
            Json::Bool(b) => Json::Bool(*b),
            Json::Int(i) => Json::Int(*i),
            Json::Float(s) => Json::Float(s.clone()),
            Json::Str(s) => Json::Str(s.clone()),
            Json::Array(v) => {
                let mut out: Vec<Json> = Vec::new();
                let mut i: usize = 0;
                while i < v.len()
                    invariant
                        0 <= i <= v@.len(),
                        out@.len() == i,
                        forall|j: int| 0 <= j < i ==> #[trigger] out@[j].model() == v@[j].model(),
                    decreases v.len() - i,
                {
                    proof {
                        assert(decreases_to!(self => self->Array_0));
                        assert(decreases_to!(v => v@));
                        assert(decreases_to!(v@ => v@[i as int]));
                    }
                    out.push(v[i].copy());
                    i = i + 1;
                }
                let r = Json::Array(out);
                assert(r.model() == self.model()) by {
                    if let JsonV::Array(a) = r.model() {
                        if let JsonV::Array(b) = self.model() {
                            assert forall|j: int| 0 <= j < a.len() implies a[j] == b[j] by {
                                assert(out@[j].model() == v@[j].model());
                            }
                            assert(a =~= b);
                        }
                    }
                }
                r
            },
            Json::Object(v) => {
                let mut out: Vec<(String, Json)> = Vec::new();
                let mut i: usize = 0;
                while i < v.len()
                    invariant
                        0 <= i <= v@.len(),
                        out@.len() == i,
                        forall|j: int|
                            0 <= j < i ==> #[trigger] out@[j].1.model() == v@[j].1.model() && out@[j].0@
                                == v@[j].0@,
                    decreases v.len() - i,
                {
                    proof {
                        assert(decreases_to!(self => self->Object_0));
                        assert(decreases_to!(v => v@));
                        assert(decreases_to!(v@ => v@[i as int]));
                        assert(decreases_to!(v@[i as int] => v@[i as int].1));
                    }
                    let item = v[i].1.copy();
                    out.push((v[i].0.clone(), item));
                    i = i + 1;
                }
                let r = Json::Object(out);
                assert(r.model() == self.model()) by {
                    if let JsonV::Object(a) = r.model() {
                        if let JsonV::Object(b) = self.model() {
                            assert forall|j: int| 0 <= j < a.len() implies a[j] == b[j] by {
                                assert(out@[j].1.model() == v@[j].1.model());
                            }
                            assert(a =~= b);
                        }
                    }
                }
                r
            },
        }
    }
}

/// The lower-case hexadecimal digit for `d` in 0..16.
pub open spec fn hex_digit(d: nat) -> char {
    if d < 10 {
        ((d + '0' as nat) as u32) as char
    } else {
        ((d - 10 + 'a' as nat) as u32) as char
    }
}

/// What serde_json writes for `c` inside a string literal: `"` and `\`
/// escaped with a backslash, backspace, form feed, line feed, carriage
/// return and tab by their short escapes, any other control character as
/// `\u00XX` (lower-case hexadecimal), every other character as it is.
pub open spec fn json_escape_char(c: char) -> Seq<char> {
    if c == '"' {
        seq!['\\', '"']
    } else if c == '\\' {
        seq!['\\', '\\']
    } else if c == '\x08' {
        seq!['\\', 'b']
    } else if c == '\x0C' {
        seq!['\\', 'f']
    } else if c == '\n' {
        seq!['\\', 'n']
    } else if c == '\r' {
        seq!['\\', 'r']
    } else if c == '\t' {
        seq!['\\', 't']
    } else if (c as u32) < 0x20 {
        seq!['\\', 'u', '0', '0', hex_digit((c as u32 as nat) / 16), hex_digit((c as u32 as nat) % 16)]
    } else {
        seq![c]
    }
}

/// `s` escaped character by character (see [`json_escape_char`]).
pub open spec fn json_escaped(s: Seq<char>) -> Seq<char>
    decreases s.len(),
{
    if s.len() == 0 {
        Seq::empty()
    } else {
        json_escaped(s.drop_last()) + json_escape_char(s.last())
    }
}

/// The JSON string literal for `s`, with quotes and escapes, as serde_json writes it.
pub open spec fn spec_json_quote(s: Seq<char>) -> Seq<char> {
    seq!['"'] + json_escaped(s) + seq!['"']
}

/// Calls serde_json to write `s` as a JSON string literal.
#[verifier::external_body]
pub(crate) fn json_quote(s: &str) -> (r: String)
    ensures
        r@ == spec_json_quote(s@),
{
    serde_json::Value::String(s.to_string()).to_string()
}

/// The compact JSON text of a scalar value.
pub open spec fn scalar_text(v: JsonV) -> Seq<char> {
    match v {
        JsonV::Null => "null"@,
        JsonV::Bool(b) => if b {
            "true"@
        } else {
            "false"@
        },
        JsonV::Int(i) => int_decimal(i),
        JsonV::Float(t) => t,
        JsonV::Str(s) => spec_json_quote(s),
        _ => Seq::empty(),
    }
}

/// The compact JSON text of a scalar value (what `to_string` writes).
pub fn scalar_to_string(v: &Json) -> (r: String)
    requires
        v.is_scalar(),
    ensures
        r@ == scalar_text(v.model()),
{
    match v {
        Json::Null => String::from_str("null"),
        Json::Bool(b) => if *b {
            String::from_str("true")
        } else {
            String::from_str("false")
        },
        Json::Int(i) => i64_to_decimal(*i),
        Json::Float(t) => t.clone(),
        Json::Str(s) => json_quote(s.as_str()),
        _ => String::new(),
    }
}

} // verus!
