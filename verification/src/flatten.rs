//! Flattened keys: a header key such as `a.b[2].c` or `list[]` names a
//! path into a JSON document.
use vstd::prelude::*;
use crate::json::{Json, JsonV};
use crate::str_map::StrMap;
use crate::text::{find_from, from_chars, i64_to_decimal, int_decimal, lemma_find_from, to_chars};

verus! {

/// One step of a flattened key: an object member (`index` is `None`) or an
/// array element (`index` is `Some`; a negative index means "append").
pub struct FlattenPart {
    pub name: String,
    pub index: Option<i32>,
}

/// `[i]`.
pub open spec fn index_text(i: int) -> Seq<char> {
    seq!['['] + int_decimal(i) + seq![']']
}

/// How a part reads inside a full key: `[i]` for an index, the name otherwise.
pub open spec fn part_text(p: FlattenPart) -> Seq<char> {
    match p.index {
        Some(i) => index_text(i as int),
        None => p.name@,
    }
}

/// A part on its own: `[i]`, `[]` for an automatic index, or the name.
pub open spec fn part_display(p: FlattenPart) -> Seq<char> {
    match p.index {
        Some(i) => if i >= 0 {
            index_text(i as int)
        } else {
            seq!['[', ']']
        },
        None => p.name@,
    }
}

/// Whether `p` is an automatic index (`[]`).
pub open spec fn is_auto(p: FlattenPart) -> bool {
    p.index matches Some(i) && i < 0
}

fn index_chars(i: i32) -> (r: Vec<char>)
    ensures
        r@ == index_text(i as int),
{
    let digits = i64_to_decimal(i as i64);
    let mut r: Vec<char> = Vec::new();
    r.push('[');
    let d = to_chars(digits.as_str());
    crate::text::push_all(&mut r, &d);
    r.push(']');
    assert(r@ =~= index_text(i as int));
    r
}

impl FlattenPart {
    /// The part on its own: `[i]`, `[]` for an automatic index, or the name.
    pub fn to_display_string(&self) -> (r: String)
        ensures
            r@ == part_display(*self),
    {
        match self.index {
            Some(index) => {
                if index >= 0 {
                    let t = index_chars(index);
                    from_chars(&t)
                } else {
                    proof {
                        reveal_strlit("[]");
                    }
                    String::from_str("[]")
                }
            },
            None => self.name.clone(),
        }
    }

    /// Makes this part the array index `value`.
    pub fn set_index(&mut self, value: i32)
        ensures
            final(self).index == Some(value),
            final(self).name == old(self).name,
    {
        self.index = Some(value);
    }

    /// Whether this part is an array index.
    pub fn is_index(&self) -> (r: bool)
        ensures
            r == self.index is Some,
    {
        self.index.is_some()
    }

    /// Whether this part is an automatic index (`[]`).
    pub fn is_auto_index(&self) -> (r: bool)
        ensures
            r == is_auto(*self),
    {
        if let Some(index) = self.index {
            index < 0
        } else {
            false
        }
    }

    /// An automatic index (`[]`).
    pub fn new_auto_index() -> (r: Self)
        ensures
            r.name@ == Seq::<char>::empty(),
            r.index == Some(-1i32),
    {
        FlattenPart { name: String::new(), index: Some(-1) }
    }

    /// A part with the given name and index.
    pub fn new(name: String, index: Option<i32>) -> (r: Self)
        ensures
            r.name == name,
            r.index == index,
    {
        Self { name, index }
    }

    /// The array index `index`, named by its decimal text.
    pub fn new_index(index: i32) -> (r: Self)
        ensures
            r.name@ == int_decimal(index as int),
            r.index == Some(index),
    {
        Self { name: i64_to_decimal(index as i64), index: Some(index) }
    }

    /// The object member `name`.
    pub fn new_name(name: String) -> (r: Self)
        ensures
            r.name == name,
            r.index is None,
    {
        Self { name, index: None }
    }

    /// A copy of this part.
    pub fn copy(&self) -> (r: Self)
        ensures
            r == *self,
    {
        FlattenPart { name: self.name.clone(), index: self.index }
    }
}

/// The text of a key made of `parts`: each part as [`part_text`], with a
/// `.` between an index and a following name.
pub open spec fn display_of(parts: Seq<FlattenPart>) -> Seq<char>
    decreases parts.len(),
{
    if parts.len() == 0 {
        seq![]
    } else {
        let init = parts.drop_last();
        let last = parts.last();
        let sep = if init.len() > 0 && init.last().index is Some && last.index is None {
            seq!['.']
        } else {
            seq![]
        };
        display_of(init) + sep + part_text(last)
    }
}

/// The text of a key made of `parts`.
pub fn get_display_string(parts: &[FlattenPart]) -> (r: String)
    ensures
        r@ == display_of(parts@),
{
    let mut out: Vec<char> = Vec::new();
    let mut i: usize = 0;
    assert(parts@.take(0) =~= Seq::<FlattenPart>::empty());
    while i < parts.len()
        invariant
            0 <= i <= parts@.len(),
            out@ == display_of(parts@.take(i as int)),
        decreases parts.len() - i,
    {
        let ghost before = out@;
        assert(parts@.take(i + 1).drop_last() =~= parts@.take(i as int));
        assert(parts@.take(i + 1).last() == parts@[i as int]);
        if i > 0 && parts[i - 1].is_index() && !parts[i].is_index() {
            out.push('.');
        }
        let part = &parts[i];
        match part.index {
            Some(idx) => {
                let t = index_chars(idx);
                crate::text::push_all(&mut out, &t);
            },
            None => {
                let t = to_chars(part.name.as_str());
                crate::text::push_all(&mut out, &t);
            },
        }
        proof {
            let sep = if i > 0 && parts@[i - 1].index is Some && parts@[i as int].index is None {
                seq!['.']
            } else {
                seq![]
            };
            assert(out@ =~= before + sep + part_text(parts@[i as int]));
        }
        i = i + 1;
    }
    assert(parts@.take(parts@.len() as int) =~= parts@);
    from_chars(&out)
}

/// A header key and the path it names.
#[derive(Default)]
pub struct FlattenKey {
    pub raw: String,
    pub parts: Vec<FlattenPart>,
}

/// One step of a key as written, before names are converted.
pub enum KeyToken {
    Name(Seq<char>),
    Index(int),
    Auto,
}

/// How reading a key ends: it panics on a bracket it cannot read, gives up
/// on a `[` without `]`, or yields its steps.
pub enum KeyScan {
    Panic,
    Unclosed,
    Tokens(Seq<KeyToken>),
}

/// `tok` in front of the steps that `rest` yields.
pub open spec fn prepend(tok: KeyToken, rest: KeyScan) -> KeyScan {
    match rest {
        KeyScan::Tokens(t) => KeyScan::Tokens(seq![tok] + t),
        other => other,
    }
}

/// The number between brackets, digit by digit from `acc`: the first
/// character that is not a digit makes it -1; `None` where the byte
/// arithmetic of the reader fails (a character below `0`, or a value past `i32`).
pub open spec fn bracket_value(seg: Seq<char>, acc: int) -> Option<int>
    decreases seg.len(),
{
    if seg.len() == 0 {
        Some(acc)
    } else if '0' > seg[0] {
        None
    } else if seg[0] <= '9' {
        let v = acc * 10 + (seg[0] as int - '0' as int);
        if v > i32::MAX {
            None
        } else {
            bracket_value(seg.drop_first(), v)
        }
    } else {
        Some(-1)
    }
}

/// Position after an optional `.` at `p`.
pub open spec fn skip_dot(s: Seq<char>, p: nat) -> nat {
    if p < s.len() && s[p as int] == '.' {
        p + 1
    } else {
        p
    }
}

/// Reads the key `s` from position `pos`: `[]` (or `[x]`) is an automatic
/// index, `[digits]` an index, any other run up to `.` or `[` a name; one
/// `.` after each step is skipped.
pub open spec fn scan_key_from(s: Seq<char>, pos: nat) -> KeyScan
    decreases s.len() - pos,
{
    if pos >= s.len() {
        KeyScan::Tokens(seq![])
    } else if s[pos as int] == '[' {
        let c = find_from(s, ']', pos);
        if c >= s.len() {
            KeyScan::Unclosed
        } else {
            proof {
                lemma_find_from(s, ']', pos);
            }
            if c < pos + 2 {
                prepend(KeyToken::Auto, scan_key_from(s, skip_dot(s, c + 1)))
            } else {
                match bracket_value(s.subrange(pos as int + 1, c as int), 0) {
                    Some(v) => prepend(KeyToken::Index(v), scan_key_from(s, skip_dot(s, c + 1))),
                    None => KeyScan::Panic,
                }
            }
        }
    } else {
        let seg_end = find_from(s, '.', pos);
        let br = find_from(s, '[', pos);
        let name_end = if br < seg_end {
            br
        } else {
            seg_end
        };
        proof {
            lemma_find_from(s, '.', pos);
            lemma_find_from(s, '[', pos);
        }
        prepend(
            KeyToken::Name(s.subrange(pos as int, name_end as int)),
            scan_key_from(s, skip_dot(s, name_end)),
        )
    }
}

/// Whether part `p` is what token `t` becomes, names converted by `f`.
pub open spec fn part_from_token<F: Fn(&str) -> String>(f: F, t: KeyToken, p: FlattenPart) -> bool {
    match t {
        KeyToken::Auto => p.name@ == Seq::<char>::empty() && p.index == Some(-1i32),
        KeyToken::Index(v) => p.name@ == int_decimal(v) && p.index == Some(v as i32),
        KeyToken::Name(n) => p.index is None && exists|x: &str| x@ == n && call_ensures(f, (x,), p.name),
    }
}

/// Whether `parts` are the tokens `toks`, names converted by `f`.
pub open spec fn parts_from_tokens<F: Fn(&str) -> String>(
    f: F,
    toks: Seq<KeyToken>,
    parts: Seq<FlattenPart>,
) -> bool {
    &&& parts.len() == toks.len()
    &&& forall|i: int| 0 <= i < toks.len() ==> part_from_token(f, toks[i], #[trigger] parts[i])
}

/// `prepend` of each of `toks` in front of `rest`.
pub open spec fn prepend_all(toks: Seq<KeyToken>, rest: KeyScan) -> KeyScan {
    match rest {
        KeyScan::Tokens(t) => KeyScan::Tokens(toks + t),
        other => other,
    }
}

/// Taking one more token off the front keeps the whole scan.
pub proof fn lemma_prepend_all_push(toks: Seq<KeyToken>, tok: KeyToken, rest: KeyScan)
    ensures
        prepend_all(toks, prepend(tok, rest)) == prepend_all(toks.push(tok), rest),
{
    match rest {
        KeyScan::Tokens(t) => {
            assert(toks + (seq![tok] + t) =~= toks.push(tok) + t);
        },
        _ => {},
    }
}

fn bracket_number(s: &[char], from: usize, to: usize) -> (r: Option<i32>)
    requires
        from <= to <= s@.len(),
    ensures
        match bracket_value(s@.subrange(from as int, to as int), 0) {
            Some(v) => r == Some(v as i32) && i32::MIN <= v <= i32::MAX,
            None => r is None,
        },
{
    let mut acc: i32 = 0;
    let mut j: usize = from;
    while j < to
        invariant
            from <= j <= to <= s@.len(),
            0 <= acc <= i32::MAX,
            bracket_value(s@.subrange(from as int, to as int), 0) == bracket_value(
                s@.subrange(j as int, to as int),
                acc as int,
            ),
        decreases to - j,
    {
        let ch = s[j];
        assert(s@.subrange(j as int, to as int)[0] == ch);
        assert(s@.subrange(j as int, to as int).drop_first() =~= s@.subrange(j + 1, to as int));
        if '0' > ch {
            return None;
        }
        if ch <= '9' {
            let d = (ch as u32 - '0' as u32) as i32;
            if acc > (i32::MAX - d) / 10 {
                proof {
                    assert(acc * 10 + d > i32::MAX) by (nonlinear_arith)
                        requires
                            acc > (i32::MAX - d) / 10,
                            0 <= d <= 9,
                    ;
                }
                return None;
            }
            proof {
                assert(acc * 10 + d <= i32::MAX) by (nonlinear_arith)
                    requires
                        acc <= (i32::MAX - d) / 10,
                        0 <= d <= 9,
                        0 <= acc,
                ;
            }
            acc = acc * 10 + d;
        } else {
            return Some(-1);
        }
        j = j + 1;
    }
    Some(acc)
}

fn find_char_from(s: &[char], c: char, k: usize) -> (r: usize)
    requires
        k <= s@.len(),
    ensures
        r == find_from(s@, c, k as nat),
{
    let mut i: usize = k;
    while i < s.len()
        invariant
            k <= i <= s@.len(),
            find_from(s@, c, k as nat) == find_from(s@, c, i as nat),
        decreases s.len() - i,
    {
        if s[i] == c {
            return i;
        }
        i = i + 1;
    }
    i
}

impl FlattenKey {
    /// The text of the key, rebuilt from its parts.
    pub fn to_display_string(&self) -> (r: String)
        ensures
            r@ == display_of(self.parts@),
    {
        get_display_string(self.parts.as_slice())
    }

    /// The name of the last part, empty when there is none.
    pub fn last_part_string(&self) -> (r: String)
        ensures
            r@ == (if self.parts@.len() > 0 {
                self.parts@.last().name@
            } else {
                Seq::<char>::empty()
            }),
    {
        if self.parts.len() > 0 {
            self.parts[self.parts.len() - 1].name.clone()
        } else {
            String::new()
        }
    }

    /// Reads the header key `raw` into parts, converting each name with
    /// `case_converter`.  An empty key, or one with a `[` that is never
    /// closed, gives the empty key.
    pub fn new<F>(raw: String, case_converter: F) -> (r: Self) where F: Fn(&str) -> String
        requires
            !(scan_key_from(raw@, 0) is Panic),
            forall|x: &str| call_requires(case_converter, (x,)),
        ensures
            match scan_key_from(raw@, 0) {
                KeyScan::Tokens(toks) => r.raw == raw && parts_from_tokens(
                    case_converter,
                    toks,
                    r.parts@,
                ),
                _ => r.raw@ == Seq::<char>::empty() && r.parts@.len() == 0,
            },
    {
        match Self::try_new(raw, case_converter) {
            Some(k) => k,
            None => Self { raw: String::new(), parts: Vec::new() },
        }
    }

    /// As [`FlattenKey::new`], but `None` for a bracket whose number cannot be
    /// read (a character below `0`, or a value past `i32`).
    pub fn try_new<F>(raw: String, case_converter: F) -> (r: Option<Self>) where F: Fn(&str) -> String
        requires
            forall|x: &str| call_requires(case_converter, (x,)),
        ensures
            match scan_key_from(raw@, 0) {
                KeyScan::Tokens(toks) => r matches Some(k) && k.raw == raw && parts_from_tokens(
                    case_converter,
                    toks,
                    k.parts@,
                ),
                KeyScan::Unclosed => r matches Some(k) && k.raw@ == Seq::<char>::empty()
                    && k.parts@.len() == 0,
                KeyScan::Panic => r is None,
            },
    {
        let s = to_chars(raw.as_str());
        let n = s.len();
        let mut parts: Vec<FlattenPart> = Vec::new();
        let ghost mut toks: Seq<KeyToken> = seq![];
        let mut pos: usize = 0;
        while pos < n
            invariant
                n == s@.len(),
                s@ == raw@,
                0 <= pos <= n,
                forall|x: &str| call_requires(case_converter, (x,)),
                scan_key_from(raw@, 0) == prepend_all(toks, scan_key_from(s@, pos as nat)),
                parts_from_tokens(case_converter, toks, parts@),
            decreases n - pos,
        {
            let ghost old_toks = toks;
            if s[pos] == '[' {
                let close = find_char_from(&s, ']', pos);
                if close >= n {
                    return Some(Self { raw: String::new(), parts: Vec::new() });
                }
                proof {
                    lemma_find_from(s@, ']', pos as nat);
                }
                let next = if close + 1 < n && s[close + 1] == '.' {
                    close + 2
                } else {
                    close + 1
                };
                if close < pos + 2 {
                    parts.push(FlattenPart::new_auto_index());
                    proof {
                        assert(scan_key_from(s@, pos as nat) == prepend(
                            KeyToken::Auto,
                            scan_key_from(s@, next as nat),
                        ));
                        lemma_prepend_all_push(toks, KeyToken::Auto, scan_key_from(s@, next as nat));
                        toks = toks.push(KeyToken::Auto);
                    }
                } else {
                    match bracket_number(&s, pos + 1, close) {
                        Some(v) => {
                            parts.push(FlattenPart::new_index(v));
                            proof {
                                let bv = bracket_value(
                                    s@.subrange(pos + 1, close as int),
                                    0,
                                ).unwrap();
                                assert(scan_key_from(s@, pos as nat) == prepend(
                                    KeyToken::Index(bv),
                                    scan_key_from(s@, next as nat),
                                ));
                                lemma_prepend_all_push(
                                    toks,
                                    KeyToken::Index(bv),
                                    scan_key_from(s@, next as nat),
                                );
                                toks = toks.push(KeyToken::Index(bv));
                            }
                        },
                        None => {
                            assert(scan_key_from(s@, pos as nat) == KeyScan::Panic);
                            return None;
                        },
                    }
                }
                assert(next as nat == skip_dot(s@, (close + 1) as nat));
                pos = next;
            } else {
                let seg_end = find_char_from(&s, '.', pos);
                let br = find_char_from(&s, '[', pos);
                proof {
                    lemma_find_from(s@, '.', pos as nat);
                    lemma_find_from(s@, '[', pos as nat);
                }
                let name_end = if br < seg_end {
                    br
                } else {
                    seg_end
                };
                let name_chars = crate::text::sub_chars(&s, pos, name_end);
                let name_text = from_chars(&name_chars);
                let converted = case_converter(name_text.as_str());
                parts.push(FlattenPart::new_name(converted));
                let next = if name_end < n && s[name_end] == '.' {
                    name_end + 1
                } else {
                    name_end
                };
                assert(next as nat == skip_dot(s@, name_end as nat));
                proof {
                    let tok = KeyToken::Name(s@.subrange(pos as int, name_end as int));
                    assert(scan_key_from(s@, pos as nat) == prepend(
                        tok,
                        scan_key_from(s@, next as nat),
                    ));
                    lemma_prepend_all_push(toks, tok, scan_key_from(s@, next as nat));
                    toks = toks.push(tok);
                }
                pos = next;
            }
            proof {
                assert(toks =~= old_toks + seq![toks.last()]);
                assert(forall|i: int| 0 <= i < old_toks.len() ==> toks[i] == old_toks[i]);
            }
        }
        assert(toks + Seq::<KeyToken>::empty() =~= toks);
        Some(Self { raw, parts })
    }
}

/// Number of automatic indexes in `parts`.
pub open spec fn count_auto(parts: Seq<FlattenPart>) -> nat
    decreases parts.len(),
{
    if parts.len() == 0 {
        0
    } else {
        count_auto(parts.drop_last()) + if is_auto(parts.last()) {
            1nat
        } else {
            0nat
        }
    }
}

/// Whether `i` is the last automatic index of `parts`.
pub open spec fn is_last_auto(parts: Seq<FlattenPart>, i: int) -> bool {
    &&& 0 <= i < parts.len()
    &&& is_auto(parts[i])
    &&& forall|j: int| i < j < parts.len() ==> !is_auto(parts[j])
}

/// The counter that `key` has reached in `m` (0 when it has none).
pub open spec fn counter_of(m: Map<Seq<char>, usize>, key: Seq<char>) -> usize {
    if m.contains_key(key) {
        m[key]
    } else {
        0
    }
}

#[verifier::loop_isolation(false)]
/// Gives the automatic indexes of a key numbers: the last one takes the
/// key's counter from `auto_index_map` (which then goes up by one), any
/// earlier one takes 0.  Returns how many automatic indexes are left.
pub fn fill_auto_indexes(flat_key: &mut FlattenKey, auto_index_map: &mut StrMap<usize>) -> (r: usize)
    requires
        counter_of(old(auto_index_map)@, old(flat_key).raw@) < usize::MAX,
    ensures
        final(flat_key).raw == old(flat_key).raw,
        final(flat_key).parts@.len() == old(flat_key).parts@.len(),
        (old(flat_key).raw@.len() == 0 || count_auto(old(flat_key).parts@) == 0) ==> {
            &&& final(flat_key).parts@ == old(flat_key).parts@
            &&& final(auto_index_map)@ == old(auto_index_map)@
            &&& r == 0
        },
        (old(flat_key).raw@.len() > 0 && count_auto(old(flat_key).parts@) > 0) ==> {
            let old_parts = old(flat_key).parts@;
            let counter = counter_of(old(auto_index_map)@, old(flat_key).raw@);
            &&& forall|i: int|
                0 <= i < old_parts.len() ==> {
                    let p = #[trigger] final(flat_key).parts@[i];
                    &&& p.name == old_parts[i].name
                    &&& if !is_auto(old_parts[i]) {
                        p.index == old_parts[i].index
                    } else if is_last_auto(old_parts, i) {
                        p.index == Some(counter as i32)
                    } else {
                        p.index == Some(0i32)
                    }
                }
            &&& final(auto_index_map)@ == old(auto_index_map)@.insert(
                old(flat_key).raw@,
                (counter + 1) as usize,
            )
            &&& r == count_auto(final(flat_key).parts@)
        },
{
    if flat_key.raw.as_str().is_empty() {
        return 0;
    }
    let n = flat_key.parts.len();
    let mut found = false;
    let mut w: usize = 0;
    let mut i: usize = 0;
    while i < n
        invariant
            n == flat_key.parts@.len(),
            0 <= i <= n,
            found ==> w < i && is_auto(flat_key.parts@[w as int]) && (forall|j: int|
                w < j < i ==> !is_auto(flat_key.parts@[j])),
            !found ==> forall|j: int| 0 <= j < i ==> !is_auto(flat_key.parts@[j]),
        decreases n - i,
    {
        if flat_key.parts[i].is_auto_index() {
            found = true;
            w = i;
        }
        i = i + 1;
    }
    if !found {
        proof {
            lemma_count_auto_zero(flat_key.parts@);
        }
        return 0;
    }
    proof {
        lemma_count_auto_zero(flat_key.parts@);
    }
    let ghost old_parts = flat_key.parts@;
    let counter: usize = match auto_index_map.get(&flat_key.raw) {
        Some(v) => *v,
        None => 0,
    };
    let mut k: usize = 0;
    while k < n
        invariant
            n == flat_key.parts@.len() == old_parts.len(),
            flat_key.raw == old(flat_key).raw,
            0 <= k <= n,
            is_last_auto(old_parts, w as int),
            forall|j: int|
                k <= j < n ==> #[trigger] flat_key.parts@[j] == old_parts[j],
            forall|j: int|
                0 <= j < k ==> {
                    let p = #[trigger] flat_key.parts@[j];
                    &&& p.name == old_parts[j].name
                    &&& if !is_auto(old_parts[j]) {
                        p.index == old_parts[j].index
                    } else if is_last_auto(old_parts, j) {
                        p.index == Some(counter as i32)
                    } else {
                        p.index == Some(0i32)
                    }
                },
        decreases n - k,
    {
        if flat_key.parts[k].is_auto_index() {
            let mut p = flat_key.parts[k].copy();
            if k != w {
                p.set_index(0);
                assert(!is_last_auto(old_parts, k as int));
            } else {
                p.set_index(counter as i32);
            }
            flat_key.parts.set(k, p);
        }
        k = k + 1;
    }
    auto_index_map.insert(flat_key.raw.clone(), counter + 1);
    let mut cnt: usize = 0;
    let mut q: usize = 0;
    assert(flat_key.parts@.take(0) =~= Seq::<FlattenPart>::empty());
    while q < n
        invariant
            n == flat_key.parts@.len(),
            0 <= q <= n,
            flat_key.raw == old(flat_key).raw,
            cnt == count_auto(flat_key.parts@.take(q as int)),
            cnt <= q,
        decreases n - q,
    {
        assert(flat_key.parts@.take(q + 1).drop_last() =~= flat_key.parts@.take(q as int));
        if flat_key.parts[q].is_auto_index() {
            cnt = cnt + 1;
        }
        q = q + 1;
    }
    assert(flat_key.parts@.take(n as int) =~= flat_key.parts@);
    cnt
}

/// A sequence of parts has no automatic index exactly when its count is 0.
pub proof fn lemma_count_auto_zero(parts: Seq<FlattenPart>)
    ensures
        count_auto(parts) == 0 <==> (forall|j: int| 0 <= j < parts.len() ==> !is_auto(parts[j])),
    decreases parts.len(),
{
    if parts.len() > 0 {
        lemma_count_auto_zero(parts.drop_last());
        if count_auto(parts) == 0 {
            assert forall|j: int| 0 <= j < parts.len() implies !is_auto(parts[j]) by {
                if j < parts.len() - 1 {
                    assert(parts.drop_last()[j] == parts[j]);
                }
            }
        }
        if forall|j: int| 0 <= j < parts.len() ==> !is_auto(parts[j]) {
            assert forall|j: int| 0 <= j < parts.drop_last().len() implies !is_auto(
                parts.drop_last()[j],
            ) by {
                assert(parts.drop_last()[j] == parts[j]);
            }
        }
    }
}

// ---------------------------------------------------------------------------
// Writing a value at a flattened path
// ---------------------------------------------------------------------------

/// The models of a sequence of values.
pub open spec fn models(s: Seq<Json>) -> Seq<JsonV> {
    Seq::new(s.len(), |i: int| s[i].model())
}

/// The models of a sequence of object members.
pub open spec fn member_models(s: Seq<(String, Json)>) -> Seq<(Seq<char>, JsonV)> {
    Seq::new(s.len(), |i: int| (s[i].0@, s[i].1.model()))
}

pub proof fn lemma_array_model(v: Vec<Json>)
    ensures
        Json::Array(v).model() == JsonV::Array(models(v@)),
{
    if let JsonV::Array(a) = Json::Array(v).model() {
        assert(a =~= models(v@));
    }
}

pub proof fn lemma_object_model(v: Vec<(String, Json)>)
    ensures
        Json::Object(v).model() == JsonV::Object(member_models(v@)),
{
    if let JsonV::Object(a) = Json::Object(v).model() {
        assert(a =~= member_models(v@));
    }
}

/// The empty container that part `k + 1` needs, in place of a null at part `k`.
pub open spec fn prep(c: JsonV, parts: Seq<FlattenPart>, k: int) -> JsonV {
    if k + 1 < parts.len() && c is Null {
        if parts[k + 1].index is Some {
            JsonV::Array(seq![])
        } else {
            JsonV::Object(seq![])
        }
    } else {
        c
    }
}

/// `arr` extended with nulls to at least `n` elements.
pub open spec fn pad(arr: Seq<JsonV>, n: int) -> Seq<JsonV> {
    if arr.len() >= n {
        arr
    } else {
        arr + Seq::new((n - arr.len()) as nat, |i: int| JsonV::Null)
    }
}

/// Index of the first member named `name`, or the number of members.
pub open spec fn member_pos(m: Seq<(Seq<char>, JsonV)>, name: Seq<char>) -> nat
    decreases m.len(),
{
    if m.len() == 0 {
        0
    } else if m[0].0 == name {
        0
    } else {
        1 + member_pos(m.drop_first(), name)
    }
}

/// The document `cur` after writing `value` at the path `parts[k..]`: an
/// index steps into an array (a negative index appends), padding it with
/// nulls; a name steps into an object member, adding a null member when it
/// is missing; a null met before a further part becomes the container that
/// part needs.  A part whose container has the wrong kind is replaced by
/// null and skipped.
pub open spec fn set_from(cur: JsonV, parts: Seq<FlattenPart>, k: nat, value: JsonV) -> JsonV
    decreases parts.len() - k,
{
    if k >= parts.len() {
        value
    } else {
        match parts[k as int].index {
            Some(idx) => match cur {
                JsonV::Array(arr) => {
                    let t: int = if idx >= 0 {
                        idx as int
                    } else {
                        arr.len() as int
                    };
                    let a2 = pad(arr, t + 1);
                    JsonV::Array(
                        a2.update(t, set_from(prep(a2[t], parts, k as int), parts, k + 1, value)),
                    )
                },
                _ => set_from(prep(JsonV::Null, parts, k as int), parts, k + 1, value),
            },
            None => match cur {
                JsonV::Object(m) => {
                    let name = parts[k as int].name@;
                    let p = member_pos(m, name) as int;
                    if p < m.len() {
                        JsonV::Object(
                            m.update(
                                p,
                                (name, set_from(prep(m[p].1, parts, k as int), parts, k + 1, value)),
                            ),
                        )
                    } else {
                        JsonV::Object(
                            m.push(
                                (
                                    name,
                                    set_from(prep(JsonV::Null, parts, k as int), parts, k + 1, value),
                                ),
                            ),
                        )
                    }
                },
                _ => set_from(prep(JsonV::Null, parts, k as int), parts, k + 1, value),
            },
        }
    }
}

/// The value found at the path `parts[k..]` of `cur`, if the path leads somewhere.
pub open spec fn get_from(cur: JsonV, parts: Seq<FlattenPart>, k: nat) -> Option<JsonV>
    decreases parts.len() - k,
{
    if k >= parts.len() {
        Some(cur)
    } else {
        match (parts[k as int].index, cur) {
            (Some(idx), JsonV::Array(arr)) => if 0 <= idx < arr.len() {
                get_from(arr[idx as int], parts, k + 1)
            } else {
                None
            },
            (None, JsonV::Object(m)) => {
                let p = member_pos(m, parts[k as int].name@) as int;
                if p < m.len() {
                    get_from(m[p].1, parts, k + 1)
                } else {
                    None
                }
            },
            _ => None,
        }
    }
}

/// Whether the path `parts[k..]` has no negative index and meets, all along
/// `cur`, containers of the kind each part needs (or nothing yet).
pub open spec fn path_fits(cur: JsonV, parts: Seq<FlattenPart>, k: nat) -> bool
    decreases parts.len() - k,
{
    if k >= parts.len() {
        true
    } else {
        match (parts[k as int].index, cur) {
            (Some(idx), JsonV::Array(arr)) => idx >= 0 && (idx >= arr.len() || path_fits(
                prep(arr[idx as int], parts, k as int),
                parts,
                k + 1,
            )),
            (None, JsonV::Object(m)) => {
                let p = member_pos(m, parts[k as int].name@) as int;
                p >= m.len() || path_fits(prep(m[p].1, parts, k as int), parts, k + 1)
            },
            _ => false,
        }
    }
}

pub proof fn lemma_member_pos(m: Seq<(Seq<char>, JsonV)>, name: Seq<char>)
    ensures
        member_pos(m, name) <= m.len(),
        member_pos(m, name) < m.len() ==> m[member_pos(m, name) as int].0 == name,
        forall|j: int| 0 <= j < member_pos(m, name) ==> m[j].0 != name,
    decreases m.len(),
{
    if m.len() > 0 && m[0].0 != name {
        lemma_member_pos(m.drop_first(), name);
        assert forall|j: int| 0 <= j < member_pos(m, name) implies m[j].0 != name by {
            if j > 0 {
                assert(m.drop_first()[j - 1] == m[j]);
            }
        }
    }
}

/// Whether no part of `parts` is a negative (automatic) index.
pub open spec fn no_negative_index(parts: Seq<FlattenPart>) -> bool {
    forall|j: int| 0 <= j < parts.len() ==> !is_auto(#[trigger] parts[j])
}

/// A fresh container made for the next part always fits the rest of the path
/// when that path has no negative index.
pub proof fn lemma_fresh_fits(parts: Seq<FlattenPart>, k: nat)
    requires
        k < parts.len(),
        no_negative_index(parts),
    ensures
        path_fits(prep(JsonV::Null, parts, k as int), parts, k + 1),
{
    if k + 1 < parts.len() {
        assert(member_pos(Seq::<(Seq<char>, JsonV)>::empty(), parts[k as int + 1].name@) == 0);
    }
}

/// A value written at a path is read back at that path, when the path has
/// no negative index and fits the document.
pub proof fn lemma_set_then_get(cur: JsonV, parts: Seq<FlattenPart>, k: nat, value: JsonV)
    requires
        no_negative_index(parts),
        path_fits(cur, parts, k),
    ensures
        get_from(set_from(cur, parts, k, value), parts, k) == Some(value),
    decreases parts.len() - k,
{
    if k < parts.len() {
        match (parts[k as int].index, cur) {
            (Some(idx), JsonV::Array(arr)) => {
                let t = idx as int;
                let a2 = pad(arr, t + 1);
                assert(a2[t] == if t < arr.len() { arr[t] } else { JsonV::Null });
                if t < arr.len() {
                    lemma_set_then_get(prep(arr[t], parts, k as int), parts, k + 1, value);
                } else {
                    lemma_fresh_fits(parts, k);
                    lemma_set_then_get(prep(JsonV::Null, parts, k as int), parts, k + 1, value);
                }
            },
            (None, JsonV::Object(m)) => {
                let name = parts[k as int].name@;
                let p = member_pos(m, name) as int;
                lemma_member_pos(m, name);
                if p < m.len() {
                    let m2 = m.update(
                        p,
                        (name, set_from(prep(m[p].1, parts, k as int), parts, k + 1, value)),
                    );
                    lemma_member_pos(m2, name);
                    assert(m2[p].0 == name);
                    assert(forall|j: int| 0 <= j < p ==> m2[j] == m[j]);
                    assert(member_pos(m2, name) == p);
                    lemma_set_then_get(prep(m[p].1, parts, k as int), parts, k + 1, value);
                } else {
                    let m2 = m.push(
                        (name, set_from(prep(JsonV::Null, parts, k as int), parts, k + 1, value)),
                    );
                    lemma_member_pos(m2, name);
                    assert(m2[p].0 == name);
                    assert(member_pos(m2, name) == p);
                    lemma_fresh_fits(parts, k);
                    lemma_set_then_get(prep(JsonV::Null, parts, k as int), parts, k + 1, value);
                }
            },
            _ => {},
        }
    }
}

/// Law: after `set_json_value` writes `value` at a path without automatic
/// indexes that fits the document, reading the path gives `value` back.
pub proof fn law_set_json_value_read_back(doc: JsonV, parts: Seq<FlattenPart>, value: JsonV)
    requires
        no_negative_index(parts),
        path_fits(doc, parts, 0),
    ensures
        get_from(set_from(doc, parts, 0, value), parts, 0) == Some(value),
{
    lemma_set_then_get(doc, parts, 0, value);
}

fn prep_exec(c: Json, parts: &[FlattenPart], k: usize) -> (r: Json)
    requires
        k < parts@.len(),
    ensures
        r.model() == prep(c.model(), parts@, k as int),
{
    if parts.len() - k > 1 {
        if let Json::Null = c {
            if parts[k + 1].is_index() {
                let v: Vec<Json> = Vec::new();
                proof {
                    lemma_array_model(v);
                    assert(models(v@) =~= Seq::<JsonV>::empty());
                }
                return Json::Array(v);
            } else {
                let v: Vec<(String, Json)> = Vec::new();
                proof {
                    lemma_object_model(v);
                    assert(member_models(v@) =~= Seq::<(Seq<char>, JsonV)>::empty());
                }
                return Json::Object(v);
            }
        }
    }
    c
}

fn set_at(cur: &mut Json, parts: &[FlattenPart], k: usize, value: Json)
    requires
        k <= parts@.len(),
    ensures
        final(cur).model() == set_from(old(cur).model(), parts@, k as nat, value.model()),
    decreases parts@.len() - k,
{
    if k >= parts.len() {
        *cur = value;
        return;
    }
    let mut taken = Json::Null;
    std::mem::swap(&mut taken, cur);
    match parts[k].index {
        Some(idx) => {
            match taken {
                Json::Array(mut arr) => {
                    proof {
                        lemma_array_model(arr);
                    }
                    let ghost arr0 = models(arr@);
                    let t: usize = if idx >= 0 {
                        idx as usize
                    } else {
                        arr.len()
                    };
                    while arr.len() <= t
                        invariant
                            arr0.len() <= arr@.len(),
                            models(arr@) == pad(arr0, arr@.len() as int),
                            arr@.len() <= t + 1 || arr@.len() == arr0.len(),
                        decreases t + 1 - arr@.len(),
                    {
                        let ghost before = arr@;
                        arr.push(Json::Null);
                        assert(models(arr@) =~= models(before).push(JsonV::Null));
                        assert(pad(arr0, arr@.len() as int) =~= pad(arr0, before.len() as int).push(
                            JsonV::Null,
                        ));
                    }
                    assert(models(arr@) =~= pad(arr0, t + 1));
                    let child = arr.remove(t);
                    let mut child = prep_exec(child, parts, k);
                    set_at(&mut child, parts, k + 1, value);
                    let ghost new_child = child.model();
                    arr.insert(t, child);
                    proof {
                        assert(models(arr@) =~= pad(arr0, t + 1).update(t as int, new_child));
                        lemma_array_model(arr);
                    }
                    *cur = Json::Array(arr);
                },
                _ => {
                    let mut child = prep_exec(Json::Null, parts, k);
                    set_at(&mut child, parts, k + 1, value);
                    *cur = child;
                },
            }
        },
        None => {
            match taken {
                Json::Object(mut m) => {
                    proof {
                        lemma_object_model(m);
                        lemma_member_pos(member_models(m@), parts@[k as int].name@);
                    }
                    let ghost m0 = member_models(m@);
                    let mut p: usize = 0;
                    while p < m.len() && !(m[p].0 == parts[k].name)
                        invariant
                            k < parts@.len(),
                            0 <= p <= m@.len(),
                            m0 == member_models(m@),
                            forall|j: int| 0 <= j < p ==> m@[j].0@ != parts@[k as int].name@,
                        decreases m@.len() - p,
                    {
                        p = p + 1;
                    }
                    assert(p as nat == member_pos(m0, parts@[k as int].name@)) by {
                        let q = member_pos(m0, parts@[k as int].name@) as int;
                        if q < p {
                            assert(m0[q].0 == m@[q].0@);
                        }
                        if p < q {
                            assert(m0[p as int].0 == m@[p as int].0@);
                        }
                    }
                    if p < m.len() {
                        let (key, child) = m.remove(p);
                        let mut child = prep_exec(child, parts, k);
                        set_at(&mut child, parts, k + 1, value);
                        let ghost new_child = child.model();
                        m.insert(p, (key, child));
                        proof {
                            assert(member_models(m@) =~= m0.update(
                                p as int,
                                (parts@[k as int].name@, new_child),
                            ));
                            lemma_object_model(m);
                        }
                        *cur = Json::Object(m);
                    } else {
                        let mut child = prep_exec(Json::Null, parts, k);
                        set_at(&mut child, parts, k + 1, value);
                        let ghost new_child = child.model();
                        m.push((parts[k].name.clone(), child));
                        proof {
                            assert(member_models(m@) =~= m0.push(
                                (parts@[k as int].name@, new_child),
                            ));
                            lemma_object_model(m);
                        }
                        *cur = Json::Object(m);
                    }
                },
                _ => {
                    let mut child = prep_exec(Json::Null, parts, k);
                    set_at(&mut child, parts, k + 1, value);
                    *cur = child;
                },
            }
        },
    }
}

/// Writes `value` into `json_data` at the path `paths` (see [`set_from`]).
pub fn set_json_value(json_data: &mut Json, paths: &Vec<FlattenPart>, value: Json)
    ensures
        final(json_data).model() == set_from(old(json_data).model(), paths@, 0, value.model()),
{
    set_at(json_data, paths.as_slice(), 0, value);
}

/// The document of one table row: starting from `doc`, each cell `j` (from
/// `j` on) that has a header key is written at that key's path.
pub open spec fn fill_row(doc: JsonV, head: Seq<Seq<FlattenPart>>, row: Seq<JsonV>, j: nat) -> JsonV
    decreases row.len() - j,
{
    if j >= row.len() {
        doc
    } else if j < head.len() {
        fill_row(set_from(doc, head[j as int], 0, row[j as int]), head, row, j + 1)
    } else {
        fill_row(doc, head, row, j + 1)
    }
}

/// The paths of the header keys.
pub open spec fn head_paths(head: Seq<&FlattenKey>) -> Seq<Seq<FlattenPart>> {
    Seq::new(head.len(), |i: int| head[i].parts@)
}

/// One JSON object per table row, each cell written at the path of its
/// column's header key; cells past the last key are left out.
pub fn get_json_list_by_table(head: Vec<&FlattenKey>, tbody: Vec<&Vec<Json>>) -> (r: Vec<Json>)
    ensures
        r@.len() == tbody@.len(),
        forall|i: int|
            0 <= i < r@.len() ==> #[trigger] r@[i].model() == fill_row(
                JsonV::Object(seq![]),
                head_paths(head@),
                models(tbody@[i]@),
                0,
            ),
{
    let mut result: Vec<Json> = Vec::new();
    let mut i: usize = 0;
    while i < tbody.len()
        invariant
            0 <= i <= tbody@.len(),
            result@.len() == i,
            forall|q: int|
                0 <= q < i ==> #[trigger] result@[q].model() == fill_row(
                    JsonV::Object(seq![]),
                    head_paths(head@),
                    models(tbody@[q]@),
                    0,
                ),
        decreases tbody.len() - i,
    {
        let row: &Vec<Json> = tbody[i];
        let v: Vec<(String, Json)> = Vec::new();
        proof {
            lemma_object_model(v);
            assert(member_models(v@) =~= Seq::<(Seq<char>, JsonV)>::empty());
        }
        let mut json_obj = Json::Object(v);
        let mut j: usize = 0;
        while j < row.len()
            invariant
                0 <= j <= row@.len(),
                fill_row(json_obj.model(), head_paths(head@), models(row@), j as nat) == fill_row(
                    JsonV::Object(seq![]),
                    head_paths(head@),
                    models(row@),
                    0,
                ),
            decreases row.len() - j,
        {
            if j < head.len() {
                let cell = row[j].copy();
                set_json_value(&mut json_obj, &head[j].parts, cell);
            }
            j = j + 1;
        }
        result.push(json_obj);
        i = i + 1;
    }
    result
}

} // verus!
