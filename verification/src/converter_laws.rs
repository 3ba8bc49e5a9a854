//! Laws of the number converters.
use vstd::prelude::*;
use crate::cell_helper::{conv_key, spec_str_converter, upper_hex};
use crate::text::{
    all_ascii, ascii_lower, ascii_lowercase, spec_lower, digit_char, digit_value, digits_value, has_prefix, int_decimal, nat_digits,
    replace_all, spec_parse_i64, spec_parse_i64_hex, spec_parse_int,
};

verus! {

proof fn lemma_digit_roundtrip(d: nat, radix: nat)
    requires
        d < radix,
        2 <= radix <= 16,
    ensures
        digit_value(digit_char(d), radix) == Some(d),
        digit_char(d) != '+' && digit_char(d) != '-',
{
}

proof fn lemma_digits_roundtrip(n: nat, radix: nat)
    requires
        2 <= radix <= 16,
    ensures
        digits_value(nat_digits(n, radix), radix) == Some(n),
        nat_digits(n, radix).len() > 0,
        nat_digits(n, radix)[0] != '+' && nat_digits(n, radix)[0] != '-',
    decreases n,
{
    if n < radix {
        lemma_digit_roundtrip(n, radix);
        let s = nat_digits(n, radix);
        assert(s == seq![digit_char(n)]);
        assert(s.drop_last() =~= Seq::<char>::empty());
        assert(s.last() == digit_char(n));
        assert(digits_value(s.drop_last(), radix) == Some(0nat));
        assert(0 * radix == 0) by (nonlinear_arith);
    } else {
        assert(n / radix < n && n % radix < radix && (n / radix) * radix + n % radix == n) by (nonlinear_arith)
            requires
                radix >= 2,
                n >= radix,
        ;
        lemma_digits_roundtrip(n / radix, radix);
        lemma_digit_roundtrip(n % radix, radix);
        let s = nat_digits(n, radix);
        assert(s == nat_digits(n / radix, radix).push(digit_char(n % radix)));
        assert(s.drop_last() =~= nat_digits(n / radix, radix));
        assert(s.last() == digit_char(n % radix));
        assert(s[0] == nat_digits(n / radix, radix)[0]);
    }
}

proof fn lemma_parse_digits(n: nat, radix: nat)
    requires
        2 <= radix <= 16,
    ensures
        spec_parse_int(nat_digits(n, radix), radix, true) == Some(n as int),
{
    lemma_digits_roundtrip(n, radix);
}

proof fn lemma_conv_keys()
    ensures
        conv_key("hex"@) == "hex"@,
        conv_key("dec"@) == "dec"@,
        "hex"@ != "fnv1a32"@,
        "dec"@ != "fnv1a32"@,
        "dec"@ != "hex"@,
{
    reveal_strlit("hex");
    reveal_strlit("dec");
    reveal_strlit("fnv1a32");
    reveal_with_fuel(replace_all, 4);
    let u = seq!['_'];
    let h = "hex"@;
    let d = "dec"@;
    assert(h[0] == 'h' && h[1] == 'e' && h[2] == 'x');
    assert(d[0] == 'd' && d[1] == 'e' && d[2] == 'c');
    assert(h.take(1)[0] != u[0] && h.skip(1).take(1)[0] != u[0] && h.skip(2).take(1)[0] != u[0]);
    assert(d.take(1)[0] != u[0] && d.skip(1).take(1)[0] != u[0] && d.skip(2).take(1)[0] != u[0]);
    assert(!has_prefix(h, u) && !has_prefix(h.skip(1), u) && !has_prefix(h.skip(2), u));
    assert(!has_prefix(d, u) && !has_prefix(d.skip(1), u) && !has_prefix(d.skip(2), u));
    assert(h.drop_first() =~= h.skip(1));
    assert(h.skip(1).drop_first() =~= h.skip(2));
    assert(h.skip(2).drop_first() =~= Seq::<char>::empty());
    assert(d.drop_first() =~= d.skip(1));
    assert(d.skip(1).drop_first() =~= d.skip(2));
    assert(d.skip(2).drop_first() =~= Seq::<char>::empty());
    assert(replace_all(h, u, seq![]) =~= h);
    assert(replace_all(d, u, seq![]) =~= d);
    assert(all_ascii(h));
    assert(all_ascii(d));
    assert(ascii_lowercase(h) =~= h);
    assert(ascii_lowercase(d) =~= d);
}

/// Law: on the text of a number from 0 to `i64::MAX`, the `hex` converter
/// undoes the `dec` converter, and on the upper-case hexadecimal text of
/// such a number the `dec` converter undoes the `hex` converter.
pub proof fn law_hex_and_dec_invert(v: int)
    requires
        0 <= v <= i64::MAX,
    ensures
        spec_str_converter("hex"@, spec_str_converter("dec"@, int_decimal(v))) == int_decimal(v),
        spec_str_converter("dec"@, spec_str_converter("hex"@, upper_hex(v))) == upper_hex(v),
{
    lemma_conv_keys();
    lemma_parse_digits(v as nat, 10);
    lemma_parse_digits(v as nat, 16);
    assert(int_decimal(v) == nat_digits(v as nat, 10));
    assert(upper_hex(v) == nat_digits(v as nat, 16));
    assert(spec_parse_i64(int_decimal(v)) == Some(v as i64));
    assert(spec_parse_i64_hex(upper_hex(v)) == Some(v as i64));
}

proof fn lemma_remove_underscores(s: Seq<char>)
    ensures
        forall|i: int|
            0 <= i < replace_all(s, seq!['_'], seq![]).len() ==> #[trigger] replace_all(s, seq!['_'], seq![])[i]
                != '_',
        all_ascii(s) ==> all_ascii(replace_all(s, seq!['_'], seq![])),
    decreases s.len(),
{
    let u = seq!['_'];
    if s.len() > 0 {
        if has_prefix(s, u) {
            lemma_remove_underscores(s.skip(1));
            assert(replace_all(s, u, seq![]) =~= replace_all(s.skip(1), u, seq![]));
            if all_ascii(s) {
                assert(all_ascii(s.skip(1))) by {
                    assert forall|i: int| 0 <= i < s.skip(1).len() implies (#[trigger] s.skip(1)[i] as u32) < 128 by {
                        assert(s.skip(1)[i] == s[i + 1]);
                    }
                }
            }
        } else {
            lemma_remove_underscores(s.drop_first());
            let r = replace_all(s, u, seq![]);
            let t = replace_all(s.drop_first(), u, seq![]);
            assert(r == seq![s[0]] + t);
            assert(s.take(1) =~= seq![s[0]]);
            assert(s[0] != '_');
            assert forall|i: int| 0 <= i < r.len() implies #[trigger] r[i] != '_' by {
                if i > 0 {
                    assert(r[i] == t[i - 1]);
                }
            }
            if all_ascii(s) {
                assert(all_ascii(s.drop_first())) by {
                    assert forall|i: int| 0 <= i < s.drop_first().len() implies (#[trigger] s.drop_first()[i] as u32)
                        < 128 by {
                        assert(s.drop_first()[i] == s[i + 1]);
                    }
                }
                assert forall|i: int| 0 <= i < r.len() implies (#[trigger] r[i] as u32) < 128 by {
                    if i > 0 {
                        assert(r[i] == t[i - 1]);
                    }
                }
            }
        }
    }
}

proof fn lemma_no_underscores_kept(s: Seq<char>)
    requires
        forall|i: int| 0 <= i < s.len() ==> #[trigger] s[i] != '_',
    ensures
        replace_all(s, seq!['_'], seq![]) == s,
    decreases s.len(),
{
    let u = seq!['_'];
    if s.len() > 0 {
        assert(s.take(1)[0] == s[0]);
        assert(!has_prefix(s, u));
        assert forall|i: int| 0 <= i < s.drop_first().len() implies #[trigger] s.drop_first()[i] != '_' by {
            assert(s.drop_first()[i] == s[i + 1]);
        }
        lemma_no_underscores_kept(s.drop_first());
        assert(seq![s[0]] + s.drop_first() =~= s);
    }
}

proof fn lemma_ascii_lower_char(c: char)
    requires
        (c as u32) < 128,
    ensures
        (ascii_lower(c) as u32) < 128,
        ascii_lower(ascii_lower(c)) == ascii_lower(c),
        c != '_' ==> ascii_lower(c) != '_',
{
}

/// Law: a converter is found by its name with the underscores removed and
/// the letters in lower case, so for an ASCII name, naming the converter by
/// that normalised name gives the same conversion of every text.
pub proof fn law_converter_name_normalised(conv: Seq<char>, s: Seq<char>)
    requires
        all_ascii(conv),
    ensures
        spec_str_converter(conv_key(conv), s) == spec_str_converter(conv, s),
{
    let r = replace_all(conv, seq!['_'], seq![]);
    lemma_remove_underscores(conv);
    let k = ascii_lowercase(r);
    assert(conv_key(conv) == k);
    assert forall|i: int| 0 <= i < k.len() implies #[trigger] k[i] != '_' && (k[i] as u32) < 128 by {
        lemma_ascii_lower_char(r[i]);
    }
    lemma_no_underscores_kept(k);
    assert(all_ascii(k));
    assert(ascii_lowercase(k) =~= k) by {
        assert forall|i: int| 0 <= i < k.len() implies #[trigger] ascii_lowercase(k)[i] == k[i] by {
            lemma_ascii_lower_char(r[i]);
        }
    }
    assert(conv_key(k) == k);
}

} // verus!
