use vstd::prelude::*;

use crate::json::dec_digits;
use crate::json::esc_char;
use crate::json::hex4;
use crate::json::hex_digit;
use crate::json::int_bytes;
use crate::json::items_tail;
use crate::json::json_bytes;
use crate::json::members_tail;
use crate::json::str_body;
use crate::parse::digits_end;
use crate::parse::digits_val;
use crate::parse::hex4_val;
use crate::parse::hex_val;
use crate::parse::is_digit;
use crate::parse::sp_document;
use crate::parse::sp_escape;
use crate::parse::sp_int;
use crate::parse::sp_items;
use crate::parse::sp_members;
use crate::parse::sp_str_chars;
use crate::parse::spec_char_of;
use crate::parse::sp_value;
use crate::value::SpecValue;
use crate::value::encodable;
use crate::value::spec_wire;
use crate::value::unique_keys;
use crate::value::wire_of;

verus! {

broadcast use vstd::seq::group_seq_axioms, vstd::std_specs::vec::group_vec_axioms;

/// Indexing into a matched region.
proof fn lemma_sub_index(s: Seq<u8>, i: int, jb: Seq<u8>)
    requires
        0 <= i,
        i + jb.len() <= s.len(),
        s.subrange(i, i + jb.len()) == jb,
    ensures
        forall|t: int| 0 <= t < jb.len() ==> s[i + t] == jb[t],
{
    assert forall|t: int| 0 <= t < jb.len() implies s[i + t] == jb[t] by {
        assert(s.subrange(i, i + jb.len())[t] == s[i + t]);
    }
}

/// A region matching a concatenation splits into two matching regions.
proof fn lemma_region_split(s: Seq<u8>, i: int, a: Seq<u8>, b: Seq<u8>)
    requires
        0 <= i,
        i + a.len() + b.len() <= s.len(),
        s.subrange(i, i + a.len() + b.len()) == a + b,
    ensures
        s.subrange(i, i + a.len()) == a,
        s.subrange(i + a.len(), i + a.len() + b.len()) == b,
{
    lemma_sub_index(s, i, a + b);
    assert forall|t: int| 0 <= t < a.len() implies s.subrange(i, i + a.len())[t] == a[t] by {
        assert(s[i + t] == (a + b)[t]);
    }
    assert(s.subrange(i, i + a.len()) =~= a);
    assert forall|t: int|
        0 <= t < b.len() implies s.subrange(i + a.len(), i + a.len() + b.len())[t] == b[t] by {
        assert(s[i + (a.len() + t)] == (a + b)[a.len() + t]);
        assert(s.subrange(i + a.len(), i + a.len() + b.len())[t] == s[i + a.len() + t]);
    }
    assert(s.subrange(i + a.len(), i + a.len() + b.len()) =~= b);
}

/// Shape of a decimal digit run: non-empty, all digits, no leading zero
/// unless the number is zero.
proof fn lemma_dec_digits_props(n: int)
    requires
        0 <= n,
    ensures
        dec_digits(n).len() >= 1,
        forall|t: int| 0 <= t < dec_digits(n).len() ==> is_digit(#[trigger] dec_digits(n)[t]),
        n >= 1 ==> dec_digits(n)[0] != 48,
        n < 10 ==> dec_digits(n).len() == 1,
    decreases n,
{
    if n >= 10 {
        lemma_dec_digits_props(n / 10);
        let a = dec_digits(n / 10);
        let b = seq![(48 + n % 10) as u8];
        assert forall|t: int| 0 <= t < dec_digits(n).len() implies is_digit(
            #[trigger] dec_digits(n)[t],
        ) by {
            assert(dec_digits(n) == a + b);
            if t < a.len() {
                assert((a + b)[t] == a[t]);
            } else {
                assert((a + b)[t] == b[t - a.len()]);
            }
        }
        assert(dec_digits(n)[0] == a[0]);
    }
}

/// The digit run of a serialized number evaluates back to the number.
proof fn lemma_dec_digits_val(s: Seq<u8>, a: int, n: int)
    requires
        0 <= a,
        0 <= n,
        a + dec_digits(n).len() <= s.len(),
        s.subrange(a, a + dec_digits(n).len()) == dec_digits(n),
    ensures
        digits_val(s, a, a + dec_digits(n).len()) == n,
    decreases n,
{
    lemma_sub_index(s, a, dec_digits(n));
    if n < 10 {
        assert(digits_val(s, a, a) == 0);
        assert(digits_val(s, a, a + 1) == digits_val(s, a, a) * 10 + (s[a] - 48));
        assert(s[a + 0] == dec_digits(n)[0]);
    } else {
        let pre = dec_digits(n / 10);
        let last = seq![(48 + n % 10) as u8];
        lemma_region_split(s, a, pre, last);
        lemma_dec_digits_val(s, a, n / 10);
        let e = a + dec_digits(n).len();
        assert(s[e - 1] == dec_digits(n)[dec_digits(n).len() - 1]);
        assert(dec_digits(n)[dec_digits(n).len() - 1] == (48 + n % 10) as u8) by {
            assert(dec_digits(n) == pre + last);
            assert((pre + last)[pre.len() as int] == last[0]);
        }
        assert(digits_val(s, a, e) == digits_val(s, a, e - 1) * 10 + (s[e - 1] - 48));
    }
}

/// A digit run bounded by a non-digit (or the end) ends exactly there.
proof fn lemma_digits_end_exact(s: Seq<u8>, a: int, e: int)
    requires
        0 <= a <= e <= s.len(),
        forall|t: int| a <= t < e ==> is_digit(#[trigger] s[t]),
        e == s.len() || !is_digit(s[e]),
    ensures
        digits_end(s, a) == e,
    decreases e - a,
{
    if a < e {
        lemma_digits_end_exact(s, a + 1, e);
    }
}

/// A serialized integer parses back to itself.
proof fn lemma_parse_int_complete(s: Seq<u8>, i: int, v: int)
    requires
        i64::MIN <= v <= i64::MAX,
        0 <= i,
        i + int_bytes(v).len() <= s.len(),
        s.subrange(i, i + int_bytes(v).len()) == int_bytes(v),
        i + int_bytes(v).len() == s.len() || !is_digit(s[i + int_bytes(v).len()]),
    ensures
        int_bytes(v).len() >= 1,
        s[i] == 45 || is_digit(s[i]),
        sp_int(s, i) == Some((SpecValue::Int(v), i + int_bytes(v).len())),
{
    let e = i + int_bytes(v).len();
    lemma_sub_index(s, i, int_bytes(v));
    if v < 0 {
        lemma_dec_digits_props(-v);
        let d = dec_digits(-v);
        lemma_region_split(s, i, seq![45u8], d);
        lemma_sub_index(s, i + 1, d);
        assert(s[i + 0] == int_bytes(v)[0]);
        assert(int_bytes(v)[0] == (seq![45u8] + d)[0]);
        assert(s[i] == 45);
        assert forall|t: int| i + 1 <= t < e implies is_digit(#[trigger] s[t]) by {
            assert(s[t] == d[t - (i + 1)]);
        }
        lemma_digits_end_exact(s, i + 1, e);
        lemma_dec_digits_val(s, i + 1, -v);
        assert(s[(i + 1) + 0] == d[0]);
        assert(s[i + 1] == d[0]);
    } else {
        lemma_dec_digits_props(v);
        let d = dec_digits(v);
        assert forall|t: int| i <= t < e implies is_digit(#[trigger] s[t]) by {
            assert(s[t] == d[t - i]);
        }
        lemma_digits_end_exact(s, i, e);
        lemma_dec_digits_val(s, i, v);
        assert(s[i + 0] == d[0]);
        assert(s[i] == d[0]);
        assert(is_digit(s[i]));
        assert(s[i] != 45);
        if v >= 1 {
            assert(s[i] != 48);
        } else {
            assert(d.len() == 1);
        }
    }
}

/// The four hex digits of `hex4(u)` evaluate back to `u`.
proof fn lemma_hex4_val(s: Seq<u8>, a: int, u: u32)
    requires
        u < 0x10000,
        0 <= a,
        a + 4 <= s.len(),
        s.subrange(a, a + 4) == hex4(u),
    ensures
        hex4_val(s, a) == u,
{
    lemma_sub_index(s, a, hex4(u));
    let n0 = (u / 0x1000) % 16;
    let n1 = (u / 0x100) % 16;
    let n2 = (u / 0x10) % 16;
    let n3 = u % 16;
    assert(s[a] == hex_digit(n0) && s[a + 1] == hex_digit(n1) && s[a + 2] == hex_digit(n2) && s[a
        + 3] == hex_digit(n3));
    assert(hex_val(hex_digit(n0)) == n0 && hex_val(hex_digit(n1)) == n1 && hex_val(hex_digit(n2))
        == n2 && hex_val(hex_digit(n3)) == n3);
    assert(u == ((u / 0x1000) % 16) * 0x1000 + ((u / 0x100) % 16) * 0x100 + ((u / 0x10) % 16)
        * 0x10 + u % 16) by (bit_vector)
        requires
            u < 0x10000,
    ;
}

/// A serialized string body parses back to the characters it came from.
/// An escaped (backslash-led) character region parses back to the character.
#[verifier::rlimit(100)]
#[verifier::spinoff_prover]
proof fn lemma_parse_escape_complete(s: Seq<u8>, p: int, c: char)
    requires
        0 <= p,
        p + esc_char(c).len() < s.len(),
        s.subrange(p, p + esc_char(c).len()) == esc_char(c),
        c == '"' || c == '\\' || (c as u32) < 0x20 || (c as u32) >= 0x80,
    ensures
        s[p] == 92,
        sp_escape(s, p) == Some((c, p + esc_char(c).len())),
{
    let u = c as u32;
    let e = esc_char(c);
    lemma_sub_index(s, p, e);
    vstd::utf8::char_is_scalar(c);
    vstd::utf8::char_u32_cast(c, u);
    if c == '"' {
        assert(s[p + 0] == e[0] && s[p + 1] == e[1]);
        assert(s[p] == 92 && s[p + 1] == 34);
        assert(sp_escape(s, p) == Some(('"', p + 2)));
    } else if c == '\\' {
        assert(s[p + 0] == e[0] && s[p + 1] == e[1]);
        assert(s[p] == 92 && s[p + 1] == 92);
        assert(sp_escape(s, p) == Some(('\\', p + 2)));
    } else if u < 0x20 || (0x80 <= u && u < 0x10000) {
        assert(e == seq![92u8, 117u8] + hex4(u));
        lemma_region_split(s, p, seq![92u8, 117u8], hex4(u));
        lemma_sub_index(s, p, seq![92u8, 117u8]);
        assert(s[p + 0] == 92 && s[p + 1] == 117);
        assert(s[p] == 92);
        lemma_hex4_val(s, p + 2, u);
        assert(!(0xD800 <= u < 0xDC00) && !(0xDC00 <= u < 0xE000));
        assert(sp_escape(s, p) == Some((spec_char_of(u), p + 6)));
        assert(spec_char_of(u) == c);
    } else {
        let hi = (0xD800 + (u - 0x10000) / 0x400) as u32;
        let lo = (0xDC00 + (u - 0x10000) % 0x400) as u32;
        assert(u <= 0x10FFFF);
        assert((u - 0x10000) / 0x400 < 0x400);
        assert(e == seq![92u8, 117u8] + hex4(hi) + seq![92u8, 117u8] + hex4(lo));
        let part1 = seq![92u8, 117u8] + hex4(hi) + seq![92u8, 117u8];
        assert(e == part1 + hex4(lo)) by {
            assert(part1 + hex4(lo) =~= e);
        }
        lemma_region_split(s, p, part1, hex4(lo));
        assert(part1 == (seq![92u8, 117u8] + hex4(hi)) + seq![92u8, 117u8]) by {
            assert((seq![92u8, 117u8] + hex4(hi)) + seq![92u8, 117u8] =~= part1);
        }
        lemma_region_split(s, p, seq![92u8, 117u8] + hex4(hi), seq![92u8, 117u8]);
        lemma_region_split(s, p, seq![92u8, 117u8], hex4(hi));
        lemma_sub_index(s, p, seq![92u8, 117u8]);
        lemma_sub_index(s, p + 6, seq![92u8, 117u8]);
        assert(s[p + 0] == 92 && s[p + 1] == 117);
        assert(s[p] == 92);
        assert(s[(p + 6) + 0] == 92 && s[(p + 6) + 1] == 117);
        assert(s[p + 6] == 92 && s[p + 7] == 117);
        lemma_hex4_val(s, p + 2, hi);
        lemma_hex4_val(s, p + 8, lo);
        assert(0xD800 <= hi < 0xDC00);
        assert(0xDC00 <= lo < 0xE000);
        assert((0x10000 + (hi - 0xD800) * 0x400 + (lo - 0xDC00)) as u32 == u);
        assert(sp_escape(s, p) == Some((spec_char_of(u), p + 12)));
        assert(spec_char_of(u) == c);
    }
}

/// A serialized string body parses back to the characters it came from.
#[verifier::rlimit(100)]
#[verifier::spinoff_prover]
proof fn lemma_parse_str_complete(s: Seq<u8>, p: int, cs: Seq<char>, k: int)
    requires
        0 <= k <= cs.len(),
        0 <= p,
        p + str_body(cs, k).len() <= s.len(),
        s.subrange(p, p + str_body(cs, k).len()) == str_body(cs, k),
    ensures
        sp_str_chars(s, p) == Some((cs.skip(k), p + str_body(cs, k).len())),
    decreases cs.len() - k,
{
    if k >= cs.len() {
        lemma_sub_index(s, p, str_body(cs, k));
        assert(s[p + 0] == str_body(cs, k)[0]);
        assert(s[p] == 34);
        assert(cs.skip(k) =~= Seq::<char>::empty());
    } else {
        let c = cs[k];
        let u = c as u32;
        let e = esc_char(c);
        let r = str_body(cs, k + 1);
        assert(str_body(cs, k) == e + r);
        lemma_region_split(s, p, e, r);
        lemma_sub_index(s, p, e);
        let q = p + e.len();
        lemma_parse_str_complete(s, q, cs, k + 1);
        let end = p + str_body(cs, k).len();
        assert(end == q + r.len());
        assert(r.len() >= 1);
        vstd::utf8::char_is_scalar(c);
        vstd::utf8::char_u32_cast(c, u);
        assert(seq![c] + cs.skip(k + 1) =~= cs.skip(k));
        if c == '"' || c == '\\' || u < 0x20 || u >= 0x80 {
            lemma_parse_escape_complete(s, p, c);
        } else {
            let b0 = e[0];
            assert(s[p + 0] == b0);
            assert(s[p] == b0);
            assert(b0 == u as u8);
            assert(32 <= b0 < 128);
            assert(b0 != 34) by {
                if b0 == 34 {
                    assert(u == 34);
                    vstd::utf8::char_u32_cast('"', 34);
                }
            }
            assert(b0 != 92) by {
                if b0 == 92 {
                    assert(u == 92);
                    vstd::utf8::char_u32_cast('\\', 92);
                }
            }
            assert((b0 as char) == c) by {
                assert(b0 as u32 == u);
            }
        }
    }
}

/// The first byte of a serialized wire value is its dispatch byte: never a
/// separator or a closing bracket.
proof fn lemma_first_byte(w: SpecValue)
    requires
        spec_wire(w),
    ensures
        json_bytes(w).len() >= 1,
        json_bytes(w)[0] == 116 || json_bytes(w)[0] == 102 || json_bytes(w)[0] == 34 || json_bytes(
            w,
        )[0] == 91 || json_bytes(w)[0] == 123 || json_bytes(w)[0] == 45 || is_digit(
            json_bytes(w)[0],
        ),
{
    match w {
        SpecValue::Int(v) => {
            if v < 0 {
                lemma_dec_digits_props(-v);
                assert(json_bytes(w)[0] == (seq![45u8] + dec_digits(-v))[0]);
            } else {
                lemma_dec_digits_props(v);
            }
        },
        SpecValue::Str(cs) => {
            assert(json_bytes(w)[0] == (seq![34u8] + str_body(cs, 0))[0]);
        },
        SpecValue::List(l) => {
            if l.len() > 0 {
                assert(json_bytes(w)[0] == (seq![91u8] + items_tail(l, 0))[0]);
            }
        },
        SpecValue::Dict(m) => {
            if m.len() > 0 {
                assert(json_bytes(w)[0] == (seq![123u8] + members_tail(m, 0))[0]);
            }
        },
        _ => {},
    }
}

/// A serialized wire value parses back to itself.
#[verifier::rlimit(100)]
#[verifier::spinoff_prover]
pub proof fn lemma_parse_value_complete(s: Seq<u8>, i: int, w: SpecValue)
    requires
        spec_wire(w),
        0 <= i,
        i + json_bytes(w).len() <= s.len(),
        s.subrange(i, i + json_bytes(w).len()) == json_bytes(w),
        w is Int ==> (i + json_bytes(w).len() == s.len() || !is_digit(s[i + json_bytes(w).len()])),
    ensures
        sp_value(s, i) == Some((w, i + json_bytes(w).len())),
    decreases w, 1int,
{
    let jb = json_bytes(w);
    let end = i + jb.len();
    lemma_first_byte(w);
    lemma_sub_index(s, i, jb);
    match w {
        SpecValue::Bool(b) => {
        },
        SpecValue::Int(v) => {
            lemma_parse_int_complete(s, i, v);
        },
        SpecValue::Str(cs) => {
            assert(s[i] == 34);
            lemma_region_split(s, i, seq![34u8], str_body(cs, 0));
            lemma_parse_str_complete(s, i + 1, cs, 0);
            assert(cs.skip(0) =~= cs);
        },
        SpecValue::List(l) => {
            assert(s[i] == 91);
            if l.len() == 0 {
                assert(s[i + 1] == 93);
                assert(w == SpecValue::List(Seq::<SpecValue>::empty())) by {
                    assert(l =~= Seq::<SpecValue>::empty());
                }
            } else {
                lemma_region_split(s, i, seq![91u8], items_tail(l, 0));
                lemma_parse_items_complete(s, i + 1, l, 0);
                assert(s[i + 1] == items_tail(l, 0)[0]) by {
                    lemma_sub_index(s, i + 1, items_tail(l, 0));
                }
                assert(items_tail(l, 0)[0] == json_bytes(l[0])[0]) by {
                    lemma_first_byte(l[0]);
                    assert(items_tail(l, 0) == json_bytes(l[0]) + (if 1 < l.len() {
                        seq![44u8] + items_tail(l, 1)
                    } else {
                        seq![93u8]
                    }));
                }
                lemma_first_byte(l[0]);
                assert(s[i + 1] != 93);
                assert(l.skip(0) =~= l);
            }
        },
        SpecValue::Dict(m) => {
            assert(s[i] == 123);
            if m.len() == 0 {
                assert(s[i + 1] == 125);
                assert(w == SpecValue::Dict(Seq::<(Seq<char>, SpecValue)>::empty())) by {
                    assert(m =~= Seq::<(Seq<char>, SpecValue)>::empty());
                }
            } else {
                lemma_region_split(s, i, seq![123u8], members_tail(m, 0));
                lemma_parse_members_complete(s, i + 1, m, 0);
                assert(s[i + 1] == members_tail(m, 0)[0]) by {
                    lemma_sub_index(s, i + 1, members_tail(m, 0));
                }
                assert(members_tail(m, 0)[0] == 34) by {
                    let head = seq![34u8] + str_body(m[0].0, 0);
                    assert(members_tail(m, 0) == head + seq![58u8] + json_bytes(m[0].1) + (if 1
                        < m.len() {
                        seq![44u8] + members_tail(m, 1)
                    } else {
                        seq![125u8]
                    }));
                    assert(members_tail(m, 0)[0] == head[0]);
                }
                assert(s[i + 1] != 125);
                assert(m.skip(0) =~= m);
                assert(unique_keys(m));
            }
        },
        _ => {
            assert(false);
        },
    }
}

/// Serialized list elements parse back to themselves.
#[verifier::rlimit(100)]
#[verifier::spinoff_prover]
proof fn lemma_parse_items_complete(s: Seq<u8>, i: int, l: Seq<SpecValue>, k: int)
    requires
        forall|t: int| 0 <= t < l.len() ==> spec_wire(#[trigger] l[t]),
        0 <= k < l.len(),
        0 <= i,
        i + items_tail(l, k).len() <= s.len(),
        s.subrange(i, i + items_tail(l, k).len()) == items_tail(l, k),
    ensures
        sp_items(s, i) == Some((l.skip(k), i + items_tail(l, k).len())),
    decreases l, l.len() - k + 2,
{
    let jb = json_bytes(l[k]);
    let tail: Seq<u8> = if k + 1 < l.len() {
        seq![44u8] + items_tail(l, k + 1)
    } else {
        seq![93u8]
    };
    assert(items_tail(l, k) == jb + tail);
    lemma_region_split(s, i, jb, tail);
    lemma_sub_index(s, i + jb.len(), tail);
    lemma_first_byte(l[k]);
    let j = i + jb.len();
    assert(s[j] == tail[0]);
    lemma_parse_value_complete(s, i, l[k]);
    if k + 1 < l.len() {
        assert(s[j] == 44);
        lemma_region_split(s, j, seq![44u8], items_tail(l, k + 1));
        lemma_parse_items_complete(s, j + 1, l, k + 1);
        assert(seq![l[k]] + l.skip(k + 1) =~= l.skip(k));
    } else {
        assert(s[j] == 93);
        assert(seq![l[k]] =~= l.skip(k));
    }
}

/// Serialized dictionary members parse back to themselves.
#[verifier::rlimit(100)]
#[verifier::spinoff_prover]
proof fn lemma_parse_members_complete(s: Seq<u8>, i: int, m: Seq<(Seq<char>, SpecValue)>, k: int)
    requires
        forall|t: int| 0 <= t < m.len() ==> spec_wire(#[trigger] m[t].1),
        0 <= k < m.len(),
        0 <= i,
        i + members_tail(m, k).len() <= s.len(),
        s.subrange(i, i + members_tail(m, k).len()) == members_tail(m, k),
    ensures
        sp_members(s, i) == Some((m.skip(k), i + members_tail(m, k).len())),
    decreases m, m.len() - k + 2,
{
    let key = m[k].0;
    let keyb = seq![34u8] + str_body(key, 0);
    let jb = json_bytes(m[k].1);
    let tail: Seq<u8> = if k + 1 < m.len() {
        seq![44u8] + members_tail(m, k + 1)
    } else {
        seq![125u8]
    };
    assert(members_tail(m, k) == keyb + seq![58u8] + jb + tail);
    assert(members_tail(m, k) == keyb + (seq![58u8] + jb + tail)) by {
        assert(keyb + (seq![58u8] + jb + tail) =~= members_tail(m, k));
    }
    lemma_region_split(s, i, keyb, seq![58u8] + jb + tail);
    lemma_region_split(s, i, seq![34u8], str_body(key, 0));
    lemma_sub_index(s, i, seq![34u8]);
    assert(s[i + 0] == seq![34u8][0]);
    assert(s[i] == 34);
    lemma_parse_str_complete(s, i + 1, key, 0);
    assert(key.skip(0) =~= key);
    let j = i + keyb.len();
    assert(seq![58u8] + jb + tail == seq![58u8] + (jb + tail)) by {
        assert(seq![58u8] + (jb + tail) =~= seq![58u8] + jb + tail);
    }
    lemma_region_split(s, j, seq![58u8], jb + tail);
    lemma_sub_index(s, j, seq![58u8]);
    assert(s[j + 0] == seq![58u8][0]);
    assert(s[j] == 58);
    lemma_region_split(s, j + 1, jb, tail);
    lemma_sub_index(s, j + 1 + jb.len(), tail);
    lemma_first_byte(m[k].1);
    let q = j + 1 + jb.len();
    assert(s[q] == tail[0]);
    lemma_parse_value_complete(s, i + keyb.len() + 1, m[k].1);
    if k + 1 < m.len() {
        assert(s[q] == 44);
        lemma_region_split(s, q, seq![44u8], members_tail(m, k + 1));
        lemma_parse_members_complete(s, q + 1, m, k + 1);
        assert(seq![(m[k].0, m[k].1)] + m.skip(k + 1) =~= m.skip(k));
        assert(seq![(key, m[k].1)] + m.skip(k + 1) =~= m.skip(k));
    } else {
        assert(s[q] == 125);
        assert(seq![(key, m[k].1)] =~= m.skip(k));
    }
}

/// Round trip of the JSON bridge: the canonical text of any wire value
/// parses back to exactly that value.
pub proof fn lemma_parse_document_complete(w: SpecValue)
    requires
        spec_wire(w),
    ensures
        sp_document(json_bytes(w)) == Some(w),
{
    let s = json_bytes(w);
    assert(s.subrange(0, s.len() as int) =~= s);
    lemma_parse_value_complete(s, 0, w);
}

/// The fixed header is a well-formed wire value.
proof fn lemma_header_wire()
    ensures
        spec_wire(crate::engine::spec_header()),
{
    reveal_strlit("alg");
    reveal_strlit("typ");
    let hm = crate::engine::spec_header()->Dict_0;
    assert("alg"@ != "typ"@) by {
        assert("alg"@[0] == 'a');
        assert("typ"@[0] == 't');
    }
    assert(unique_keys(hm)) by {
        assert(hm[0].0 == "alg"@ && hm[1].0 == "typ"@);
    }
    assert forall|t: int| 0 <= t < hm.len() implies spec_wire(#[trigger] hm[t].1) by {
        if t == 0 {
            assert(hm[0].1 == SpecValue::Str("HS256"@));
        } else {
            assert(hm[1].1 == SpecValue::Str("JWT"@));
        }
    }
}

/// Shape of a freshly encoded token: the two dots sit exactly at the segment
/// boundaries, so the segments are the three base64url parts.
proof fn lemma_token_shape(claims: Seq<(Seq<char>, SpecValue)>, now_e: int, secret: Seq<u8>)
    requires
        crate::engine::spec_b64_facts(claims, now_e, secret),
    ensures
        ({
            let h64 = crate::ext::b64url_of(crate::engine::spec_header_bytes());
            let p64 = crate::ext::b64url_of(crate::engine::spec_payload_bytes(claims, now_e));
            let msgb = crate::engine::spec_msg_bytes(claims, now_e);
            let sig64 = crate::ext::b64url_of(crate::ext::hmac_sha256(msgb, secret));
            let tb = crate::engine::spec_token_bytes(claims, now_e, secret);
            &&& crate::engine::well_split(tb, h64.len() as int, msgb.len() as int)
            &&& crate::engine::split_of(tb) == (h64.len() as int, msgb.len() as int)
            &&& crate::engine::header_seg(tb) == h64
            &&& crate::engine::payload_seg(tb) == p64
            &&& crate::engine::sig_seg(tb) == sig64
            &&& crate::engine::msg_seg(tb) == msgb
        }),
{
    let h64 = crate::ext::b64url_of(crate::engine::spec_header_bytes());
    let p64 = crate::ext::b64url_of(crate::engine::spec_payload_bytes(claims, now_e));
    let msgb = crate::engine::spec_msg_bytes(claims, now_e);
    let sig64 = crate::ext::b64url_of(crate::ext::hmac_sha256(msgb, secret));
    let tb = crate::engine::spec_token_bytes(claims, now_e, secret);
    let d1 = h64.len() as int;
    let d2 = msgb.len() as int;
    assert(msgb == (h64 + seq![46u8]) + p64) by {
        assert((h64 + seq![46u8]) + p64 =~= msgb);
    }
    assert(tb == (msgb + seq![46u8]) + sig64) by {
        assert((msgb + seq![46u8]) + sig64 =~= tb);
    }
    assert(d2 == d1 + 1 + p64.len());
    assert(tb.len() == d2 + 1 + sig64.len());
    assert forall|k: int| 0 <= k < tb.len() implies tb[k] == (if k < d1 {
        h64[k]
    } else if k == d1 {
        46u8
    } else if k < d2 {
        p64[k - d1 - 1]
    } else if k == d2 {
        46u8
    } else {
        sig64[k - d2 - 1]
    }) by {
        if k < d2 {
            assert(tb[k] == (msgb + seq![46u8])[k]);
            assert(tb[k] == msgb[k]);
            if k < d1 {
                assert(msgb[k] == (h64 + seq![46u8])[k]);
            } else if k == d1 {
                assert(msgb[k] == (h64 + seq![46u8])[k]);
            } else {
                assert(msgb[k] == p64[k - (d1 + 1)]);
            }
        } else if k == d2 {
            assert(tb[k] == (msgb + seq![46u8])[k]);
        } else {
            assert(tb[k] == sig64[k - (d2 + 1)]);
        }
    }
    assert(crate::engine::well_split(tb, d1, d2));
    crate::engine::lemma_split_unique(tb, d1, d2);
    assert(crate::engine::header_seg(tb) =~= h64);
    assert(crate::engine::payload_seg(tb) =~= p64);
    assert(crate::engine::sig_seg(tb) =~= sig64);
    assert(crate::engine::msg_seg(tb) =~= msgb);
}

/// Round trip law: a token that `encode_at` produced at instant `now_e` under
/// `secret` is accepted by any key list holding `secret`, whenever the
/// policy accepts the converted claims, and the claims it carries are exactly
/// the wire form of the encoded claims. Together with `decode_at`'s
/// contract, decoding such a token yields those claims.
pub proof fn lemma_encode_decode_round_trip(
    claims: Seq<(Seq<char>, SpecValue)>,
    now_e: int,
    secret: Seq<u8>,
    required: Seq<Seq<char>>,
    leeway: int,
    now_d: int,
)
    requires
        encodable(SpecValue::Dict(claims), now_e),
        i64::MIN <= now_e <= i64::MAX,
        crate::engine::spec_b64_facts(claims, now_e, secret),
        crate::engine::spec_policy_ok(
            wire_of(SpecValue::Dict(claims), now_e)->Dict_0,
            required,
            leeway,
            now_d,
        ),
    ensures
        crate::engine::spec_attempt_ok(
            crate::engine::spec_token_bytes(claims, now_e, secret),
            secret,
            required,
            leeway,
            now_d,
        ),
        crate::engine::spec_payload_claims(crate::engine::spec_token_bytes(claims, now_e, secret))
            == Some(wire_of(SpecValue::Dict(claims), now_e)->Dict_0),
{
    let tb = crate::engine::spec_token_bytes(claims, now_e, secret);
    lemma_token_shape(claims, now_e, secret);
    let wd = wire_of(SpecValue::Dict(claims), now_e);
    lemma_header_wire();
    lemma_parse_document_complete(crate::engine::spec_header());
    assert(crate::engine::spec_header_ok(tb)) by {
        let hm = crate::engine::spec_header()->Dict_0;
        reveal_strlit("alg");
        reveal_strlit("typ");
        assert(crate::value::spec_lookup(hm, "alg"@) == Some(SpecValue::Str("HS256"@))) by {
            assert(hm[0].0 == "alg"@);
            assert(crate::value::spec_lookup_from(hm, "alg"@, 0) == Some(hm[0].1));
        }
    }
    lemma_wire_of_wire(SpecValue::Dict(claims), now_e);
    lemma_parse_document_complete(wd);
    assert(wd == SpecValue::Dict(wd->Dict_0));
    assert(crate::engine::spec_payload_claims(tb) == Some(wd->Dict_0));
}

/// Tamper detection law: changing anything in the signature segment of a
/// token that `encode_at` produced (while leaving the first two segments and
/// the length alone) makes every attempt with the signing key fail, whether
/// the change keeps the three-segment shape or breaks it.
pub proof fn lemma_tampered_signature_rejected(
    claims: Seq<(Seq<char>, SpecValue)>,
    now_e: int,
    secret: Seq<u8>,
    required: Seq<Seq<char>>,
    leeway: int,
    now_d: int,
    tb2: Seq<u8>,
)
    requires
        crate::engine::spec_b64_facts(claims, now_e, secret),
        tb2.len() == crate::engine::spec_token_bytes(claims, now_e, secret).len(),
        ({
            let tb = crate::engine::spec_token_bytes(claims, now_e, secret);
            let cut = crate::engine::spec_msg_bytes(claims, now_e).len() + 1;
            &&& tb2.subrange(0, cut as int) == tb.subrange(0, cut as int)
            &&& tb2.subrange(cut as int, tb2.len() as int) != tb.subrange(
                cut as int,
                tb.len() as int,
            )
        }),
    ensures
        !crate::engine::spec_attempt_ok(tb2, secret, required, leeway, now_d),
{
    let tb = crate::engine::spec_token_bytes(claims, now_e, secret);
    lemma_token_shape(claims, now_e, secret);
    let h64 = crate::ext::b64url_of(crate::engine::spec_header_bytes());
    let msgb = crate::engine::spec_msg_bytes(claims, now_e);
    let sig64 = crate::ext::b64url_of(crate::ext::hmac_sha256(msgb, secret));
    let d1 = h64.len() as int;
    let d2 = msgb.len() as int;
    let cut = d2 + 1;
    if crate::engine::two_dots(tb2) {
        let (i2, j2) = choose|i: int, j: int| crate::engine::well_split(tb2, i, j);
        assert(tb2[d1] == 46 && tb2[d2] == 46) by {
            assert(tb2.subrange(0, cut)[d1] == tb2[d1]);
            assert(tb.subrange(0, cut)[d1] == tb[d1]);
            assert(tb2.subrange(0, cut)[d2] == tb2[d2]);
            assert(tb.subrange(0, cut)[d2] == tb[d2]);
        }
        assert(d1 == i2 || d1 == j2);
        assert(d2 == i2 || d2 == j2);
        assert(i2 == d1 && j2 == d2) by {
            if i2 != d1 {
                assert(i2 == d2 && j2 == d1 || j2 == d2);
                if i2 < cut {
                    assert(tb2.subrange(0, cut)[i2] == tb2[i2]);
                    assert(tb.subrange(0, cut)[i2] == tb[i2]);
                    assert(tb[i2] == 46);
                    assert(i2 == d1 || i2 == d2);
                }
            }
        }
        crate::engine::lemma_split_unique(tb2, d1, d2);
        assert(crate::engine::msg_seg(tb2) == msgb) by {
            assert forall|t: int| 0 <= t < d2 implies tb2.subrange(0, d2)[t] == msgb[t] by {
                assert(tb2.subrange(0, cut)[t] == tb2[t]);
                assert(tb.subrange(0, cut)[t] == tb[t]);
                assert(tb2.subrange(0, d2)[t] == tb2[t]);
                assert(tb.subrange(0, d2)[t] == tb[t]);
                assert(crate::engine::msg_seg(tb)[t] == tb[t]);
            }
            assert(tb2.subrange(0, d2) =~= msgb);
        }
        assert(crate::engine::sig_seg(tb2) != sig64) by {
            assert(tb2.subrange(cut, tb2.len() as int) != tb.subrange(cut, tb.len() as int));
            assert(tb.subrange(cut, tb.len() as int) == sig64);
        }
        assert(!crate::engine::spec_sig_ok(tb2, secret));
    } else {
        assert(!crate::engine::spec_structure_ok(tb2));
    }
}

/// Key-rotation law: an engine whose ordered key list holds the signing
/// secret at any position accepts a token that `encode_at` produced under
/// that secret, whenever the policy accepts the converted claims.
pub proof fn lemma_rotation_accepts(
    claims: Seq<(Seq<char>, SpecValue)>,
    now_e: int,
    secret: Seq<u8>,
    secrets: Seq<Seq<u8>>,
    idx: int,
    required: Seq<Seq<char>>,
    leeway: int,
    now_d: int,
)
    requires
        encodable(SpecValue::Dict(claims), now_e),
        i64::MIN <= now_e <= i64::MAX,
        crate::engine::spec_b64_facts(claims, now_e, secret),
        crate::engine::spec_policy_ok(
            wire_of(SpecValue::Dict(claims), now_e)->Dict_0,
            required,
            leeway,
            now_d,
        ),
        0 <= idx < secrets.len(),
        secrets[idx] == secret,
    ensures
        exists|i: int|
            0 <= i < secrets.len() && crate::engine::spec_attempt_ok(
                crate::engine::spec_token_bytes(claims, now_e, secret),
                #[trigger] secrets[i],
                required,
                leeway,
                now_d,
            ),
{
    lemma_encode_decode_round_trip(claims, now_e, secret, required, leeway, now_d);
    assert(crate::engine::spec_attempt_ok(
        crate::engine::spec_token_bytes(claims, now_e, secret),
        secrets[idx],
        required,
        leeway,
        now_d,
    ));
}

/// Required-claims law: a token whose payload lacks a claim that the policy
/// names is rejected by every verification key.
pub proof fn lemma_missing_required_claim_rejected(
    tb: Seq<u8>,
    secret: Seq<u8>,
    required: Seq<Seq<char>>,
    leeway: int,
    now: int,
    k: int,
)
    requires
        0 <= k < required.len(),
        match crate::engine::spec_payload_claims(tb) {
            Option::Some(cl) => crate::value::spec_lookup(cl, required[k]) is None,
            Option::None => true,
        },
    ensures
        !crate::engine::spec_attempt_ok(tb, secret, required, leeway, now),
{
}

/// The wire form of an encodable value is a wire value: time variants are
/// gone and every number is within range.
pub proof fn lemma_wire_of_wire(v: SpecValue, now: int)
    requires
        encodable(v, now),
        i64::MIN <= now <= i64::MAX,
    ensures
        spec_wire(wire_of(v, now)),
    decreases v,
{
    match v {
        SpecValue::List(l) => {
            assert forall|t: int| 0 <= t < wire_of(v, now)->List_0.len() implies spec_wire(
                #[trigger] wire_of(v, now)->List_0[t],
            ) by {
                assert(encodable(l[t], now));
                lemma_wire_of_wire(l[t], now);
                assert(wire_of(v, now)->List_0[t] == wire_of(l[t], now));
            }
        },
        SpecValue::Dict(m) => {
            assert forall|t: int| 0 <= t < wire_of(v, now)->Dict_0.len() implies spec_wire(
                #[trigger] wire_of(v, now)->Dict_0[t].1,
            ) by {
                assert(encodable(m[t].1, now));
                lemma_wire_of_wire(m[t].1, now);
                assert(wire_of(v, now)->Dict_0[t] == (m[t].0, wire_of(m[t].1, now)));
            }
            assert(unique_keys(wire_of(v, now)->Dict_0)) by {
                assert forall|a: int, b: int|
                    0 <= a < b < wire_of(v, now)->Dict_0.len() implies wire_of(v, now)->Dict_0[a].0
                    != wire_of(v, now)->Dict_0[b].0 by {
                    assert(wire_of(v, now)->Dict_0[a] == (m[a].0, wire_of(m[a].1, now)));
                    assert(wire_of(v, now)->Dict_0[b] == (m[b].0, wire_of(m[b].1, now)));
                }
            }
        },
        _ => {},
    }
}

} // verus!
