use vstd::prelude::*;

use crate::value::SpecValue;
use crate::value::Value;
use crate::value::entries_view;
use crate::value::spec_wire;
use crate::value::unique_keys;
use vstd::string::StrSliceExecFns;
use vstd::string::StringSliceAdditionalSpecFns;

verus! {

broadcast use vstd::seq::group_seq_axioms, vstd::std_specs::vec::group_vec_axioms;

/// An ASCII decimal digit.
pub open spec fn is_digit(b: u8) -> bool {
    48 <= b <= 57
}

/// End of the run of decimal digits that starts at `j`.
pub open spec fn digits_end(s: Seq<u8>, j: int) -> int
    decreases s.len() - j,
{
    if 0 <= j < s.len() && is_digit(s[j]) {
        digits_end(s, j + 1)
    } else {
        j
    }
}

/// Value of the decimal digits `s[a..j]`.
pub open spec fn digits_val(s: Seq<u8>, a: int, j: int) -> int
    decreases j - a,
{
    if j <= a {
        0
    } else {
        digits_val(s, a, j - 1) * 10 + (s[j - 1] - 48)
    }
}

/// Value of one hex digit byte, or -1.
pub open spec fn hex_val(b: u8) -> int {
    if 48 <= b <= 57 {
        b - 48
    } else if 97 <= b <= 102 {
        b - 87
    } else if 65 <= b <= 70 {
        b - 55
    } else {
        -1
    }
}

/// Value of the four hex digit bytes `s[i..i+4]`, or -1.
pub open spec fn hex4_val(s: Seq<u8>, i: int) -> int {
    if 0 <= i && i + 4 <= s.len() && hex_val(s[i]) >= 0 && hex_val(s[i + 1]) >= 0 && hex_val(
        s[i + 2],
    ) >= 0 && hex_val(s[i + 3]) >= 0 {
        hex_val(s[i]) * 0x1000 + hex_val(s[i + 1]) * 0x100 + hex_val(s[i + 2]) * 0x10 + hex_val(
            s[i + 3],
        )
    } else {
        -1
    }
}

/// The character with scalar value `u`.
pub open spec fn spec_char_of(u: u32) -> char {
    u as char
}

/// Parse one JSON string escape at `i` (where `s[i]` is the backslash):
/// the character it denotes and the position after it. A `\u` escape in the
/// high-surrogate range must be followed by a low-surrogate `\u` escape; a
/// lone surrogate is rejected.
pub open spec fn sp_escape(s: Seq<u8>, i: int) -> Option<(char, int)> {
    if i + 1 >= s.len() {
        None
    } else {
        let b = s[i + 1];
        if b == 34 {
            Some(('"', i + 2))
        } else if b == 92 {
            Some(('\\', i + 2))
        } else if b == 47 {
            Some(('/', i + 2))
        } else if b == 98 {
            Some(('\u{8}', i + 2))
        } else if b == 102 {
            Some(('\u{c}', i + 2))
        } else if b == 110 {
            Some(('\n', i + 2))
        } else if b == 114 {
            Some(('\r', i + 2))
        } else if b == 116 {
            Some(('\t', i + 2))
        } else if b == 117 {
            let h = hex4_val(s, i + 2);
            if h < 0 {
                None
            } else if 0xD800 <= h < 0xDC00 {
                if i + 12 <= s.len() && s[i + 6] == 92 && s[i + 7] == 117 {
                    let lo = hex4_val(s, i + 8);
                    if 0xDC00 <= lo < 0xE000 {
                        Some(
                            (
                                spec_char_of(
                                    (0x10000 + (h - 0xD800) * 0x400 + (lo - 0xDC00)) as u32,
                                ),
                                i + 12,
                            ),
                        )
                    } else {
                        None
                    }
                } else {
                    None
                }
            } else if 0xDC00 <= h < 0xE000 {
                None
            } else {
                Some((spec_char_of(h as u32), i + 6))
            }
        } else {
            None
        }
    }
}

/// Parse the characters of a JSON string from `i` (just after the opening
/// quote) up to and including the closing quote. Raw bytes must be printable
/// ASCII; everything else must use an escape.
pub open spec fn sp_str_chars(s: Seq<u8>, i: int) -> Option<(Seq<char>, int)>
    decreases s.len() - i, 0int,
{
    if !(0 <= i < s.len()) {
        None
    } else {
        let b = s[i];
        if b == 34 {
            Some((Seq::empty(), i + 1))
        } else if b == 92 {
            match sp_escape(s, i) {
                Option::None => None,
                Option::Some((c, j)) => if j <= i {
                    None
                } else {
                    match sp_str_chars(s, j) {
                        Option::None => None,
                        Option::Some((cs, k)) => Some((seq![c] + cs, k)),
                    }
                },
            }
        } else if 32 <= b < 128 {
            match sp_str_chars(s, i + 1) {
                Option::None => None,
                Option::Some((cs, k)) => Some((seq![(b as char)] + cs, k)),
            }
        } else {
            None
        }
    }
}

/// Parse a JSON integer at `i` (`s[i]` is a minus sign or a digit): maximal
/// digit run, no leading zero, within the signed 64-bit range.
pub open spec fn sp_int(s: Seq<u8>, i: int) -> Option<(SpecValue, int)> {
    let neg = s[i] == 45;
    let a = if neg {
        i + 1
    } else {
        i
    };
    let e = digits_end(s, a);
    if e == a {
        None
    } else if s[a] == 48 && e > a + 1 {
        None
    } else {
        let mag = digits_val(s, a, e);
        let v = if neg {
            -mag
        } else {
            mag
        };
        if i64::MIN <= v <= i64::MAX {
            Some((SpecValue::Int(v), e))
        } else {
            None
        }
    }
}

/// Parse one JSON value at `i`. No whitespace is accepted; numbers must be
/// integers; object keys must be pairwise distinct.
pub open spec fn sp_value(s: Seq<u8>, i: int) -> Option<(SpecValue, int)>
    decreases s.len() - i, 1int,
{
    if !(0 <= i < s.len()) {
        None
    } else {
        let b = s[i];
        if b == 116 {
            if i + 4 <= s.len() && s[i + 1] == 114 && s[i + 2] == 117 && s[i + 3] == 101 {
                Some((SpecValue::Bool(true), i + 4))
            } else {
                None
            }
        } else if b == 102 {
            if i + 5 <= s.len() && s[i + 1] == 97 && s[i + 2] == 108 && s[i + 3] == 115 && s[i + 4]
                == 101 {
                Some((SpecValue::Bool(false), i + 5))
            } else {
                None
            }
        } else if b == 34 {
            match sp_str_chars(s, i + 1) {
                Option::None => None,
                Option::Some((cs, j)) => Some((SpecValue::Str(cs), j)),
            }
        } else if b == 91 {
            if i + 1 < s.len() && s[i + 1] == 93 {
                Some((SpecValue::List(Seq::empty()), i + 2))
            } else {
                match sp_items(s, i + 1) {
                    Option::None => None,
                    Option::Some((l, j)) => Some((SpecValue::List(l), j)),
                }
            }
        } else if b == 123 {
            if i + 1 < s.len() && s[i + 1] == 125 {
                Some((SpecValue::Dict(Seq::empty()), i + 2))
            } else {
                match sp_members(s, i + 1) {
                    Option::None => None,
                    Option::Some((m, j)) => if unique_keys(m) {
                        Some((SpecValue::Dict(m), j))
                    } else {
                        None
                    },
                }
            }
        } else if b == 45 || is_digit(b) {
            sp_int(s, i)
        } else {
            None
        }
    }
}

/// Parse the elements of a non-empty list from `i` (just after the opening
/// bracket or a comma) up to and including the closing bracket.
pub open spec fn sp_items(s: Seq<u8>, i: int) -> Option<(Seq<SpecValue>, int)>
    decreases s.len() - i, 2int,
{
    if !(0 <= i < s.len()) {
        None
    } else {
        match sp_value(s, i) {
            Option::None => None,
            Option::Some((v, j)) => if j <= i || j >= s.len() {
                None
            } else if s[j] == 44 {
                match sp_items(s, j + 1) {
                    Option::None => None,
                    Option::Some((rest, k)) => Some((seq![v] + rest, k)),
                }
            } else if s[j] == 93 {
                Some((seq![v], j + 1))
            } else {
                None
            },
        }
    }
}

/// Parse the members of a non-empty object from `i` (just after the opening
/// brace or a comma) up to and including the closing brace.
pub open spec fn sp_members(s: Seq<u8>, i: int) -> Option<(Seq<(Seq<char>, SpecValue)>, int)>
    decreases s.len() - i, 2int,
{
    if !(0 <= i < s.len() && s[i] == 34) {
        None
    } else {
        match sp_str_chars(s, i + 1) {
            Option::None => None,
            Option::Some((key, j)) => if j <= i || j >= s.len() || s[j] != 58 {
                None
            } else {
                match sp_value(s, j + 1) {
                    Option::None => None,
                    Option::Some((v, k)) => if k <= i || k >= s.len() {
                        None
                    } else if s[k] == 44 {
                        match sp_members(s, k + 1) {
                            Option::None => None,
                            Option::Some((rest, e)) => Some((seq![(key, v)] + rest, e)),
                        }
                    } else if s[k] == 125 {
                        Some((seq![(key, v)], k + 1))
                    } else {
                        None
                    },
                }
            },
        }
    }
}

/// Parse a complete JSON document: one value covering the whole input.
pub open spec fn sp_document(s: Seq<u8>) -> Option<SpecValue> {
    match sp_value(s, 0) {
        Option::None => None,
        Option::Some((v, j)) => if j == s.len() {
            Some(v)
        } else {
            None
        },
    }
}

/// The value of a digit run is non-negative.
pub proof fn lemma_digits_val_nonneg(s: Seq<u8>, a: int, j: int)
    requires
        forall|k: int| a <= k < j ==> is_digit(#[trigger] s[k]),
    ensures
        digits_val(s, a, j) >= 0,
    decreases j - a,
{
    if j > a {
        lemma_digits_val_nonneg(s, a, j - 1);
    }
}

/// Extending a digit run never shrinks its value.
pub proof fn lemma_digits_val_mono(s: Seq<u8>, a: int, p: int, e: int)
    requires
        a <= p <= e,
        forall|k: int| a <= k < e ==> is_digit(#[trigger] s[k]),
    ensures
        digits_val(s, a, e) >= digits_val(s, a, p),
    decreases e - p,
{
    if e > p {
        lemma_digits_val_mono(s, a, p, e - 1);
        lemma_digits_val_nonneg(s, a, e - 1);
    }
}

fn hex_digit_of(b: u8) -> (r: i16)
    ensures
        r as int == hex_val(b),
{
    if 48 <= b && b <= 57 {
        (b - 48) as i16
    } else if 97 <= b && b <= 102 {
        (b - 87) as i16
    } else if 65 <= b && b <= 70 {
        (b - 55) as i16
    } else {
        -1
    }
}

fn parse_hex4(s: &Vec<u8>, i: usize) -> (r: Option<u32>)
    ensures
        match r {
            Some(h) => hex4_val(s@, i as int) == h as int && h < 0x10000,
            None => hex4_val(s@, i as int) == -1,
        },
{
    if s.len() < 4 || i > s.len() - 4 {
        return None;
    }
    let a = hex_digit_of(s[i]);
    let b = hex_digit_of(s[i + 1]);
    let c = hex_digit_of(s[i + 2]);
    let d = hex_digit_of(s[i + 3]);
    if a < 0 || b < 0 || c < 0 || d < 0 {
        return None;
    }
    Some((a as u32) * 0x1000 + (b as u32) * 0x100 + (c as u32) * 0x10 + (d as u32))
}

fn parse_escape(s: &Vec<u8>, i: usize) -> (r: Option<(char, usize)>)
    requires
        i < s@.len(),
    ensures
        match r {
            Some((c, j)) => sp_escape(s@, i as int) == Some((c, j as int)) && i < j <= s@.len(),
            None => sp_escape(s@, i as int) is None,
        },
{
    let n = s.len();
    if i + 1 >= n {
        return None;
    }
    let b = s[i + 1];
    if b == 34 {
        Some(('"', i + 2))
    } else if b == 92 {
        Some(('\\', i + 2))
    } else if b == 47 {
        Some(('/', i + 2))
    } else if b == 98 {
        Some(('\u{8}', i + 2))
    } else if b == 102 {
        Some(('\u{c}', i + 2))
    } else if b == 110 {
        Some(('\n', i + 2))
    } else if b == 114 {
        Some(('\r', i + 2))
    } else if b == 116 {
        Some(('\t', i + 2))
    } else if b == 117 {
        match parse_hex4(s, i + 2) {
            None => None,
            Some(h) => {
                if 0xD800 <= h && h < 0xDC00 {
                    if n >= 12 && i <= n - 12 && s[i + 6] == 92 && s[i + 7] == 117 {
                        match parse_hex4(s, i + 8) {
                            None => None,
                            Some(lo) => {
                                if 0xDC00 <= lo && lo < 0xE000 {
                                    let cp: u32 = 0x10000 + (h - 0xD800) * 0x400 + (lo - 0xDC00);
                                    let c = char_of_scalar(cp);
                                    Some((c, i + 12))
                                } else {
                                    None
                                }
                            },
                        }
                    } else {
                        None
                    }
                } else if 0xDC00 <= h && h < 0xE000 {
                    None
                } else {
                    let c = char_of_scalar(h);
                    Some((c, i + 6))
                }
            },
        }
    } else {
        None
    }
}

fn char_of_scalar(u: u32) -> (c: char)
    requires
        u < 0xD800 || (0xE000 <= u && u <= 0x10FFFF),
    ensures
        c == spec_char_of(u),
        c as u32 == u,
{
    match char::from_u32(u) {
        Some(c) => {
            proof {
                vstd::utf8::char_u32_cast(c, u);
            }
            c
        },
        None => {
            proof {
                assert(false);
            }
            vstd::pervasive::unreached()
        },
    }
}

#[verifier::loop_isolation(false)]
fn parse_string(s: &Vec<u8>, i: usize) -> (r: Option<(String, usize)>)
    requires
        i <= s@.len(),
    ensures
        match r {
            Some((st, j)) => sp_str_chars(s@, i as int) == Some((st@, j as int)) && i < j
                <= s@.len(),
            None => sp_str_chars(s@, i as int) is None,
        },
{
    let mut p: usize = i;
    let mut acc: Vec<char> = Vec::new();
    loop
        invariant
            i <= p <= s@.len(),
            match sp_str_chars(s@, p as int) {
                Option::Some((cs, e)) => sp_str_chars(s@, i as int) == Some((acc@ + cs, e)),
                Option::None => sp_str_chars(s@, i as int) is None,
            },
        decreases s@.len() - p,
    {
        if p >= s.len() {
            return None;
        }
        let b = s[p];
        if b == 34 {
            proof {
                assert(sp_str_chars(s@, p as int) == Some((Seq::<char>::empty(), p as int + 1)));
                assert(acc@ + Seq::<char>::empty() =~= acc@);
            }
            let st = crate::ext::chars_to_string(acc.as_slice());
            return Some((st, p + 1));
        } else if b == 92 {
            match parse_escape(s, p) {
                None => {
                    return None;
                },
                Some((c, j)) => {
                    proof {
                        let pp = p as int;
                        match sp_str_chars(s@, j as int) {
                            Option::Some((cs2, e2)) => {
                                assert(sp_str_chars(s@, pp) == Some((seq![c] + cs2, e2)));
                                assert((acc@ + seq![c]) + cs2 =~= acc@ + (seq![c] + cs2));
                                assert(acc@.push(c) =~= acc@ + seq![c]);
                            },
                            Option::None => {
                                assert(sp_str_chars(s@, pp) is None);
                            },
                        }
                    }
                    acc.push(c);
                    p = j;
                },
            }
        } else if 32 <= b && b < 128 {
            let c = b as char;
            proof {
                let pp = p as int;
                match sp_str_chars(s@, pp + 1) {
                    Option::Some((cs2, e2)) => {
                        assert(sp_str_chars(s@, pp) == Some((seq![(s@[pp] as char)] + cs2, e2)));
                        assert((acc@ + seq![c]) + cs2 =~= acc@ + (seq![c] + cs2));
                        assert(acc@.push(c) =~= acc@ + seq![c]);
                    },
                    Option::None => {
                        assert(sp_str_chars(s@, pp) is None);
                    },
                }
            }
            acc.push(c);
            p = p + 1;
        } else {
            return None;
        }
    }
}

#[verifier::loop_isolation(false)]
fn parse_int(s: &Vec<u8>, i: usize) -> (r: Option<(Value, usize)>)
    requires
        i < s@.len(),
        s@[i as int] == 45 || is_digit(s@[i as int]),
    ensures
        match r {
            Some((v, j)) => sp_int(s@, i as int) == Some((v@, j as int)) && i < j <= s@.len(),
            None => sp_int(s@, i as int) is None,
        },
{
    let n = s.len();
    let neg = s[i] == 45;
    let a: usize = if neg {
        i + 1
    } else {
        i
    };
    let mut e: usize = a;
    while e < s.len() && 48 <= s[e] && s[e] <= 57
        invariant
            a <= e <= s@.len(),
            digits_end(s@, a as int) == digits_end(s@, e as int),
            forall|k: int| a <= k < e ==> is_digit(#[trigger] s@[k]),
        decreases s@.len() - e,
    {
        e = e + 1;
    }
    proof {
        assert(digits_end(s@, e as int) == e as int);
        assert(digits_end(s@, a as int) == e as int);
    }
    if e == a {
        return None;
    }
    if s[a] == 48 && e > a + 1 {
        return None;
    }
    let mut acc: u128 = 0;
    let mut p: usize = a;
    let ghost limit: int = 0x8000000000000000;
    while p < e
        invariant
            a <= p <= e <= s@.len(),
            digits_end(s@, a as int) == e as int,
            forall|k: int| a <= k < e ==> is_digit(#[trigger] s@[k]),
            acc as int == digits_val(s@, a as int, p as int),
            acc as int <= limit,
        decreases e - p,
    {
        let d = s[p];
        let acc2: u128 = acc * 10 + ((d - 48) as u128);
        proof {
            assert(digits_val(s@, a as int, p as int + 1) == digits_val(s@, a as int, p as int)
                * 10 + (s@[p as int] - 48));
        }
        p = p + 1;
        acc = acc2;
        if acc > 9223372036854775808u128 {
            proof {
                lemma_digits_val_mono(s@, a as int, p as int, e as int);
            }
            return None;
        }
    }
    let mag: u128 = acc;
    if neg {
        let v: i64 = if mag == 9223372036854775808u128 {
            i64::MIN
        } else {
            -(mag as i64)
        };
        Some((Value::Int(v), e))
    } else {
        if mag > 9223372036854775807u128 {
            return None;
        }
        Some((Value::Int(mag as i64), e))
    }
}

#[verifier::loop_isolation(false)]
pub(crate) fn has_dup_keys(entries: &Vec<(String, Value)>) -> (r: bool)
    ensures
        r == !unique_keys(entries_view(entries@)),
{
    let n = entries.len();
    let mut i: usize = 0;
    while i < n
        invariant
            i <= n == entries@.len(),
            forall|a: int, b: int|
                0 <= a < b < n && a < i ==> entries@[a].0@ != entries@[b].0@,
        decreases n - i,
    {
        let mut j: usize = i + 1;
        while j < n
            invariant
                i < j <= n == entries@.len(),
                forall|b: int| i < b < j ==> entries@[i as int].0@ != entries@[b].0@,
            decreases n - j,
        {
            if entries[i].0 == entries[j].0 {
                proof {
                    assert(entries_view(entries@)[i as int].0 == entries@[i as int].0@);
                    assert(entries_view(entries@)[j as int].0 == entries@[j as int].0@);
                    assert(!unique_keys(entries_view(entries@)));
                }
                return true;
            }
            j = j + 1;
        }
        i = i + 1;
    }
    proof {
        assert forall|a: int, b: int| 0 <= a < b < entries_view(entries@).len() implies
            entries_view(entries@)[a].0 != entries_view(entries@)[b].0 by {
            assert(entries_view(entries@)[a].0 == entries@[a].0@);
            assert(entries_view(entries@)[b].0 == entries@[b].0@);
        }
    }
    false
}

/// Parse one JSON value at `i`, as `sp_value` describes.
fn parse_value(s: &Vec<u8>, i: usize) -> (r: Option<(Value, usize)>)
    requires
        i <= s@.len(),
    ensures
        match r {
            Some((v, j)) => sp_value(s@, i as int) == Some((v@, j as int)) && i < j <= s@.len(),
            None => sp_value(s@, i as int) is None,
        },
    decreases s@.len() - i, 1int,
{
    let n = s.len();
    if i >= n {
        return None;
    }
    let b = s[i];
    if b == 116 {
        if n - i >= 4 && s[i + 1] == 114 && s[i + 2] == 117 && s[i + 3] == 101 {
            Some((Value::Bool(true), i + 4))
        } else {
            None
        }
    } else if b == 102 {
        if n - i >= 5 && s[i + 1] == 97 && s[i + 2] == 108 && s[i + 3] == 115 && s[i + 4] == 101 {
            Some((Value::Bool(false), i + 5))
        } else {
            None
        }
    } else if b == 34 {
        match parse_string(s, i + 1) {
            None => None,
            Some((st, j)) => Some((Value::String(st), j)),
        }
    } else if b == 91 {
        if i + 1 < n && s[i + 1] == 93 {
            let v = Value::List(Vec::new());
            proof {
                crate::value::lemma_list_view(&v);
                assert(crate::value::vals_view(Seq::<Value>::empty()) =~= Seq::<
                    SpecValue,
                >::empty());
            }
            Some((v, i + 2))
        } else {
            match parse_items(s, i + 1) {
                None => None,
                Some((l, j)) => {
                    let v = Value::List(l);
                    proof {
                        crate::value::lemma_list_view(&v);
                    }
                    Some((v, j))
                },
            }
        }
    } else if b == 123 {
        if i + 1 < n && s[i + 1] == 125 {
            let v = Value::Dict(Vec::new());
            proof {
                crate::value::lemma_dict_view(&v);
                assert(entries_view(Seq::<(String, Value)>::empty()) =~= Seq::<
                    (Seq<char>, SpecValue),
                >::empty());
            }
            Some((v, i + 2))
        } else {
            match parse_members(s, i + 1) {
                None => None,
                Some((es, j)) => {
                    if has_dup_keys(&es) {
                        None
                    } else {
                        let v = Value::Dict(es);
                        proof {
                            crate::value::lemma_dict_view(&v);
                        }
                        Some((v, j))
                    }
                },
            }
        }
    } else if b == 45 || (48 <= b && b <= 57) {
        parse_int(s, i)
    } else {
        None
    }
}

/// Parse the elements of a non-empty list, as `sp_items` describes.
fn parse_items(s: &Vec<u8>, i: usize) -> (r: Option<(Vec<Value>, usize)>)
    requires
        i <= s@.len(),
    ensures
        match r {
            Some((l, j)) => sp_items(s@, i as int) == Some(
                (crate::value::vals_view(l@), j as int),
            ) && i < j <= s@.len(),
            None => sp_items(s@, i as int) is None,
        },
    decreases s@.len() - i, 2int,
{
    let n = s.len();
    if i >= n {
        return None;
    }
    match parse_value(s, i) {
        None => None,
        Some((v, j)) => {
            if j >= n {
                return None;
            }
            if s[j] == 44 {
                match parse_items(s, j + 1) {
                    None => None,
                    Some((rest, k)) => {
                        let mut rest = rest;
                        rest.insert(0, v);
                        proof {
                            assert(crate::value::vals_view(rest@) =~= seq![rest@[0]@]
                                + crate::value::vals_view(rest@.drop_first()));
                        }
                        Some((rest, k))
                    },
                }
            } else if s[j] == 93 {
                let mut out: Vec<Value> = Vec::new();
                out.push(v);
                proof {
                    assert(crate::value::vals_view(out@) =~= seq![out@[0]@]);
                }
                Some((out, j + 1))
            } else {
                None
            }
        },
    }
}

/// Parse the members of a non-empty object, as `sp_members` describes.
fn parse_members(s: &Vec<u8>, i: usize) -> (r: Option<(Vec<(String, Value)>, usize)>)
    requires
        i <= s@.len(),
    ensures
        match r {
            Some((es, j)) => sp_members(s@, i as int) == Some((entries_view(es@), j as int)) && i
                < j <= s@.len(),
            None => sp_members(s@, i as int) is None,
        },
    decreases s@.len() - i, 2int,
{
    let n = s.len();
    if i >= n || s[i] != 34 {
        return None;
    }
    match parse_string(s, i + 1) {
        None => None,
        Some((key, j)) => {
            if j >= n || s[j] != 58 {
                return None;
            }
            match parse_value(s, j + 1) {
                None => None,
                Some((v, k)) => {
                    if k >= n {
                        return None;
                    }
                    if s[k] == 44 {
                        match parse_members(s, k + 1) {
                            None => None,
                            Some((rest, e)) => {
                                let mut rest = rest;
                                rest.insert(0, (key, v));
                                proof {
                                    assert(entries_view(rest@) =~= seq![
                                        (rest@[0].0@, rest@[0].1@),
                                    ] + entries_view(rest@.drop_first()));
                                }
                                Some((rest, e))
                            },
                        }
                    } else if s[k] == 125 {
                        let mut out: Vec<(String, Value)> = Vec::new();
                        out.push((key, v));
                        proof {
                            assert(entries_view(out@) =~= seq![(out@[0].0@, out@[0].1@)]);
                        }
                        Some((out, k + 1))
                    } else {
                        None
                    }
                },
            }
        },
    }
}

/// Whatever `sp_value` accepts is a wire value: numbers are in range and
/// object keys are distinct, at every nesting level.
pub proof fn lemma_sp_value_wire(s: Seq<u8>, i: int)
    ensures
        sp_value(s, i) matches Some(r) ==> spec_wire(r.0),
    decreases s.len() - i, 1int,
{
    if 0 <= i < s.len() {
        let b = s[i];
        if b == 91 {
            if !(i + 1 < s.len() && s[i + 1] == 93) {
                lemma_sp_items_wire(s, i + 1);
            }
        } else if b == 123 {
            if !(i + 1 < s.len() && s[i + 1] == 125) {
                lemma_sp_members_wire(s, i + 1);
            }
        }
    }
}

proof fn lemma_sp_items_wire(s: Seq<u8>, i: int)
    ensures
        sp_items(s, i) matches Some(r) ==> forall|t: int|
            0 <= t < r.0.len() ==> spec_wire(#[trigger] r.0[t]),
    decreases s.len() - i, 2int,
{
    if 0 <= i < s.len() {
        lemma_sp_value_wire(s, i);
        match sp_value(s, i) {
            Option::None => {},
            Option::Some((v, j)) => {
                if !(j <= i || j >= s.len()) && s[j] == 44 {
                    lemma_sp_items_wire(s, j + 1);
                    match sp_items(s, j + 1) {
                        Option::None => {},
                        Option::Some((rest, k)) => {
                            assert forall|t: int|
                                0 <= t < (seq![v] + rest).len() implies spec_wire(
                                #[trigger] (seq![v] + rest)[t],
                            ) by {
                                if t == 0 {
                                    assert((seq![v] + rest)[0] == v);
                                } else {
                                    assert((seq![v] + rest)[t] == rest[t - 1]);
                                }
                            }
                        },
                    }
                }
            },
        }
    }
}

proof fn lemma_sp_members_wire(s: Seq<u8>, i: int)
    ensures
        sp_members(s, i) matches Some(r) ==> forall|t: int|
            0 <= t < r.0.len() ==> spec_wire(#[trigger] r.0[t].1),
    decreases s.len() - i, 2int,
{
    if 0 <= i < s.len() && s[i] == 34 {
        match sp_str_chars(s, i + 1) {
            Option::None => {},
            Option::Some((key, j)) => {
                if !(j <= i || j >= s.len() || s[j] != 58) {
                    lemma_sp_value_wire(s, j + 1);
                    match sp_value(s, j + 1) {
                        Option::None => {},
                        Option::Some((v, k)) => {
                            if !(k <= i || k >= s.len()) && s[k] == 44 {
                                lemma_sp_members_wire(s, k + 1);
                                match sp_members(s, k + 1) {
                                    Option::None => {},
                                    Option::Some((rest, e)) => {
                                        assert forall|t: int|
                                            0 <= t < (seq![(key, v)] + rest).len() implies spec_wire(
                                            #[trigger] (seq![(key, v)] + rest)[t].1,
                                        ) by {
                                            if t == 0 {
                                                assert((seq![(key, v)] + rest)[0] == (key, v));
                                            } else {
                                                assert((seq![(key, v)] + rest)[t] == rest[t - 1]);
                                            }
                                        }
                                    },
                                }
                            }
                        },
                    }
                }
            },
        }
    }
}

/// Whatever `sp_document` accepts is a wire value.
pub proof fn lemma_sp_document_wire(s: Seq<u8>)
    ensures
        sp_document(s) matches Some(v) ==> spec_wire(v),
{
    lemma_sp_value_wire(s, 0);
}

/// Deserialize wire JSON text into a claim value: the inverse direction of
/// the JSON bridge. Fails on anything `sp_document` rejects.
pub fn from_json(text: &str) -> (r: Result<Value, crate::errors::DecodeError>)
    ensures
        match r {
            Ok(v) => sp_document(text.spec_bytes()) == Some(v@),
            Err(e) => sp_document(text.spec_bytes()) is None && e
                == crate::errors::DecodeError::InvalidToken,
        },
{
    let bytes = text.as_bytes_vec();
    match parse_document(&bytes) {
        Some(v) => Ok(v),
        None => Err(crate::errors::DecodeError::InvalidToken),
    }
}

/// Parse a complete JSON document, as `sp_document` describes.
pub fn parse_document(s: &Vec<u8>) -> (r: Option<Value>)
    ensures
        match r {
            Some(v) => sp_document(s@) == Some(v@),
            None => sp_document(s@) is None,
        },
{
    match parse_value(s, 0) {
        None => None,
        Some((v, j)) => {
            if j == s.len() {
                Some(v)
            } else {
                None
            }
        },
    }
}

} // verus!
