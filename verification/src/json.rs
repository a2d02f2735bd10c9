use vstd::prelude::*;

use crate::errors::EncodeError;
use crate::value::SpecValue;
use crate::value::Value;
use crate::value::entries_view;
use crate::value::encodable;
use crate::value::spec_wire;
use crate::value::unique_keys;
use crate::value::vals_view;
use crate::value::wire_of;

verus! {

broadcast use vstd::seq::group_seq_axioms, vstd::std_specs::vec::group_vec_axioms;

/// Lowercase hex digit for a nibble.
pub open spec fn hex_digit(n: u32) -> u8 {
    if n < 10 {
        (48 + n) as u8
    } else {
        (87 + n) as u8
    }
}

/// Four lowercase hex digits, most significant first, of `n < 0x10000`.
pub open spec fn hex4(n: u32) -> Seq<u8> {
    seq![
        hex_digit((n / 0x1000) % 16),
        hex_digit((n / 0x100) % 16),
        hex_digit((n / 0x10) % 16),
        hex_digit(n % 16),
    ]
}

/// The canonical encoding of one character inside a JSON string: quote and
/// backslash are escaped, control characters and everything outside ASCII
/// become `\u` escapes (a surrogate pair above the basic plane), and the
/// printable ASCII range is emitted as the byte itself, so the wire text is
/// pure ASCII.
pub open spec fn esc_char(c: char) -> Seq<u8> {
    let u = c as u32;
    if c == '"' {
        seq![92u8, 34u8]
    } else if c == '\\' {
        seq![92u8, 92u8]
    } else if u < 0x20 {
        seq![92u8, 117u8] + hex4(u)
    } else if u < 0x80 {
        seq![u as u8]
    } else if u < 0x10000 {
        seq![92u8, 117u8] + hex4(u)
    } else {
        seq![92u8, 117u8] + hex4((0xD800 + (u - 0x10000) / 0x400) as u32) + seq![92u8, 117u8]
            + hex4((0xDC00 + (u - 0x10000) % 0x400) as u32)
    }
}

/// Characters of `s` from position `k` on, escaped, with the closing quote.
pub open spec fn str_body(s: Seq<char>, k: int) -> Seq<u8>
    decreases s.len() - k,
{
    if k < 0 || k >= s.len() {
        seq![34u8]
    } else {
        esc_char(s[k]) + str_body(s, k + 1)
    }
}

/// Decimal digits of `n >= 0`, most significant first.
pub open spec fn dec_digits(n: int) -> Seq<u8>
    decreases n,
{
    if n < 10 {
        seq![(48 + n) as u8]
    } else {
        dec_digits(n / 10) + seq![(48 + n % 10) as u8]
    }
}

/// The canonical JSON number text of an integer.
pub open spec fn int_bytes(i: int) -> Seq<u8> {
    if i < 0 {
        seq![45u8] + dec_digits(-i)
    } else {
        dec_digits(i)
    }
}

/// The canonical JSON text of a wire value, as bytes. The text carries no
/// whitespace, dictionary members keep their stored order, and strings are
/// escaped per `esc_char`.
pub open spec fn json_bytes(v: SpecValue) -> Seq<u8>
    decreases v, 0int,
{
    match v {
        SpecValue::Bool(b) => if b {
            seq![116u8, 114u8, 117u8, 101u8]
        } else {
            seq![102u8, 97u8, 108u8, 115u8, 101u8]
        },
        SpecValue::Int(i) => int_bytes(i),
        SpecValue::Str(s) => seq![34u8] + str_body(s, 0),
        SpecValue::List(l) => if l.len() == 0 {
            seq![91u8, 93u8]
        } else {
            seq![91u8] + items_tail(l, 0)
        },
        SpecValue::Dict(m) => if m.len() == 0 {
            seq![123u8, 125u8]
        } else {
            seq![123u8] + members_tail(m, 0)
        },
        SpecValue::TimeDelta(_) => Seq::empty(),
        SpecValue::DateTime(_) => Seq::empty(),
    }
}

/// List elements from position `k` on, comma-separated, with the closing
/// bracket.
pub open spec fn items_tail(l: Seq<SpecValue>, k: int) -> Seq<u8>
    decreases l, l.len() - k,
{
    if k < 0 || k >= l.len() {
        seq![93u8]
    } else {
        json_bytes(l[k]) + (if k + 1 < l.len() {
            seq![44u8] + items_tail(l, k + 1)
        } else {
            seq![93u8]
        })
    }
}

/// Dictionary members from position `k` on, comma-separated, with the
/// closing brace.
pub open spec fn members_tail(m: Seq<(Seq<char>, SpecValue)>, k: int) -> Seq<u8>
    decreases m, m.len() - k,
{
    if k < 0 || k >= m.len() {
        seq![125u8]
    } else {
        seq![34u8] + str_body(m[k].0, 0) + seq![58u8] + json_bytes(m[k].1) + (if k + 1 < m.len() {
            seq![44u8] + members_tail(m, k + 1)
        } else {
            seq![125u8]
        })
    }
}

fn write_hex4(n: u32, out: &mut Vec<u8>)
    requires
        n < 0x10000,
    ensures
        final(out)@ == old(out)@ + hex4(n),
{
    let d0 = write_hex_digit((n / 0x1000) % 16);
    let d1 = write_hex_digit((n / 0x100) % 16);
    let d2 = write_hex_digit((n / 0x10) % 16);
    let d3 = write_hex_digit(n % 16);
    out.push(d0);
    out.push(d1);
    out.push(d2);
    out.push(d3);
    assert(out@ =~= old(out)@ + hex4(n));
}

fn write_hex_digit(n: u32) -> (r: u8)
    requires
        n < 16,
    ensures
        r == hex_digit(n),
{
    if n < 10 {
        (48 + n) as u8
    } else {
        (87 + n) as u8
    }
}

/// Append the escaped form of one character.
fn write_esc_char(c: char, out: &mut Vec<u8>)
    ensures
        final(out)@ == old(out)@ + esc_char(c),
{
    let u = c as u32;
    if c == '"' {
        out.push(92);
        out.push(34);
        assert(out@ =~= old(out)@ + esc_char(c));
    } else if c == '\\' {
        out.push(92);
        out.push(92);
        assert(out@ =~= old(out)@ + esc_char(c));
    } else if u < 0x20 {
        out.push(92);
        out.push(117);
        write_hex4(u, out);
        assert(out@ =~= old(out)@ + esc_char(c));
    } else if u < 0x80 {
        out.push(u as u8);
        assert(out@ =~= old(out)@ + esc_char(c));
    } else if u < 0x10000 {
        out.push(92);
        out.push(117);
        write_hex4(u, out);
        assert(out@ =~= old(out)@ + esc_char(c));
    } else {
        out.push(92);
        out.push(117);
        write_hex4(0xD800 + (u - 0x10000) / 0x400, out);
        out.push(92);
        out.push(117);
        write_hex4(0xDC00 + (u - 0x10000) % 0x400, out);
        assert(out@ =~= old(out)@ + esc_char(c));
    }
}

/// Append the quoted, escaped form of a string.
#[verifier::loop_isolation(false)]
fn write_string(s: &String, out: &mut Vec<u8>)
    ensures
        final(out)@ == old(out)@ + seq![34u8] + str_body(s@, 0),
{
    out.push(34);
    let chars = crate::ext::str_chars(s.as_str());
    let mut k: usize = 0;
    while k < chars.len()
        invariant
            k <= chars@.len(),
            chars@ == s@,
            out@ + str_body(s@, k as int) == old(out)@ + seq![34u8] + str_body(s@, 0),
        decreases chars@.len() - k,
    {
        proof {
            assert(str_body(s@, k as int) == esc_char(s@[k as int]) + str_body(s@, k as int + 1));
        }
        write_esc_char(chars[k], out);
        k = k + 1;
        proof {
            assert(out@ + str_body(s@, k as int) =~= old(out)@ + seq![34u8] + str_body(s@, 0));
        }
    }
    out.push(34);
    proof {
        assert(str_body(s@, s@.len() as int) =~= seq![34u8]);
        assert(out@ =~= old(out)@ + seq![34u8] + str_body(s@, 0));
    }
}

/// Append the canonical decimal text of `n`.
#[verifier::loop_isolation(false)]
fn write_int(n: i64, out: &mut Vec<u8>)
    ensures
        final(out)@ == old(out)@ + int_bytes(n as int),
{
    let mag: u64;
    if n < 0 {
        out.push(45);
        mag = (-(n as i128)) as u64;
    } else {
        mag = n as u64;
    }
    let ghost base = out@;
    let mut tmp: Vec<u8> = Vec::new();
    let mut cur: u64 = mag;
    while cur >= 10
        invariant
            dec_digits(mag as int) =~= dec_digits(cur as int) + tmp@.reverse(),
        decreases cur,
    {
        let d = (48 + cur % 10) as u8;
        proof {
            assert(dec_digits(cur as int) == dec_digits(cur as int / 10) + seq![
                (48 + cur as int % 10) as u8,
            ]);
            assert((tmp@ + seq![d]).reverse() =~= seq![d] + tmp@.reverse());
            assert(dec_digits(cur as int / 10) + (seq![d] + tmp@.reverse()) =~= dec_digits(
                cur as int,
            ) + tmp@.reverse());
        }
        tmp.push(d);
        cur = cur / 10;
    }
    out.push((48 + cur % 10) as u8);
    proof {
        assert(dec_digits(cur as int) =~= seq![(48 + cur as int) as u8]);
        assert(out@ =~= base + dec_digits(cur as int) + tmp@.reverse().take(0));
    }
    let mut j: usize = tmp.len();
    while j > 0
        invariant
            j <= tmp@.len(),
            out@ =~= base + dec_digits(cur as int) + tmp@.reverse().take(tmp@.len() - j),
        decreases j,
    {
        j = j - 1;
        out.push(tmp[j]);
        proof {
            assert(tmp@.reverse().take(tmp@.len() - j) =~= tmp@.reverse().take(
                tmp@.len() - (j + 1),
            ) + seq![tmp@[j as int]]);
            assert(out@ =~= base + dec_digits(cur as int) + tmp@.reverse().take(tmp@.len() - j));
        }
    }
    proof {
        assert(tmp@.reverse().take(tmp@.len() as int) =~= tmp@.reverse());
        assert(out@ =~= base + dec_digits(cur as int) + tmp@.reverse());
        assert(out@ =~= base + dec_digits(mag as int));
        if n < 0 {
            assert(mag == -(n as int));
            assert(out@ =~= old(out)@ + int_bytes(n as int));
        } else {
            assert(out@ =~= old(out)@ + int_bytes(n as int));
        }
    }
}

/// Append the canonical JSON text of a wire value.
pub fn write_value(v: &Value, out: &mut Vec<u8>)
    requires
        spec_wire(v@),
    ensures
        final(out)@ == old(out)@ + json_bytes(v@),
    decreases v, 0int,
{
    match v {
        Value::Bool(b) => {
            if *b {
                out.push(116);
                out.push(114);
                out.push(117);
                out.push(101);
            } else {
                out.push(102);
                out.push(97);
                out.push(108);
                out.push(115);
                out.push(101);
            }
            assert(out@ =~= old(out)@ + json_bytes(v@));
        },
        Value::Int(i) => {
            write_int(*i, out);
        },
        Value::String(s) => {
            write_string(s, out);
            assert(out@ =~= old(out)@ + json_bytes(v@));
        },
        Value::TimeDelta(_) => {
            proof {
                assert(false);
            }
            vstd::pervasive::unreached()
        },
        Value::DateTime(_) => {
            proof {
                assert(false);
            }
            vstd::pervasive::unreached()
        },
        Value::List(l) => {
            out.push(91);
            if l.len() == 0 {
                out.push(93);
                proof {
                    assert(v@->List_0 =~= Seq::<SpecValue>::empty());
                    assert(out@ =~= old(out)@ + json_bytes(v@));
                }
            } else {
                proof {
                    crate::value::lemma_list_view(v);
                    assert(v->List_0@ == l@);
                    assert forall|t: int| 0 <= t < l@.len() implies spec_wire(#[trigger] l@[t]@) by {
                        assert(v@->List_0[t] == l@[t]@);
                        assert(spec_wire(v@->List_0[t]));
                    }
                }
                write_items(l, 0, out);
                proof {
                    assert(json_bytes(v@) =~= seq![91u8] + items_tail(vals_view(l@), 0));
                    assert(out@ =~= old(out)@ + json_bytes(v@));
                }
            }
        },
        Value::Dict(m) => {
            out.push(123);
            if m.len() == 0 {
                out.push(125);
                proof {
                    assert(v@->Dict_0 =~= Seq::<(Seq<char>, SpecValue)>::empty());
                    assert(out@ =~= old(out)@ + json_bytes(v@));
                }
            } else {
                proof {
                    crate::value::lemma_dict_view(v);
                    assert(v->Dict_0@ == m@);
                    assert forall|t: int| 0 <= t < m@.len() implies spec_wire(
                        #[trigger] m@[t].1@,
                    ) by {
                        assert(v@->Dict_0[t] == (m@[t].0@, m@[t].1@));
                        assert(spec_wire(v@->Dict_0[t].1));
                    }
                }
                write_members(m, 0, out);
                proof {
                    assert(json_bytes(v@) =~= seq![123u8] + members_tail(entries_view(m@), 0));
                    assert(out@ =~= old(out)@ + json_bytes(v@));
                }
            }
        },
    }
}

/// Append the elements `l[k..]`, comma-separated, and the closing bracket.
fn write_items(l: &Vec<Value>, k: usize, out: &mut Vec<u8>)
    requires
        k < l@.len(),
        forall|t: int| 0 <= t < l@.len() ==> spec_wire(#[trigger] l@[t]@),
    ensures
        final(out)@ == old(out)@ + items_tail(vals_view(l@), k as int),
    decreases l, l@.len() - k,
{
    proof {
        assert(decreases_to!(*l => l@));
        assert(decreases_to!(l@ => l@[k as int]));
    }
    write_value(&l[k], out);
    if k < l.len() - 1 {
        out.push(44);
        write_items(l, k + 1, out);
        proof {
            assert(vals_view(l@)[k as int] == l@[k as int]@);
            assert(items_tail(vals_view(l@), k as int) =~= json_bytes(l@[k as int]@) + (seq![44u8]
                + items_tail(vals_view(l@), k as int + 1)));
            assert(out@ =~= old(out)@ + items_tail(vals_view(l@), k as int));
        }
    } else {
        out.push(93);
        proof {
            assert(vals_view(l@)[k as int] == l@[k as int]@);
            assert(items_tail(vals_view(l@), k as int) =~= json_bytes(l@[k as int]@) + seq![93u8]);
            assert(out@ =~= old(out)@ + items_tail(vals_view(l@), k as int));
        }
    }
}

/// Convert the entries of a claims dictionary to their wire form at instant
/// `now`: keys must be pairwise distinct, and every nested duration must
/// convert without overflow.
#[verifier::loop_isolation(false)]
pub(crate) fn to_wire_entries(m: &Vec<(String, Value)>, now: i64) -> (r: Result<
    Vec<(String, Value)>,
    EncodeError,
>)
    ensures
        match r {
            Ok(out) => encodable(SpecValue::Dict(entries_view(m@)), now as int)
                && SpecValue::Dict(entries_view(out@)) == wire_of(
                SpecValue::Dict(entries_view(m@)),
                now as int,
            ) && spec_wire(SpecValue::Dict(entries_view(out@))),
            Err(e) => !encodable(SpecValue::Dict(entries_view(m@)), now as int) && e
                == EncodeError::InvalidClaims,
        },
    decreases m@, 1int,
{
    let ghost dv = SpecValue::Dict(entries_view(m@));
    if crate::parse::has_dup_keys(m) {
        return Err(EncodeError::InvalidClaims);
    }
    let mut out: Vec<(String, Value)> = Vec::new();
    let mut i: usize = 0;
    while i < m.len()
        invariant
            i <= m@.len(),
            out@.len() == i as int,
            unique_keys(entries_view(m@)),
            forall|k: int| 0 <= k < i as int ==> encodable(#[trigger] m@[k].1@, now as int),
            forall|k: int|
                0 <= k < i as int ==> (#[trigger] out@[k]).0@ == m@[k].0@ && out@[k].1@ == wire_of(
                    m@[k].1@,
                    now as int,
                ) && spec_wire(out@[k].1@),
        decreases m@.len() - i,
    {
        proof {
            assert(decreases_to!(m@ => m@[i as int]));
            assert(decreases_to!(m@[i as int] => m@[i as int].1));
        }
        let (key, val) = &m[i];
        match to_wire(val, now) {
            Ok(w) => {
                out.push((key.clone(), w));
            },
            Err(e) => {
                proof {
                    assert(dv->Dict_0[i as int] == (m@[i as int].0@, m@[i as int].1@));
                    assert(!encodable(dv, now as int)) by {
                        if encodable(dv, now as int) {
                            assert(encodable(dv->Dict_0[i as int].1, now as int));
                        }
                    }
                }
                return Err(e);
            },
        }
        i = i + 1;
    }
    proof {
        assert forall|k: int| 0 <= k < dv->Dict_0.len() implies encodable(
            #[trigger] dv->Dict_0[k].1,
            now as int,
        ) by {
            assert(dv->Dict_0[k] == (m@[k].0@, m@[k].1@));
        }
        assert(encodable(dv, now as int));
        let wd = wire_of(dv, now as int);
        assert forall|k: int| 0 <= k < entries_view(out@).len() implies #[trigger] entries_view(
            out@,
        )[k] == wd->Dict_0[k] by {
            assert(entries_view(out@)[k] == (out@[k].0@, out@[k].1@));
            assert(wd->Dict_0[k] == (dv->Dict_0[k].0, wire_of(dv->Dict_0[k].1, now as int)));
            assert(dv->Dict_0[k] == (m@[k].0@, m@[k].1@));
        }
        assert(entries_view(out@) =~= wd->Dict_0);
        assert(unique_keys(entries_view(out@))) by {
            assert forall|a: int, b: int|
                0 <= a < b < entries_view(out@).len() implies entries_view(out@)[a].0
                != entries_view(out@)[b].0 by {
                assert(entries_view(out@)[a].0 == m@[a].0@);
                assert(entries_view(m@)[a].0 == m@[a].0@);
                assert(entries_view(out@)[b].0 == m@[b].0@);
                assert(entries_view(m@)[b].0 == m@[b].0@);
            }
        }
        assert forall|k: int| 0 <= k < entries_view(out@).len() implies spec_wire(
            #[trigger] entries_view(out@)[k].1,
        ) by {
            assert(entries_view(out@)[k] == (out@[k].0@, out@[k].1@));
        }
    }
    Ok(out)
}

/// Convert one claim value to its wire form at instant `now`.
#[verifier::loop_isolation(false)]
pub fn to_wire(v: &Value, now: i64) -> (r: Result<Value, EncodeError>)
    ensures
        match r {
            Ok(w) => encodable(v@, now as int) && w@ == wire_of(v@, now as int) && spec_wire(w@),
            Err(e) => !encodable(v@, now as int) && e == EncodeError::InvalidClaims,
        },
    decreases v, 2int,
{
    match v {
        Value::Bool(b) => Ok(Value::Bool(*b)),
        Value::Int(i) => Ok(Value::Int(*i)),
        Value::String(s) => Ok(Value::String(s.clone())),
        Value::TimeDelta(d) => {
            let sum: i128 = now as i128 + *d as i128;
            if sum > i64::MAX as i128 {
                Err(EncodeError::InvalidClaims)
            } else {
                Ok(Value::Int(sum as i64))
            }
        },
        Value::DateTime(t) => Ok(Value::Int(*t)),
        Value::List(l) => {
            let mut out: Vec<Value> = Vec::new();
            let mut i: usize = 0;
            while i < l.len()
                invariant
                    i <= l@.len(),
                    out@.len() == i as int,
                    forall|k: int| 0 <= k < i as int ==> encodable(#[trigger] l@[k]@, now as int),
                    forall|k: int|
                        0 <= k < i as int ==> (#[trigger] out@[k])@ == wire_of(l@[k]@, now as int)
                            && spec_wire(out@[k]@),
                decreases l@.len() - i,
            {
                proof {
                    assert(decreases_to!(*l => l@));
                    assert(decreases_to!(l@ => l@[i as int]));
                }
                match to_wire(&l[i], now) {
                    Ok(w) => {
                        out.push(w);
                    },
                    Err(e) => {
                        proof {
                            crate::value::lemma_list_view(v);
                            assert(v@->List_0[i as int] == l@[i as int]@);
                            assert(!encodable(v@, now as int)) by {
                                if encodable(v@, now as int) {
                                    assert(encodable(v@->List_0[i as int], now as int));
                                }
                            }
                        }
                        return Err(e);
                    },
                }
                i = i + 1;
            }
            let w = Value::List(out);
            proof {
                crate::value::lemma_list_view(v);
                crate::value::lemma_list_view(&w);
                assert forall|k: int| 0 <= k < v@->List_0.len() implies encodable(
                    #[trigger] v@->List_0[k],
                    now as int,
                ) by {
                    assert(v@->List_0[k] == l@[k]@);
                }
                assert(encodable(v@, now as int));
                let wl = wire_of(v@, now as int);
                assert forall|k: int| 0 <= k < w@->List_0.len() implies #[trigger] w@->List_0[k]
                    == wl->List_0[k] by {
                    assert(w@->List_0[k] == wire_of(l@[k]@, now as int));
                    assert(wl->List_0[k] == wire_of(v@->List_0[k], now as int));
                    assert(v@->List_0[k] == l@[k]@);
                }
                assert(w@->List_0 =~= wl->List_0);
                assert forall|k: int| 0 <= k < w@->List_0.len() implies spec_wire(
                    #[trigger] w@->List_0[k],
                ) by {
                    assert(w@->List_0[k] == wire_of(l@[k]@, now as int));
                }
            }
            Ok(w)
        },
        Value::Dict(m) => {
            proof {
                assert(decreases_to!(*m => m@));
            }
            match to_wire_entries(m, now) {
                Ok(out) => {
                    let w = Value::Dict(out);
                    proof {
                        crate::value::lemma_dict_view(v);
                        crate::value::lemma_dict_view(&w);
                    }
                    Ok(w)
                },
                Err(e) => {
                    proof {
                        crate::value::lemma_dict_view(v);
                    }
                    Err(e)
                },
            }
        },
    }
}

/// Every byte of the escaped form of a character is ASCII.
proof fn lemma_ascii_esc(c: char)
    ensures
        forall|t: int| 0 <= t < esc_char(c).len() ==> esc_char(c)[t] < 128,
{
}

/// Every byte of an escaped string body is ASCII.
proof fn lemma_ascii_str_body(s: Seq<char>, k: int)
    ensures
        forall|t: int| 0 <= t < str_body(s, k).len() ==> str_body(s, k)[t] < 128,
    decreases s.len() - k,
{
    if !(k < 0 || k >= s.len()) {
        lemma_ascii_esc(s[k]);
        lemma_ascii_str_body(s, k + 1);
        let e = esc_char(s[k]);
        let r = str_body(s, k + 1);
        assert forall|t: int| 0 <= t < str_body(s, k).len() implies str_body(s, k)[t] < 128 by {
            assert(str_body(s, k) == e + r);
            if t < e.len() {
                assert((e + r)[t] == e[t]);
            } else {
                assert((e + r)[t] == r[t - e.len()]);
            }
        }
    }
}

/// Every byte of a decimal digit run is ASCII.
proof fn lemma_ascii_dec(n: int)
    requires
        0 <= n,
    ensures
        forall|t: int| 0 <= t < dec_digits(n).len() ==> dec_digits(n)[t] < 128,
    decreases n,
{
    if n >= 10 {
        lemma_ascii_dec(n / 10);
        let a = dec_digits(n / 10);
        let b = seq![(48 + n % 10) as u8];
        assert forall|t: int| 0 <= t < dec_digits(n).len() implies dec_digits(n)[t] < 128 by {
            assert(dec_digits(n) == a + b);
            if t < a.len() {
                assert((a + b)[t] == a[t]);
            } else {
                assert((a + b)[t] == b[t - a.len()]);
            }
        }
    }
}

/// Every byte of the JSON text of a wire value is ASCII.
pub proof fn lemma_ascii_json(v: SpecValue)
    ensures
        forall|t: int| 0 <= t < json_bytes(v).len() ==> json_bytes(v)[t] < 128,
    decreases v, 0int,
{
    match v {
        SpecValue::Bool(_) => {},
        SpecValue::Int(i) => {
            if i >= 0 {
                lemma_ascii_dec(i);
            } else {
                lemma_ascii_dec(-i);
            }
            if i < 0 {
                let a = seq![45u8];
                let b = dec_digits(-i);
                assert forall|t: int| 0 <= t < json_bytes(v).len() implies json_bytes(v)[t]
                    < 128 by {
                    assert(json_bytes(v) == a + b);
                    if t < 1 {
                        assert((a + b)[t] == a[t]);
                    } else {
                        assert((a + b)[t] == b[t - 1]);
                    }
                }
            }
        },
        SpecValue::Str(s) => {
            lemma_ascii_str_body(s, 0);
            let a = seq![34u8];
            let b = str_body(s, 0);
            assert forall|t: int| 0 <= t < json_bytes(v).len() implies json_bytes(v)[t] < 128 by {
                assert(json_bytes(v) == a + b);
                if t < 1 {
                    assert((a + b)[t] == a[t]);
                } else {
                    assert((a + b)[t] == b[t - 1]);
                }
            }
        },
        SpecValue::List(l) => {
            if l.len() > 0 {
                lemma_ascii_items(l, 0);
                let a = seq![91u8];
                let b = items_tail(l, 0);
                assert forall|t: int| 0 <= t < json_bytes(v).len() implies json_bytes(v)[t]
                    < 128 by {
                    assert(json_bytes(v) == a + b);
                    if t < 1 {
                        assert((a + b)[t] == a[t]);
                    } else {
                        assert((a + b)[t] == b[t - 1]);
                    }
                }
            }
        },
        SpecValue::Dict(m) => {
            if m.len() > 0 {
                lemma_ascii_members(m, 0);
                let a = seq![123u8];
                let b = members_tail(m, 0);
                assert forall|t: int| 0 <= t < json_bytes(v).len() implies json_bytes(v)[t]
                    < 128 by {
                    assert(json_bytes(v) == a + b);
                    if t < 1 {
                        assert((a + b)[t] == a[t]);
                    } else {
                        assert((a + b)[t] == b[t - 1]);
                    }
                }
            }
        },
        SpecValue::TimeDelta(_) => {},
        SpecValue::DateTime(_) => {},
    }
}

proof fn lemma_ascii_items(l: Seq<SpecValue>, k: int)
    ensures
        forall|t: int| 0 <= t < items_tail(l, k).len() ==> items_tail(l, k)[t] < 128,
    decreases l, l.len() - k,
{
    if !(k < 0 || k >= l.len()) {
        lemma_ascii_json(l[k]);
        let a = json_bytes(l[k]);
        let b: Seq<u8> = if k + 1 < l.len() {
            seq![44u8] + items_tail(l, k + 1)
        } else {
            seq![93u8]
        };
        if k + 1 < l.len() {
            lemma_ascii_items(l, k + 1);
            let r = items_tail(l, k + 1);
            assert forall|t: int| 0 <= t < b.len() implies b[t] < 128 by {
                if t < 1 {
                    assert(b[t] == seq![44u8][t]);
                } else {
                    assert(b[t] == r[t - 1]);
                }
            }
        }
        assert forall|t: int| 0 <= t < items_tail(l, k).len() implies items_tail(l, k)[t] < 128 by {
            assert(items_tail(l, k) == a + b);
            if t < a.len() {
                assert((a + b)[t] == a[t]);
            } else {
                assert((a + b)[t] == b[t - a.len()]);
            }
        }
    }
}

proof fn lemma_ascii_members(m: Seq<(Seq<char>, SpecValue)>, k: int)
    ensures
        forall|t: int| 0 <= t < members_tail(m, k).len() ==> members_tail(m, k)[t] < 128,
    decreases m, m.len() - k,
{
    if !(k < 0 || k >= m.len()) {
        lemma_ascii_str_body(m[k].0, 0);
        lemma_ascii_json(m[k].1);
        let a = seq![34u8] + str_body(m[k].0, 0);
        let b = a + seq![58u8];
        let c = b + json_bytes(m[k].1);
        let d: Seq<u8> = if k + 1 < m.len() {
            seq![44u8] + members_tail(m, k + 1)
        } else {
            seq![125u8]
        };
        assert forall|t: int| 0 <= t < a.len() implies a[t] < 128 by {
            if t < 1 {
                assert(a[t] == seq![34u8][t]);
            } else {
                assert(a[t] == str_body(m[k].0, 0)[t - 1]);
            }
        }
        assert forall|t: int| 0 <= t < c.len() implies c[t] < 128 by {
            if t < b.len() {
                assert(c[t] == b[t]);
                if t < a.len() {
                    assert(b[t] == a[t]);
                }
            } else {
                assert(c[t] == json_bytes(m[k].1)[t - b.len()]);
            }
        }
        if k + 1 < m.len() {
            lemma_ascii_members(m, k + 1);
            let r = members_tail(m, k + 1);
            assert forall|t: int| 0 <= t < d.len() implies d[t] < 128 by {
                if t < 1 {
                    assert(d[t] == seq![44u8][t]);
                } else {
                    assert(d[t] == r[t - 1]);
                }
            }
        }
        assert forall|t: int|
            0 <= t < members_tail(m, k).len() implies members_tail(m, k)[t] < 128 by {
            assert(members_tail(m, k) == c + d);
            if t < c.len() {
                assert((c + d)[t] == c[t]);
            } else {
                assert((c + d)[t] == d[t - c.len()]);
            }
        }
    }
}

/// The wire JSON bytes of a claims dictionary at instant `now`.
pub(crate) fn to_json_bytes(claims: &Vec<(String, Value)>, now: i64) -> (r: Result<
    Vec<u8>,
    EncodeError,
>)
    ensures
        match r {
            Ok(b) => encodable(SpecValue::Dict(entries_view(claims@)), now as int) && b@
                == json_bytes(wire_of(SpecValue::Dict(entries_view(claims@)), now as int)),
            Err(e) => !encodable(SpecValue::Dict(entries_view(claims@)), now as int) && e
                == EncodeError::InvalidClaims,
        },
{
    match to_wire_entries(claims, now) {
        Ok(out) => {
            let w = Value::Dict(out);
            proof {
                crate::value::lemma_dict_view(&w);
            }
            let mut buf: Vec<u8> = Vec::new();
            write_value(&w, &mut buf);
            proof {
                assert(buf@ =~= json_bytes(w@));
            }
            Ok(buf)
        },
        Err(e) => Err(e),
    }
}

/// Serialize a claims mapping to its canonical wire JSON text at instant
/// `now`. The text is pure ASCII; dictionary keys keep their given order.
pub fn to_json(claims: &Vec<(String, Value)>, now: i64) -> (r: Result<String, EncodeError>)
    ensures
        match r {
            Ok(s) => encodable(SpecValue::Dict(entries_view(claims@)), now as int) && s@
                == crate::ext::ascii_view(
                json_bytes(wire_of(SpecValue::Dict(entries_view(claims@)), now as int)),
            ),
            Err(e) => !encodable(SpecValue::Dict(entries_view(claims@)), now as int) && e
                == EncodeError::InvalidClaims,
        },
{
    match to_json_bytes(claims, now) {
        Ok(b) => {
            proof {
                lemma_ascii_json(wire_of(SpecValue::Dict(entries_view(claims@)), now as int));
            }
            let s = crate::ext::ascii_to_string(b.as_slice());
            Ok(s)
        },
        Err(e) => Err(e),
    }
}

/// Append the members `m[k..]`, comma-separated, and the closing brace.
fn write_members(m: &Vec<(String, Value)>, k: usize, out: &mut Vec<u8>)
    requires
        k < m@.len(),
        forall|t: int| 0 <= t < m@.len() ==> spec_wire(#[trigger] m@[t].1@),
    ensures
        final(out)@ == old(out)@ + members_tail(entries_view(m@), k as int),
    decreases m, m@.len() - k,
{
    proof {
        assert(decreases_to!(*m => m@));
        assert(decreases_to!(m@ => m@[k as int]));
        assert(decreases_to!(m@[k as int] => m@[k as int].1));
    }
    let (key, val) = &m[k];
    write_string(key, out);
    out.push(58);
    write_value(val, out);
    if k < m.len() - 1 {
        out.push(44);
        write_members(m, k + 1, out);
        proof {
            assert(entries_view(m@)[k as int] == (m@[k as int].0@, m@[k as int].1@));
            assert(members_tail(entries_view(m@), k as int) =~= (seq![34u8] + str_body(
                m@[k as int].0@,
                0,
            )) + seq![58u8] + json_bytes(m@[k as int].1@) + (seq![44u8] + members_tail(
                entries_view(m@),
                k as int + 1,
            )));
            assert(out@ =~= old(out)@ + members_tail(entries_view(m@), k as int));
        }
    } else {
        out.push(125);
        proof {
            assert(entries_view(m@)[k as int] == (m@[k as int].0@, m@[k as int].1@));
            assert(members_tail(entries_view(m@), k as int) =~= (seq![34u8] + str_body(
                m@[k as int].0@,
                0,
            )) + seq![58u8] + json_bytes(m@[k as int].1@) + seq![125u8]);
            assert(out@ =~= old(out)@ + members_tail(entries_view(m@), k as int));
        }
    }
}

} // verus!
