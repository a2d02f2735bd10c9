use vstd::prelude::*;

verus! {

broadcast use vstd::seq::group_seq_axioms, vstd::std_specs::vec::group_vec_axioms;

/// Mathematical model of a claim value.
///
/// `Int` covers every number that appears on the wire; `TimeDelta` and
/// `DateTime` only exist before encoding: a `TimeDelta` is turned into the
/// absolute instant `now + delta` (seconds since the Unix epoch) and a
/// `DateTime` into its own seconds-since-epoch number, so neither survives a
/// round trip as itself.
pub enum SpecValue {
    Bool(bool),
    Str(Seq<char>),
    Int(int),
    TimeDelta(int),
    DateTime(int),
    List(Seq<SpecValue>),
    Dict(Seq<(Seq<char>, SpecValue)>),
}

/// A dynamically typed claim value.
///
/// Durations are whole seconds; instants are whole seconds since the Unix
/// epoch. Dictionaries are ordered key/value pairs with pairwise distinct
/// keys.
#[derive(Debug, PartialEq)]
pub enum Value {
    Bool(bool),
    String(String),
    Int(i64),
    TimeDelta(u64),
    DateTime(i64),
    List(Vec<Value>),
    Dict(Vec<(String, Value)>),
}

impl View for Value {
    type V = SpecValue;

    open spec fn view(&self) -> SpecValue
        decreases self,
    {
        match self {
            Value::Bool(b) => SpecValue::Bool(*b),
            Value::String(s) => SpecValue::Str(s@),
            Value::Int(i) => SpecValue::Int(*i as int),
            Value::TimeDelta(d) => SpecValue::TimeDelta(*d as int),
            Value::DateTime(t) => SpecValue::DateTime(*t as int),
            Value::List(l) => SpecValue::List(vals_view(l@)),
            Value::Dict(m) => SpecValue::Dict(entries_view(m@)),
        }
    }
}

/// The models of a sequence of values, as stored in a `Value::List`.
pub open spec fn vals_view(s: Seq<Value>) -> Seq<SpecValue>
    decreases s,
{
    Seq::new(
        s.len(),
        |i: int| if 0 <= i < s.len() {
            s[i]@
        } else {
            SpecValue::Bool(false)
        },
    )
}

/// The model of a sequence of named entries, as stored in a `Value::Dict`.
pub open spec fn entries_view(m: Seq<(String, Value)>) -> Seq<(Seq<char>, SpecValue)>
    decreases m,
{
    Seq::new(
        m.len(),
        |i: int| if 0 <= i < m.len() {
            (m[i].0@, m[i].1@)
        } else {
            (Seq::<char>::empty(), SpecValue::Bool(false))
        },
    )
}

/// First value bound to `key` at or after position `i`.
pub open spec fn spec_lookup_from(
    m: Seq<(Seq<char>, SpecValue)>,
    key: Seq<char>,
    i: int,
) -> Option<SpecValue>
    decreases m.len() - i,
{
    if i < 0 || i >= m.len() {
        None
    } else if m[i].0 == key {
        Some(m[i].1)
    } else {
        spec_lookup_from(m, key, i + 1)
    }
}

/// First value bound to `key` in an entry sequence, if any.
pub open spec fn spec_lookup(m: Seq<(Seq<char>, SpecValue)>, key: Seq<char>) -> Option<SpecValue> {
    spec_lookup_from(m, key, 0)
}

/// Keys of a dictionary model are pairwise distinct.
pub open spec fn unique_keys(m: Seq<(Seq<char>, SpecValue)>) -> bool {
    forall|i: int, j: int| 0 <= i < j < m.len() ==> m[i].0 != m[j].0
}

/// Values of this shape can appear on the wire: time variants are gone and
/// every number fits a 64-bit signed integer.
pub open spec fn spec_wire(v: SpecValue) -> bool
    decreases v,
{
    match v {
        SpecValue::Bool(_) => true,
        SpecValue::Str(_) => true,
        SpecValue::Int(i) => i64::MIN <= i <= i64::MAX,
        SpecValue::TimeDelta(_) => false,
        SpecValue::DateTime(_) => false,
        SpecValue::List(l) => forall|i: int| 0 <= i < l.len() ==> spec_wire(#[trigger] l[i]),
        SpecValue::Dict(m) => unique_keys(m) && forall|i: int|
            0 <= i < m.len() ==> spec_wire(#[trigger] m[i].1),
    }
}

/// The claim value `v` can be encoded at instant `now`: converting each
/// `TimeDelta` to the absolute instant `now + delta` stays within the wire's
/// 64-bit signed range, and dictionary keys are distinct.
pub open spec fn encodable(v: SpecValue, now: int) -> bool
    decreases v,
{
    match v {
        SpecValue::Bool(_) => true,
        SpecValue::Str(_) => true,
        SpecValue::Int(i) => i64::MIN <= i <= i64::MAX,
        SpecValue::TimeDelta(d) => 0 <= d && now + d <= i64::MAX,
        SpecValue::DateTime(t) => i64::MIN <= t <= i64::MAX,
        SpecValue::List(l) => forall|i: int| 0 <= i < l.len() ==> encodable(#[trigger] l[i], now),
        SpecValue::Dict(m) => unique_keys(m) && forall|i: int|
            0 <= i < m.len() ==> encodable(#[trigger] m[i].1, now),
    }
}

/// The wire form of `v` when encoding at instant `now`: each `TimeDelta(d)`
/// becomes `Int(now + d)` and each `DateTime(t)` becomes `Int(t)`; everything
/// else keeps its shape.
pub open spec fn wire_of(v: SpecValue, now: int) -> SpecValue
    decreases v,
{
    match v {
        SpecValue::Bool(b) => SpecValue::Bool(b),
        SpecValue::Str(s) => SpecValue::Str(s),
        SpecValue::Int(i) => SpecValue::Int(i),
        SpecValue::TimeDelta(d) => SpecValue::Int(now + d),
        SpecValue::DateTime(t) => SpecValue::Int(t),
        SpecValue::List(l) => SpecValue::List(
            Seq::new(
                l.len(),
                |i: int| if 0 <= i < l.len() {
                    wire_of(l[i], now)
                } else {
                    SpecValue::Bool(false)
                },
            ),
        ),
        SpecValue::Dict(m) => SpecValue::Dict(
            Seq::new(
                m.len(),
                |i: int| if 0 <= i < m.len() {
                    (m[i].0, wire_of(m[i].1, now))
                } else {
                    (Seq::empty(), SpecValue::Bool(false))
                },
            ),
        ),
    }
}

pub proof fn lemma_list_view(v: &Value)
    requires
        v is List,
    ensures
        v@ == SpecValue::List(vals_view(v->List_0@)),
{
}

pub proof fn lemma_dict_view(v: &Value)
    requires
        v is Dict,
    ensures
        v@ == SpecValue::Dict(entries_view(v->Dict_0@)),
{
}

impl Value {
    /// Structural copy; the copy models the same value.
    #[verifier::loop_isolation(false)]
    pub fn duplicate(&self) -> (r: Value)
        ensures
            r@ == self@,
        decreases self,
    {
        match self {
            Value::Bool(b) => Value::Bool(*b),
            Value::String(s) => Value::String(s.clone()),
            Value::Int(i) => Value::Int(*i),
            Value::TimeDelta(d) => Value::TimeDelta(*d),
            Value::DateTime(t) => Value::DateTime(*t),
            Value::List(l) => {
                let mut out: Vec<Value> = Vec::new();
                let mut i: usize = 0;
                while i < l.len()
                    invariant
                        i <= l.len(),
                        out@.len() == i as int,
                        forall|k: int| 0 <= k < i as int ==> out@[k]@ == l@[k]@,
                    decreases l.len() - i,
                {
                    proof {
                        assert(decreases_to!(*l => l@));
                        assert(decreases_to!(l@ => l@[i as int]));
                    }
                    out.push(l[i].duplicate());
                    i = i + 1;
                }
                let r = Value::List(out);
                proof {
                    assert(r@ matches SpecValue::List(s) && s =~= self@->List_0);
                    assert(r@ =~= self@);
                }
                r
            },
            Value::Dict(m) => {
                let mut out: Vec<(String, Value)> = Vec::new();
                let mut i: usize = 0;
                while i < m.len()
                    invariant
                        i <= m.len(),
                        out@.len() == i as int,
                        forall|k: int| 0 <= k < i as int ==> out@[k].0@ == m@[k].0@
                            && out@[k].1@ == m@[k].1@,
                    decreases m.len() - i,
                {
                    proof {
                        assert(decreases_to!(*m => m@));
                        assert(decreases_to!(m@ => m@[i as int]));
                        assert(decreases_to!(m@[i as int] => m@[i as int].1));
                    }
                    let (k, v) = &m[i];
                    out.push((k.clone(), v.duplicate()));
                    i = i + 1;
                }
                let r = Value::Dict(out);
                proof {
                    assert(r@ matches SpecValue::Dict(s) && s =~= self@->Dict_0);
                    assert(r@ =~= self@);
                }
                r
            },
        }
    }
}

} // verus!
