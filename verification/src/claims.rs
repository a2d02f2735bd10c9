use vstd::prelude::*;

use crate::json::json_bytes;
use crate::value::SpecValue;
use crate::value::Value;
use crate::value::entries_view;
use crate::value::spec_lookup;
use crate::value::spec_lookup_from;
use crate::value::spec_wire;

verus! {

broadcast use vstd::seq::group_seq_axioms, vstd::std_specs::vec::group_vec_axioms;

/// The read-only claims container handed out by a successful decode. It owns
/// a copy of the verified claims and has no tie to the engine that produced
/// it.
#[derive(Debug)]
pub struct TokenData {
    /// Decoded claims, in wire order, with pairwise distinct keys.
    pub claims: Vec<(String, Value)>,
}

impl View for TokenData {
    type V = Seq<(Seq<char>, SpecValue)>;

    open spec fn view(&self) -> Seq<(Seq<char>, SpecValue)> {
        entries_view(self.claims@)
    }
}

/// First value bound to `key` among the entries, by linear search.
pub(crate) fn find_value<'a>(entries: &'a Vec<(String, Value)>, key: &str) -> (r: Option<
    &'a Value,
>)
    ensures
        match r {
            Some(v) => spec_lookup(entries_view(entries@), key@) == Some(v@),
            None => spec_lookup(entries_view(entries@), key@) is None,
        },
{
    let ghost ev = entries_view(entries@);
    let wanted: String = key.to_owned();
    let mut i: usize = 0;
    while i < entries.len()
        invariant
            i <= entries@.len(),
            wanted@ == key@,
            ev == entries_view(entries@),
            spec_lookup(ev, key@) == spec_lookup_from(ev, key@, i as int),
        decreases entries@.len() - i,
    {
        proof {
            assert(ev[i as int] == (entries@[i as int].0@, entries@[i as int].1@));
        }
        if entries[i].0 == wanted {
            return Some(&entries[i].1);
        }
        i = i + 1;
    }
    None
}

impl TokenData {
    /// Number of claims.
    pub fn len(&self) -> (r: usize)
        ensures
            r == self@.len(),
    {
        self.claims.len()
    }

    /// Optional lookup: the claim value, or an explicit absent marker.
    pub fn get<'a>(&'a self, key: &str) -> (r: Option<&'a Value>)
        ensures
            match r {
                Some(v) => spec_lookup(self@, key@) == Some(v@),
                None => spec_lookup(self@, key@) is None,
            },
    {
        find_value(&self.claims, key)
    }

    /// Indexed lookup: the claim value, or a missing-key error naming the
    /// requested key.
    pub fn get_item<'a>(&'a self, key: &str) -> (r: Result<&'a Value, String>)
        ensures
            match r {
                Ok(v) => spec_lookup(self@, key@) == Some(v@),
                Err(msg) => spec_lookup(self@, key@) is None && msg@ == "not found key "@ + key@,
            },
    {
        match find_value(&self.claims, key) {
            Some(v) => Ok(v),
            None => {
                let mut msg: String = "not found key ".to_owned();
                msg.append(key);
                Err(msg)
            },
        }
    }

    /// Membership test.
    pub fn contains_key(&self, key: &str) -> (r: bool)
        ensures
            r == (spec_lookup(self@, key@) is Some),
    {
        match find_value(&self.claims, key) {
            Some(_) => true,
            None => false,
        }
    }

    /// The claim names, in stored order.
    pub fn keys(&self) -> (r: Vec<String>)
        ensures
            r@.len() == self@.len(),
            forall|k: int| 0 <= k < r@.len() ==> (#[trigger] r@[k])@ == self@[k].0,
    {
        let mut out: Vec<String> = Vec::new();
        let mut i: usize = 0;
        while i < self.claims.len()
            invariant
                i <= self.claims@.len(),
                out@.len() == i as int,
                forall|k: int| 0 <= k < i as int ==> (#[trigger] out@[k])@ == self@[k].0,
            decreases self.claims@.len() - i,
        {
            proof {
                assert(self@[i as int] == (self.claims@[i as int].0@, self.claims@[i as int].1@));
            }
            out.push(self.claims[i].0.clone());
            i = i + 1;
        }
        out
    }

    /// The claim values, in stored order.
    pub fn values(&self) -> (r: Vec<Value>)
        ensures
            r@.len() == self@.len(),
            forall|k: int| 0 <= k < r@.len() ==> (#[trigger] r@[k])@ == self@[k].1,
    {
        let mut out: Vec<Value> = Vec::new();
        let mut i: usize = 0;
        while i < self.claims.len()
            invariant
                i <= self.claims@.len(),
                out@.len() == i as int,
                forall|k: int| 0 <= k < i as int ==> (#[trigger] out@[k])@ == self@[k].1,
            decreases self.claims@.len() - i,
        {
            proof {
                assert(self@[i as int] == (self.claims@[i as int].0@, self.claims@[i as int].1@));
            }
            out.push(self.claims[i].1.duplicate());
            i = i + 1;
        }
        out
    }

    /// The claim name/value pairs, in stored order.
    pub fn items(&self) -> (r: Vec<(String, Value)>)
        ensures
            entries_view(r@) == self@,
    {
        let mut out: Vec<(String, Value)> = Vec::new();
        let mut i: usize = 0;
        while i < self.claims.len()
            invariant
                i <= self.claims@.len(),
                out@.len() == i as int,
                forall|k: int|
                    0 <= k < i as int ==> (#[trigger] out@[k]).0@ == self.claims@[k].0@
                        && out@[k].1@ == self.claims@[k].1@,
            decreases self.claims@.len() - i,
        {
            let (k, v) = &self.claims[i];
            out.push((k.clone(), v.duplicate()));
            i = i + 1;
        }
        proof {
            assert forall|k: int| 0 <= k < entries_view(out@).len() implies #[trigger] entries_view(
                out@,
            )[k] == self@[k] by {
                assert(entries_view(out@)[k] == (out@[k].0@, out@[k].1@));
                assert(self@[k] == (self.claims@[k].0@, self.claims@[k].1@));
            }
            assert(entries_view(out@) =~= self@);
        }
        out
    }

    /// Deterministic rendering of the claims, as the wire JSON text: a debug
    /// aid, not a parseable format of its own.
    pub fn repr(&self) -> (r: String)
        requires
            spec_wire(SpecValue::Dict(self@)),
        ensures
            r@ == crate::ext::ascii_view(json_bytes(SpecValue::Dict(self@))),
    {
        let items = self.items();
        let v = Value::Dict(items);
        proof {
            crate::value::lemma_dict_view(&v);
        }
        let mut buf: Vec<u8> = Vec::new();
        crate::json::write_value(&v, &mut buf);
        proof {
            crate::json::lemma_ascii_json(v@);
            assert(buf@ =~= json_bytes(v@));
        }
        crate::ext::ascii_to_string(buf.as_slice())
    }
}

} // verus!
