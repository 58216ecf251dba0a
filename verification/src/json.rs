//! An untyped JSON value and its mathematical model.
//!
//! `JsonValue` is the executable representation of a JSON document; its view
//! is a `JsonModel`, the same tree stated over `Seq` and `int`, which every
//! contract in this crate speaks of.

use vstd::prelude::*;

verus! {

/// Mathematical model of a JSON value: the view of [`JsonValue`].
///
/// Strings are sequences of characters; objects are sequences of
/// key/value entries in their textual order (keys may in principle repeat;
/// lookups take the first occurrence).
pub enum JsonModel {
    Null,
    Bool(bool),
    Int(int),
    Str(Seq<char>),
    Arr(Seq<JsonModel>),
    Obj(Seq<(Seq<char>, JsonModel)>),
}

/// An untyped JSON value.
///
/// Objects are kept as a sequence of entries so that the encoded member
/// order is part of the value and encoding is stable.
#[derive(Debug, PartialEq, Eq)]
pub enum JsonValue {
    Null,
    Bool(bool),
    Int(i64),
    Str(String),
    Arr(Vec<JsonValue>),
    Obj(Vec<(String, JsonValue)>),
}

impl JsonValue {
    /// Model of a value, stated over `Seq` and `int`.
    pub open spec fn model(self) -> JsonModel
        decreases self,
    {
        match self {
            JsonValue::Null => JsonModel::Null,
            JsonValue::Bool(b) => JsonModel::Bool(b),
            JsonValue::Int(i) => JsonModel::Int(i as int),
            JsonValue::Str(s) => JsonModel::Str(s@),
            JsonValue::Arr(items) => JsonModel::Arr(JsonValue::model_items(items@)),
            JsonValue::Obj(entries) => JsonModel::Obj(JsonValue::model_entries(entries@)),
        }
    }

    /// Models of the elements of an array, in order.
    pub open spec fn model_items(s: Seq<JsonValue>) -> Seq<JsonModel>
        decreases s,
    {
        if s.len() == 0 {
            Seq::empty()
        } else {
            seq![s[0].model()] + JsonValue::model_items(s.subrange(1, s.len() as int))
        }
    }

    /// Models of the entries of an object, in order.
    pub open spec fn model_entries(s: Seq<(String, JsonValue)>) -> Seq<(Seq<char>, JsonModel)>
        decreases s,
    {
        if s.len() == 0 {
            Seq::empty()
        } else {
            seq![(s[0].0@, s[0].1.model())] + JsonValue::model_entries(
                s.subrange(1, s.len() as int),
            )
        }
    }
}

impl View for JsonValue {
    type V = JsonModel;

    open spec fn view(&self) -> JsonModel {
        self.model()
    }
}

/// The model of an object's entries is the entrywise model.
pub proof fn lemma_model_entries_index(s: Seq<(String, JsonValue)>)
    ensures
        JsonValue::model_entries(s).len() == s.len(),
        forall|i: int|
            0 <= i < s.len() ==> JsonValue::model_entries(s)[i] == (s[i].0@, s[i].1.model()),
    decreases s,
{
    if s.len() > 0 {
        lemma_model_entries_index(s.subrange(1, s.len() as int));
    }
}

/// The model of an array's items is the itemwise model.
pub proof fn lemma_model_items_index(s: Seq<JsonValue>)
    ensures
        JsonValue::model_items(s).len() == s.len(),
        forall|i: int| 0 <= i < s.len() ==> JsonValue::model_items(s)[i] == s[i].model(),
    decreases s,
{
    if s.len() > 0 {
        lemma_model_items_index(s.subrange(1, s.len() as int));
    }
}

/// First value bound to `key` among `entries`, if any.
pub open spec fn spec_entries_lookup(
    entries: Seq<(Seq<char>, JsonModel)>,
    key: Seq<char>,
) -> Option<JsonModel>
    decreases entries.len(),
{
    if entries.len() == 0 {
        None
    } else if entries[0].0 == key {
        Some(entries[0].1)
    } else {
        spec_entries_lookup(entries.drop_first(), key)
    }
}

/// Value of member `key` of `m`: `None` when `m` is not an object or has no
/// such member.
pub open spec fn spec_obj_lookup(m: JsonModel, key: Seq<char>) -> Option<JsonModel> {
    match m {
        JsonModel::Obj(entries) => spec_entries_lookup(entries, key),
        _ => None,
    }
}

impl JsonValue {
    /// Reference to the value of member `key`, if `self` is an object that
    /// has one.
    pub fn get_member<'a>(&'a self, key: &str) -> (r: Option<&'a JsonValue>)
        ensures
            match r {
                Some(v) => spec_obj_lookup(self@, key@) == Some(v@),
                None => spec_obj_lookup(self@, key@) is None,
            },
    {
        match self {
            JsonValue::Obj(entries) => {
                proof {
                    assert(self@ is Obj);
                }
                let ghost m: Seq<(Seq<char>, JsonModel)> = self@->Obj_0;
                proof {
                    lemma_model_entries_index(entries@);
                    assert(m.skip(0) =~= m);
                }
                let key_string: String = key.to_owned();
                let n = entries.len();
                let mut i: usize = 0;
                while i < n
                    invariant
                        n as nat == entries@.len(),
                        i <= n,
                        self@ is Obj,
                        m == self@->Obj_0,
                        m == JsonValue::model_entries(entries@),
                        m.len() == entries@.len(),
                        forall|k: int|
                            0 <= k < entries@.len() ==> m[k] == (
                                entries@[k].0@,
                                entries@[k].1.model(),
                            ),
                        spec_entries_lookup(m, key@) == spec_entries_lookup(
                            m.skip(i as int),
                            key@,
                        ),
                        key_string@ == key@,
                    decreases n - i,
                {
                    proof {
                        assert(m.skip(i as int)[0] == m[i as int]);
                        assert(m.skip(i as int).drop_first() =~= m.skip(i as int + 1));
                    }
                    if entries[i].0 == key_string {
                        proof {
                            assert(m[i as int].0 == key@);
                            assert(spec_entries_lookup(m.skip(i as int), key@) == Some(
                                m[i as int].1,
                            ));
                        }
                        return Some(&entries[i].1);
                    }
                    i += 1;
                }
                proof {
                    assert(m.skip(n as int) =~= Seq::<(Seq<char>, JsonModel)>::empty());
                }
                None
            },
            _ => None,
        }
    }
}

} // verus!
