//! Values marked for encryption: a value in a wrapping that tells the
//! replicator to encrypt it on its way out.

use crate::fleece::{
    entries_get, entries_put, lemma_container_view, lemma_put, lemma_put_wf, model_entries,
    model_wf, Array, Dict, Entries, FleeceReference, Node, Value, ValueModel,
};
use crate::fleece_mutable::{storable, MutableDict, Slot, SlotTarget, entry_stored, element_stored, end_stored};
use vstd::prelude::*;

verus! {

/// The key under which the wrapping of a value that is marked for encryption
/// holds its type: `@type`.
pub open spec fn type_key() -> Seq<char> {
    seq!['@', 't', 'y', 'p', 'e']
}

/// The key under which the wrapping holds the value: `value`.
pub open spec fn value_key() -> Seq<char> {
    seq!['v', 'a', 'l', 'u', 'e']
}

/// The type that the wrapping holds: `encryptable`.
pub open spec fn encryptable_type() -> Seq<char> {
    seq!['e', 'n', 'c', 'r', 'y', 'p', 't', 'a', 'b', 'l', 'e']
}

/// The entries of the wrapping of `value`: the type `encryptable` under `@type`,
/// and the value under `value`.
pub open spec fn wrapping_entries(value: ValueModel) -> Entries {
    entries_put(
        entries_put(Seq::empty(), type_key(), ValueModel::String(encryptable_type())),
        value_key(),
        value,
    )
}

/// True for the wrapping of a value that is marked for encryption: a dictionary
/// that holds the type `encryptable` under `@type`.
pub open spec fn model_is_encryptable(m: ValueModel) -> bool {
    m is Dict && entries_get(model_entries(m), type_key()) == ValueModel::String(
        encryptable_type(),
    )
}

/// The wrapping of a valid value is a valid dictionary, tells that it is a
/// wrapping, and holds the value.
pub proof fn lemma_wrapping(value: ValueModel)
    requires
        model_wf(value),
        value != ValueModel::Undefined,
    ensures
        model_wf(ValueModel::Dict(wrapping_entries(value))),
        model_is_encryptable(ValueModel::Dict(wrapping_entries(value))),
        entries_get(wrapping_entries(value), value_key()) == value,
{
    let none: Entries = Seq::empty();
    let kind = ValueModel::String(encryptable_type());
    lemma_put(none, type_key(), kind);
    lemma_put_wf(none, type_key(), kind);
    let first = entries_put(none, type_key(), kind);
    lemma_put(first, value_key(), value);
    lemma_put_wf(first, value_key(), value);
    assert(type_key() != value_key()) by {
        assert(type_key()[0] == '@');
        assert(value_key()[0] == 'v');
    }
}

/// A value that is marked for encryption.
#[derive(Debug)]
pub struct Encryptable {
    pub(crate) value: Node,
}

impl View for Encryptable {
    type V = ValueModel;

    closed spec fn view(&self) -> ValueModel {
        self.value@
    }
}

impl Encryptable {
    /// The validity of the marked value.
    pub open spec fn wf(&self) -> bool {
        model_wf(self@) && self@ != ValueModel::Undefined
    }

    fn of(value: Node) -> (r: Encryptable)
        ensures
            r@ == value@,
            value.wf() ==> r.wf(),
    {
        proof {
            lemma_container_view(value);
        }
        Encryptable { value }
    }

    /// Marks the null value.
    pub fn create_with_null() -> (r: Encryptable)
        ensures
            r@ == ValueModel::Null,
            r.wf(),
    {
        Self::of(Node::Null)
    }

    /// Marks a boolean.
    pub fn create_with_bool(value: bool) -> (r: Encryptable)
        ensures
            r@ == ValueModel::Bool(value),
            r.wf(),
    {
        Self::of(Node::Bool(value))
    }

    /// Marks an integer.
    pub fn create_with_int(value: i64) -> (r: Encryptable)
        ensures
            r@ == ValueModel::Int(value as int),
            r.wf(),
    {
        Self::of(Node::Int(value))
    }

    /// Marks an unsigned integer.
    pub fn create_with_uint(value: u64) -> (r: Encryptable)
        ensures
            r@ == ValueModel::Int(value as int),
            r.wf(),
    {
        Self::of(Node::UInt(value))
    }

    /// Marks a string.
    pub fn create_with_string(value: &str) -> (r: Encryptable)
        ensures
            r@ == ValueModel::String(value@),
            r.wf(),
    {
        Self::of(Node::String(value.to_owned()))
    }

    /// Marks a copy of a value; null for the handle to no value.
    pub fn create_with_value(value: Value) -> (r: Encryptable)
        ensures
            r@ == storable(value@),
            value.wf() ==> r.wf(),
    {
        match value.to_node() {
            Some(n) => Self::of(n),
            None => Self::of(Node::Null),
        }
    }

    /// Marks a copy of an array; null for the null array.
    pub fn create_with_array(value: Array) -> (r: Encryptable)
        ensures
            r@ == storable(value@),
            value.wf() ==> r.wf(),
    {
        Self::create_with_value(value.as_value())
    }

    /// Marks a copy of a dictionary; null for the null dictionary.
    pub fn create_with_dict(value: Dict) -> (r: Encryptable)
        ensures
            r@ == storable(value@),
            value.wf() ==> r.wf(),
    {
        Self::create_with_value(value.as_value())
    }

    /// The marked value.
    pub fn get_value(&self) -> (v: Value<'_>)
        ensures
            v@ == self@,
    {
        Value::wrap(&self.value, self)
    }

    /// The wrapping of the marked value: a dictionary with the type
    /// `encryptable` under `@type` and the value under `value`.
    pub fn get_properties(&self) -> (r: MutableDict)
        requires
            self.wf(),
        ensures
            r@ == ValueModel::Dict(wrapping_entries(self@)),
            r.wf(),
    {
        let mut dict = MutableDict::new();
        proof {
            dict.lemma_view_is_dict();
            lemma_wrapping(self@);
            reveal_strlit("@type");
            reveal_strlit("value");
            reveal_strlit("encryptable");
            assert("@type"@ =~= type_key());
            assert("value"@ =~= value_key());
            assert("encryptable"@ =~= encryptable_type());
        }
        dict.at("@type").put_string("encryptable");
        proof {
            dict.lemma_view_is_dict();
        }
        dict.at("value").put_value(&self.get_value());
        proof {
            dict.lemma_view_is_dict();
        }
        dict
    }
}

impl<'a> Dict<'a> {
    /// True when the dictionary is the wrapping of a value that is marked for
    /// encryption.
    pub fn is_encryptable(&self) -> (r: bool)
        requires
            self.wf(),
        ensures
            r == model_is_encryptable(self@),
    {
        proof {
            reveal_strlit("@type");
            reveal_strlit("encryptable");
            assert("@type"@ =~= type_key());
            assert("encryptable"@ =~= encryptable_type());
        }
        if self.is_null() {
            return false;
        }
        match self.get("@type").as_string() {
            Some(kind) => crate::text::same_text(kind, "encryptable"),
            None => false,
        }
    }

    /// The value that the dictionary wraps: what it holds under `value`; null
    /// where it holds nothing there.
    pub fn get_encryptable_value(&self) -> (r: Encryptable)
        requires
            self.wf(),
        ensures
            r@ == storable(entries_get(model_entries(self@), value_key())),
    {
        proof {
            reveal_strlit("value");
            assert("value"@ =~= value_key());
        }
        Encryptable::create_with_value(self.get("value"))
    }
}

impl<'a> Value<'a> {
    /// True when the value is the wrapping of a value that is marked for
    /// encryption.
    pub fn is_encryptable(&self) -> (r: bool)
        requires
            self.wf(),
        ensures
            r == model_is_encryptable(self@),
    {
        let dict = self.as_dict();
        if dict.is_null() {
            false
        } else {
            dict.is_encryptable()
        }
    }

    /// The value that this value wraps, where it is a dictionary: what it holds
    /// under `value`; null where it is no dictionary or holds nothing there.
    pub fn get_encryptable_value(&self) -> (r: Encryptable)
        requires
            self.wf(),
        ensures
            r@ == storable(entries_get(model_entries(self@), value_key())),
    {
        let dict = self.as_dict();
        proof {
            if !(self@ is Dict) {
                let none: Entries = Seq::empty();
                assert(crate::fleece::is_rank(none, value_key(), 0));
                crate::fleece::lemma_rank_unique(none, value_key(), 0);
            }
        }
        if dict.is_null() {
            Encryptable::create_with_null()
        } else {
            dict.get_encryptable_value()
        }
    }
}

impl<'s> Slot<'s> {
    /// Stores a value that is marked for encryption: the wrapping of the value.
    pub fn put_encrypt(self, value: &Encryptable)
        requires
            self.wf(),
            value.wf(),
        ensures
            self.target matches SlotTarget::Element(a, i) ==> element_stored(
                *a,
                *final(a),
                i as int,
                ValueModel::Dict(wrapping_entries(value@)),
            ) && final(a).wf(),
            self.target matches SlotTarget::End(a) ==> end_stored(
                *a,
                *final(a),
                ValueModel::Dict(wrapping_entries(value@)),
            ) && final(a).wf(),
            self.target matches SlotTarget::Entry(d, k) ==> entry_stored(
                *d,
                *final(d),
                k@,
                ValueModel::Dict(wrapping_entries(value@)),
            ) && final(d).wf(),
    {
        let wrapping = value.get_properties();
        self.put_value(&wrapping)
    }
}

impl MutableDict {
    /// Stores under `key` of `dict` a value that is marked for encryption: the
    /// wrapping of the value.
    pub fn set_encryptable_value(dict: &mut MutableDict, key: &str, encryptable: &Encryptable)
        requires
            old(dict).wf(),
            encryptable.wf(),
        ensures
            entry_stored(
                *old(dict),
                *final(dict),
                key@,
                ValueModel::Dict(wrapping_entries(encryptable@)),
            ),
            final(dict).wf(),
    {
        dict.at(key).put_encrypt(encryptable)
    }
}

} // verus!
