//! The mutable containers, and the slot through which a value is stored in one.

use crate::error::{CouchbaseLiteError, Error};
use crate::fleece::{
    copy_entries, copy_items, count_of, entries_get, entries_has, entries_model, entries_put,
    entries_put_all, entries_remove, entries_sorted, find_entry, items_model, lemma_container_view,
    lemma_put, lemma_put_wf, lemma_rank_exists, lemma_remove_wf, model_entries, model_item,
    model_items, model_wf, same_entries, same_items, Array, ArrayIterator, Dict, DictIterator,
    DictKey, Entries, FleeceReference, Node, Value, ValueModel,
};
use crate::number::{is_double_chars, is_double_text};
use crate::text::chars_of;
use vstd::prelude::*;
use vstd::std_specs::cmp::PartialEqSpecImpl;

verus! {

/// How deep a mutable copy goes. Every copy made here owns all that it holds, so
/// the four options give equal values.
#[derive(Debug, Clone, Copy, PartialEq, Eq, Structural)]
pub enum CopyFlags {
    /// Shallow copy of mutable values.
    Default,
    /// Deep copy of mutable values.
    Deep,
    /// Copies of immutable values too.
    CopyImmutables,
    /// Deep copy, immutable values included.
    DeepCopyImmutables,
}

/// An array that can be changed. It owns its items.
#[derive(Debug)]
pub struct MutableArray {
    pub(crate) items: Vec<Node>,
    pub(crate) changed: bool,
}

impl View for MutableArray {
    type V = ValueModel;

    closed spec fn view(&self) -> ValueModel {
        ValueModel::Array(items_model(self.items@))
    }
}

/// A dictionary that can be changed. It owns its entries, and keeps them in the
/// order of their keys.
#[derive(Debug)]
pub struct MutableDict {
    pub(crate) entries: Vec<(String, Node)>,
    pub(crate) changed: bool,
}

impl View for MutableDict {
    type V = ValueModel;

    closed spec fn view(&self) -> ValueModel {
        ValueModel::Dict(entries_model(self.entries@))
    }
}

/// Where a slot stores: in place of an item of an array, behind its last item,
/// or under a key of a dictionary.
pub enum SlotTarget<'s> {
    Element(&'s mut MutableArray, usize),
    End(&'s mut MutableArray),
    Entry(&'s mut MutableDict, String),
}

/// The right to store one value at one place of a mutable container. Storing
/// uses the slot up.
pub struct Slot<'s> {
    pub target: SlotTarget<'s>,
}

impl MutableArray {
    /// The validity of the array: that of its model.
    pub open spec fn wf(&self) -> bool {
        model_wf(self@)
    }

    /// Whether the array has been changed since it was made.
    pub closed spec fn spec_is_changed(&self) -> bool {
        self.changed
    }

    /// The items, as mathematics.
    pub open spec fn spec_items(&self) -> Seq<ValueModel> {
        model_items(self@)
    }

    /// The view of a mutable array is always an array.
    pub proof fn lemma_view_is_array(&self)
        ensures
            self@ is Array,
            self@ == ValueModel::Array(self.spec_items()),
    {
    }

    /// A new, empty array.
    pub fn new() -> (r: MutableArray)
        ensures
            r@ == ValueModel::Array(Seq::empty()),
            !r.spec_is_changed(),
            r.wf(),
    {
        let r = MutableArray { items: Vec::new(), changed: false };
        assert(items_model(r.items@) =~= Seq::empty());
        r
    }

    /// A mutable copy of `array`; of the null array, an empty one. The copy
    /// counts as unchanged.
    pub fn from_array(array: &Array) -> (r: MutableArray)
        ensures
            r@ == ValueModel::Array(model_items(array@)),
            !r.spec_is_changed(),
            array.wf() ==> r.wf(),
    {
        Self::from_array_(array, CopyFlags::Default)
    }

    /// A mutable copy of `array`, as `from_array`, with the depth asked for.
    pub fn from_array_(array: &Array, flags: CopyFlags) -> (r: MutableArray)
        ensures
            r@ == ValueModel::Array(model_items(array@)),
            !r.spec_is_changed(),
            array.wf() ==> r.wf(),
    {
        let value = array.as_value();
        match value.to_node() {
            Some(Node::Array(items)) => {
                proof {
                    lemma_container_view(Node::Array(items));
                }
                MutableArray { items, changed: false }
            },
            Some(other) => {
                proof {
                    lemma_container_view(other);
                }
                Self::new()
            },
            None => Self::new(),
        }
    }

    /// True when the array has been changed since it was made.
    pub fn is_changed(&self) -> (r: bool)
        ensures
            r == self.spec_is_changed(),
    {
        self.changed
    }

    /// The slot of the item at `index`; `None` where the array has no such
    /// item. Until something is stored through the slot the array stays as it
    /// is.
    pub fn at(&mut self, index: u32) -> (r: Option<Slot<'_>>)
        ensures
            r is Some <==> index < old(self).spec_items().len(),
            r matches Some(slot) ==> (slot.target matches SlotTarget::Element(a, i) && i == index
                && *a == *old(self) && *final(a) == *final(self)),
            r is None ==> *final(self) == *old(self),
    {
        if (index as usize) < self.items.len() {
            Some(Slot { target: SlotTarget::Element(self, index as usize) })
        } else {
            None
        }
    }

    /// The slot behind the last item: storing through it makes the array one
    /// item longer.
    pub fn append(&mut self) -> (slot: Slot<'_>)
        ensures
            slot.target matches SlotTarget::End(a) && *a == *old(self) && *final(a) == *final(self),
    {
        Slot { target: SlotTarget::End(self) }
    }

    /// Makes room at `index`: a null value is put there, and the items from
    /// there on move up by one. Fails with `MemoryError` where the array has no
    /// item at `index`.
    pub fn insert(&mut self, index: u32) -> (r: Result<(), Error>)
        requires
            old(self).wf(),
        ensures
            index < old(self).spec_items().len() ==> {
                &&& r is Ok
                &&& final(self)@ == ValueModel::Array(
                    old(self).spec_items().insert(index as int, ValueModel::Null),
                )
                &&& final(self).spec_is_changed()
            },
            index >= old(self).spec_items().len() ==> {
                &&& r == Err::<(), Error>(Error::spec_cbl_error(CouchbaseLiteError::MemoryError))
                &&& *final(self) == *old(self)
            },
            final(self).wf(),
    {
        if (index as usize) < self.items.len() {
            self.items.insert(index as usize, Node::Null);
            self.changed = true;
            proof {
                let before = old(self).spec_items();
                let after = before.insert(index as int, ValueModel::Null);
                assert(items_model(self.items@) =~= after);
                assert forall|j: int| 0 <= j < after.len() implies #[trigger] after[j]
                    != ValueModel::Undefined && model_wf(after[j]) by {
                    if j < index {
                        assert(after[j] == before[j]);
                    } else if j > index {
                        assert(after[j] == before[j - 1]);
                    }
                }
            }
            Ok(())
        } else {
            Err(Error::cbl_error(CouchbaseLiteError::MemoryError))
        }
    }

    /// Takes out the item at `index`; the items behind it move down by one.
    /// Where the array has no item at `index` nothing happens.
    pub fn remove(&mut self, index: u32)
        requires
            old(self).wf(),
        ensures
            index < old(self).spec_items().len() ==> {
                &&& final(self)@ == ValueModel::Array(old(self).spec_items().remove(index as int))
                &&& final(self).spec_is_changed()
            },
            index >= old(self).spec_items().len() ==> *final(self) == *old(self),
            final(self).wf(),
    {
        if (index as usize) < self.items.len() {
            self.items.remove(index as usize);
            self.changed = true;
            proof {
                let before = old(self).spec_items();
                let after = before.remove(index as int);
                assert(items_model(self.items@) =~= after);
                assert forall|j: int| 0 <= j < after.len() implies #[trigger] after[j]
                    != ValueModel::Undefined && model_wf(after[j]) by {
                    if j < index {
                        assert(after[j] == before[j]);
                    } else {
                        assert(after[j] == before[j + 1]);
                    }
                }
            }
        }
    }

    /// Takes out every item. An array that held something counts as changed.
    pub fn remove_all(&mut self)
        ensures
            final(self)@ == ValueModel::Array(Seq::empty()),
            final(self).spec_is_changed() == (old(self).spec_is_changed() || old(self).spec_items().len() > 0),
            final(self).wf(),
    {
        if self.items.len() > 0 {
            self.items.clear();
            self.changed = true;
        }
        assert(items_model(self.items@) =~= Seq::empty());
    }

    /// A read-only handle to the array.
    pub fn as_array(&self) -> (r: Array<'_>)
        ensures
            r@ == self@,
    {
        Array::wrap(&self.items)
    }

    /// The number of items.
    pub fn count(&self) -> (n: u32)
        ensures
            n == count_of(self.spec_items().len()),
    {
        self.as_array().count()
    }

    /// True when the array holds no item.
    pub fn empty(&self) -> (r: bool)
        ensures
            r == (self.spec_items().len() == 0),
    {
        self.as_array().empty()
    }

    /// The item at `index`, or `Undefined` where the array has none there.
    pub fn get(&self, index: u32) -> (v: Value<'_>)
        ensures
            v@ == model_item(self@, index as int),
            self.wf() ==> v.wf(),
    {
        self.as_array().get(index)
    }

    /// The item at `index`, or `Undefined` where the array has none there; as
    /// `get`, for a position of any size.
    pub fn item(&self, index: usize) -> (v: Value<'_>)
        ensures
            v@ == model_item(self@, index as int),
            self.wf() ==> v.wf(),
    {
        if index < self.items.len() {
            proof {
                lemma_container_view(self.items@[index as int]);
            }
            Value::wrap(&self.items[index], self)
        } else {
            Value::undefined()
        }
    }

    /// A fresh iterator over the items, from the first.
    pub fn iter(&self) -> (it: ArrayIterator<'_>)
        ensures
            it.items() == self.spec_items(),
            it.position() == 0,
    {
        self.as_array().iter()
    }

    /// Collects what is left of an iterator into a new array.
    pub fn from_iter(iter: ArrayIterator<'_>) -> (r: MutableArray)
        ensures
            r@ == ValueModel::Array(iter.remaining()),
            r.spec_is_changed() == (iter.remaining().len() > 0),
            model_wf(ValueModel::Array(iter.items())) ==> r.wf(),
    {
        let mut iter = iter;
        let ghost start = iter.position();
        let ghost all = iter.items();
        let mut c = MutableArray { items: Vec::new(), changed: false };
        proof {
            iter.lemma_bounds();
            assert(items_model(c.items@) =~= all.subrange(start as int, start as int));
        }
        loop
            invariant
                iter.items() == all,
                start <= iter.position() <= all.len(),
                items_model(c.items@) == all.subrange(start as int, iter.position() as int),
                c.changed == (iter.position() > start),
            ensures
                iter.position() == all.len(),
            decreases all.len() - iter.position(),
        {
            let ghost before = c.items@;
            let ghost pos = iter.position();
            proof {
                iter.lemma_bounds();
            }
            match iter.next() {
                Some(v) => {
                    let node = match v.to_node() {
                        Some(n) => n,
                        None => Node::Null,
                    };
                    proof {
                        lemma_container_view(node);
                    }
                    c.items.push(node);
                    c.changed = true;
                    assert(items_model(c.items@) =~= all.subrange(start as int, pos as int + 1)) by {
                        assert(items_model(c.items@) =~= items_model(before).push(all[pos as int]));
                    }
                },
                None => {
                    break ;
                },
            }
        }
        assert(items_model(c.items@) =~= all.skip(start as int));
        c
    }

    /// A copy of the array that owns all it holds, changed or not as this one.
    pub fn duplicate(&self) -> (r: MutableArray)
        ensures
            r@ == self@,
            r.spec_is_changed() == self.spec_is_changed(),
    {
        MutableArray { items: copy_items(&self.items), changed: self.changed }
    }
}


impl Default for MutableArray {
    fn default() -> (r: Self)
        ensures
            r@ == ValueModel::Array(Seq::empty()),
            !r.spec_is_changed(),
            r.wf(),
    {
        MutableArray::new()
    }
}

impl Clone for MutableArray {
    fn clone(&self) -> (r: Self)
        ensures
            r@ == self@,
            r.spec_is_changed() == self.spec_is_changed(),
    {
        self.duplicate()
    }
}

impl FleeceReference for MutableArray {
    fn as_value(&self) -> (v: Value<'_>) {
        self.as_array().as_value()
    }
}

impl PartialEq for MutableArray {
    fn eq(&self, other: &Self) -> (r: bool) {
        same_items(&self.items, &other.items)
    }
}

impl PartialEqSpecImpl for MutableArray {
    open spec fn obeys_eq_spec() -> bool {
        true
    }

    open spec fn eq_spec(&self, other: &Self) -> bool {
        self@ == other@
    }
}

impl Eq for MutableArray {

}

impl<'a> Array<'a> {
    /// A mutable copy of the array; of the null array, an empty one.
    pub fn mutable_copy(&self) -> (r: MutableArray)
        ensures
            r@ == ValueModel::Array(model_items(self@)),
            !r.spec_is_changed(),
            self.wf() ==> r.wf(),
    {
        MutableArray::from_array(self)
    }
}

impl MutableDict {
    /// The validity of the dictionary: that of its model.
    pub open spec fn wf(&self) -> bool {
        model_wf(self@)
    }

    /// Whether the dictionary has been changed since it was made.
    pub closed spec fn spec_is_changed(&self) -> bool {
        self.changed
    }

    /// The entries, as mathematics.
    pub open spec fn spec_entries(&self) -> Entries {
        model_entries(self@)
    }

    /// The view of a mutable dictionary is always a dictionary.
    pub proof fn lemma_view_is_dict(&self)
        ensures
            self@ is Dict,
            self@ == ValueModel::Dict(self.spec_entries()),
    {
    }

    /// A new, empty dictionary.
    pub fn new() -> (r: MutableDict)
        ensures
            r@ == ValueModel::Dict(Seq::empty()),
            !r.spec_is_changed(),
            r.wf(),
    {
        let r = MutableDict { entries: Vec::new(), changed: false };
        assert(entries_model(r.entries@) =~= Seq::empty());
        r
    }

    /// A mutable copy of `dict`; of the null dictionary, an empty one. The copy
    /// counts as unchanged.
    pub fn from_dict(dict: &Dict) -> (r: MutableDict)
        ensures
            r@ == ValueModel::Dict(model_entries(dict@)),
            !r.spec_is_changed(),
            dict.wf() ==> r.wf(),
    {
        Self::from_dict_(dict, CopyFlags::Default)
    }

    /// A mutable copy of `dict`, as `from_dict`, with the depth asked for.
    pub fn from_dict_(dict: &Dict, flags: CopyFlags) -> (r: MutableDict)
        ensures
            r@ == ValueModel::Dict(model_entries(dict@)),
            !r.spec_is_changed(),
            dict.wf() ==> r.wf(),
    {
        let value = dict.as_value();
        match value.to_node() {
            Some(Node::Dict(entries)) => {
                proof {
                    lemma_container_view(Node::Dict(entries));
                }
                MutableDict { entries, changed: false }
            },
            Some(other) => {
                proof {
                    lemma_container_view(other);
                }
                Self::new()
            },
            None => Self::new(),
        }
    }

    /// True when the dictionary has been changed since it was made.
    pub fn is_changed(&self) -> (r: bool)
        ensures
            r == self.spec_is_changed(),
    {
        self.changed
    }

    /// The slot under `key`. Until something is stored through the slot the
    /// dictionary stays as it is.
    pub fn at<'s>(&'s mut self, key: &str) -> (slot: Slot<'s>)
        ensures
            slot.target matches SlotTarget::Entry(d, k) && k@ == key@ && *d == *old(self)
                && *final(d) == *final(self),
    {
        Slot { target: SlotTarget::Entry(self, key.to_owned()) }
    }

    /// Stores `node` under `key`.
    pub(crate) fn put_node(&mut self, key: String, node: Node)
        requires
            old(self).wf(),
        ensures
            final(self)@ == ValueModel::Dict(entries_put(old(self).spec_entries(), key@, node@)),
            final(self).spec_is_changed(),
            node.wf() ==> final(self).wf(),
    {
        let ghost before = entries_model(self.entries@);
        let ghost k = key@;
        let ghost v = node@;
        proof {
            lemma_container_view(node);
            lemma_rank_exists(before, k);
            if node.wf() {
                lemma_put_wf(before, k, v);
            }
        }
        let (i, found) = find_entry(&self.entries, key.as_str());
        if found {
            self.entries.set(i, (key, node));
            assert(entries_model(self.entries@) =~= before.update(i as int, (k, v)));
        } else {
            self.entries.insert(i, (key, node));
            assert(entries_model(self.entries@) =~= before.insert(i as int, (k, v)));
        }
        self.changed = true;
    }

    /// Takes out `key` and its value. Where the dictionary has no such key
    /// nothing happens.
    pub fn remove(&mut self, key: &str)
        requires
            old(self).wf(),
        ensures
            final(self)@ == ValueModel::Dict(entries_remove(old(self).spec_entries(), key@)),
            final(self).spec_is_changed() == (old(self).spec_is_changed() || entries_has(
                old(self).spec_entries(),
                key@,
            )),
            final(self).wf(),
    {
        let ghost before = entries_model(self.entries@);
        proof {
            lemma_rank_exists(before, key@);
            lemma_remove_wf(before, key@);
        }
        let (i, found) = find_entry(&self.entries, key);
        if found {
            self.entries.remove(i);
            self.changed = true;
            assert(entries_model(self.entries@) =~= before.remove(i as int));
        }
    }

    /// Takes out every entry. A dictionary that held something counts as
    /// changed.
    pub fn remove_all(&mut self)
        ensures
            final(self)@ == ValueModel::Dict(Seq::empty()),
            final(self).spec_is_changed() == (old(self).spec_is_changed() || old(self).spec_entries().len() > 0),
            final(self).wf(),
    {
        if self.entries.len() > 0 {
            self.entries.clear();
            self.changed = true;
        }
        assert(entries_model(self.entries@) =~= Seq::empty());
    }

    /// The keys with their string values, in the order of the keys; a value that
    /// is no string counts as the empty string.
    pub fn to_hashmap(&self) -> (r: Vec<(String, String)>)
        ensures
            r@.len() == self.spec_entries().len(),
            forall|i: int|
                0 <= i < r@.len() ==> (#[trigger] r@[i]).0@ == self.spec_entries()[i].0 && r@[i].1@
                    == text_of(self.spec_entries()[i].1),
    {
        let mut out: Vec<(String, String)> = Vec::new();
        let mut i: usize = 0;
        while i < self.entries.len()
            invariant
                i <= self.entries.len(),
                out@.len() == i,
                forall|j: int|
                    0 <= j < i ==> (#[trigger] out@[j]).0@ == self.entries@[j].0@ && out@[j].1@
                        == text_of(self.entries@[j].1@),
            decreases self.entries.len() - i,
        {
            let text = match &self.entries[i].1 {
                Node::String(s) => s.clone(),
                other => {
                    proof {
                        lemma_container_view(*other);
                    }
                    String::new()
                },
            };
            out.push((self.entries[i].0.clone(), text));
            i += 1;
        }
        out
    }

    /// The dictionary that holds each pair of `map` as a key with a string
    /// value; of two pairs with one key the later one stays.
    pub fn from_hashmap(map: &Vec<(String, String)>) -> (r: MutableDict)
        ensures
            r@ == ValueModel::Dict(entries_put_all(Seq::empty(), string_pairs(map@))),
            r.spec_is_changed() == (map@.len() > 0),
            r.wf(),
    {
        let mut dict = Self::new();
        let mut i: usize = 0;
        assert(string_pairs(map@).subrange(0, 0) =~= Seq::empty());
        while i < map.len()
            invariant
                i <= map.len(),
                dict.wf(),
                dict.spec_is_changed() == (i > 0),
                dict@ == ValueModel::Dict(
                    entries_put_all(Seq::empty(), string_pairs(map@).subrange(0, i as int)),
                ),
            decreases map.len() - i,
        {
            let ghost so_far = string_pairs(map@).subrange(0, i as int);
            let ghost next = string_pairs(map@).subrange(0, i + 1);
            dict.put_node(map[i].0.clone(), Node::String(map[i].1.clone()));
            proof {
                assert(next.drop_last() =~= so_far);
                assert(next.last() == string_pairs(map@)[i as int]);
            }
            i += 1;
        }
        assert(string_pairs(map@).subrange(0, i as int) =~= string_pairs(map@));
        dict
    }

    /// A read-only handle to the dictionary.
    pub fn as_dict(&self) -> (r: Dict<'_>)
        ensures
            r@ == self@,
    {
        Dict::wrap(&self.entries, self)
    }

    /// The number of entries.
    pub fn count(&self) -> (n: u32)
        ensures
            n == count_of(self.spec_entries().len()),
    {
        self.as_dict().count()
    }

    /// True when the dictionary holds no entry.
    pub fn empty(&self) -> (r: bool)
        ensures
            r == (self.spec_entries().len() == 0),
    {
        self.as_dict().empty()
    }

    /// The value under `key`, or `Undefined` where the dictionary has no such
    /// key.
    pub fn get(&self, key: &str) -> (v: Value<'_>)
        requires
            self.wf(),
        ensures
            v@ == entries_get(self.spec_entries(), key@),
            v.wf(),
    {
        self.as_dict().get(key)
    }

    /// The value under the key that `key` holds; as `get`.
    pub fn get_key(&self, key: &mut DictKey) -> (v: Value<'_>)
        requires
            self.wf(),
        ensures
            v@ == entries_get(self.spec_entries(), old(key)@),
            v.wf(),
            *final(key) == *old(key),
    {
        self.as_dict().get_key(key)
    }

    /// A fresh iterator over the entries, in the order of their keys.
    pub fn iter(&self) -> (it: DictIterator<'_>)
        ensures
            it.entries() == self.spec_entries(),
            it.position() == 0,
    {
        self.as_dict().iter()
    }

    /// Collects what is left of an iterator into a new dictionary.
    pub fn from_iter(iter: DictIterator<'_>) -> (r: MutableDict)
        requires
            model_wf(ValueModel::Dict(iter.entries())),
        ensures
            r@ == ValueModel::Dict(entries_put_all(Seq::empty(), iter.remaining())),
            r.spec_is_changed() == (iter.remaining().len() > 0),
            r.wf(),
    {
        let mut iter = iter;
        let ghost start = iter.position();
        let ghost all = iter.entries();
        let mut dict = Self::new();
        proof {
            iter.lemma_bounds();
            assert(all.subrange(start as int, start as int) =~= Seq::empty());
        }
        loop
            invariant
                iter.entries() == all,
                model_wf(ValueModel::Dict(all)),
                start <= iter.position() <= all.len(),
                dict.wf(),
                dict.spec_is_changed() == (iter.position() > start),
                dict@ == ValueModel::Dict(
                    entries_put_all(
                        Seq::empty(),
                        all.subrange(start as int, iter.position() as int),
                    ),
                ),
            ensures
                iter.position() == all.len(),
            decreases all.len() - iter.position(),
        {
            let ghost pos = iter.position();
            proof {
                iter.lemma_bounds();
            }
            match iter.next() {
                Some((key, v)) => {
                    let node = match v.to_node() {
                        Some(n) => n,
                        None => Node::Null,
                    };
                    proof {
                        let so_far = all.subrange(start as int, pos as int);
                        let next = all.subrange(start as int, pos as int + 1);
                        assert(next.drop_last() =~= so_far);
                        assert(next.last() == all[pos as int]);
                        assert(node@ == all[pos as int].1);
                        assert(model_wf(all[pos as int].1));
                    }
                    dict.put_node(key, node);
                },
                None => {
                    break ;
                },
            }
        }
        assert(all.subrange(start as int, all.len() as int) =~= all.skip(start as int));
        dict
    }

    /// The dictionary as a tree.
    pub(crate) fn into_node(self) -> (n: Node)
        ensures
            n@ == self@,
    {
        let n = Node::Dict(self.entries);
        proof {
            lemma_container_view(n);
        }
        n
    }

    /// The dictionary that owns the entries of a tree; `None` for a tree that
    /// is no dictionary. It counts as unchanged.
    pub(crate) fn from_node(node: Node) -> (r: Option<MutableDict>)
        ensures
            node@ is Dict ==> (r matches Some(d) && d@ == node@ && !d.spec_is_changed()),
            !(node@ is Dict) ==> r is None,
    {
        proof {
            lemma_container_view(node);
        }
        match node {
            Node::Dict(entries) => Some(MutableDict { entries, changed: false }),
            _ => None,
        }
    }

    /// A copy of the dictionary that owns all it holds, changed or not as this
    /// one.
    pub fn duplicate(&self) -> (r: MutableDict)
        ensures
            r@ == self@,
            r.spec_is_changed() == self.spec_is_changed(),
    {
        MutableDict { entries: copy_entries(&self.entries), changed: self.changed }
    }
}

/// The string that a value counts as where only strings are wanted: the value
/// itself where it is a string, else the empty string.
pub open spec fn text_of(m: ValueModel) -> Seq<char> {
    match m {
        ValueModel::String(s) => s,
        _ => Seq::empty(),
    }
}

/// Pairs of strings as entries with string values.
pub open spec fn string_pairs(pairs: Seq<(String, String)>) -> Entries {
    Seq::new(pairs.len(), |i: int| (pairs[i].0@, ValueModel::String(pairs[i].1@)))
}

impl Default for MutableDict {
    fn default() -> (r: Self)
        ensures
            r@ == ValueModel::Dict(Seq::empty()),
            !r.spec_is_changed(),
            r.wf(),
    {
        MutableDict::new()
    }
}

impl Clone for MutableDict {
    fn clone(&self) -> (r: Self)
        ensures
            r@ == self@,
            r.spec_is_changed() == self.spec_is_changed(),
    {
        self.duplicate()
    }
}

impl FleeceReference for MutableDict {
    fn as_value(&self) -> (v: Value<'_>) {
        self.as_dict().as_value()
    }
}

impl PartialEq for MutableDict {
    fn eq(&self, other: &Self) -> (r: bool) {
        same_entries(&self.entries, &other.entries)
    }
}

impl PartialEqSpecImpl for MutableDict {
    open spec fn obeys_eq_spec() -> bool {
        true
    }

    open spec fn eq_spec(&self, other: &Self) -> bool {
        self@ == other@
    }
}

impl Eq for MutableDict {

}

impl<'a> Dict<'a> {
    /// A mutable copy of the dictionary; of the null dictionary, an empty one.
    pub fn mutable_copy(&self) -> (r: MutableDict)
        ensures
            r@ == ValueModel::Dict(model_entries(self@)),
            !r.spec_is_changed(),
            self.wf() ==> r.wf(),
    {
        MutableDict::from_dict(self)
    }
}


/// What storing `value` through the slot of item `index` makes of an array: the
/// item is replaced and the array counts as changed. A slot whose index is past
/// the end stores nothing.
pub open spec fn element_stored(
    before: MutableArray,
    after: MutableArray,
    index: int,
    value: ValueModel,
) -> bool {
    if 0 <= index < before.spec_items().len() {
        &&& after@ == ValueModel::Array(before.spec_items().update(index, value))
        &&& after.spec_is_changed()
    } else {
        after == before
    }
}

/// What storing `value` through the slot behind the last item makes of an
/// array: it is one item longer and counts as changed.
pub open spec fn end_stored(before: MutableArray, after: MutableArray, value: ValueModel) -> bool {
    &&& after@ == ValueModel::Array(before.spec_items().push(value))
    &&& after.spec_is_changed()
}

/// What storing `value` through the slot under `key` makes of a dictionary: the
/// key holds the value, every other key is as before, and the dictionary counts
/// as changed.
pub open spec fn entry_stored(
    before: MutableDict,
    after: MutableDict,
    key: Seq<char>,
    value: ValueModel,
) -> bool {
    &&& after@ == ValueModel::Dict(entries_put(before.spec_entries(), key, value))
    &&& after.spec_is_changed()
}

/// What is stored for a value: the value itself, and null for `Undefined`, which
/// no container holds.
pub open spec fn storable(value: ValueModel) -> ValueModel {
    if value == ValueModel::Undefined {
        ValueModel::Null
    } else {
        value
    }
}

impl<'s> Slot<'s> {
    /// The validity of the slot: that of the container it stores in.
    pub open spec fn wf(&self) -> bool {
        match self.target {
            SlotTarget::Element(a, _) => a.wf(),
            SlotTarget::End(a) => a.wf(),
            SlotTarget::Entry(d, _) => d.wf(),
        }
    }

    /// Stores `node` at the slot's place.
    fn store(self, node: Node)
        requires
            self.wf(),
        ensures
            self.target matches SlotTarget::Element(a, i) ==> element_stored(
                *a,
                *final(a),
                i as int,
                node@,
            ) && (node.wf() ==> final(a).wf()),
            self.target matches SlotTarget::End(a) ==> end_stored(*a, *final(a), node@) && (
            node.wf() ==> final(a).wf()),
            self.target matches SlotTarget::Entry(d, k) ==> entry_stored(*d, *final(d), k@, node@)
                && (node.wf() ==> final(d).wf()),
    {
        proof {
            lemma_container_view(node);
        }
        match self.target {
            SlotTarget::Element(a, i) => {
                let ghost before = a.spec_items();
                if i < a.items.len() {
                    a.items.set(i, node);
                    a.changed = true;
                    proof {
                        let after = before.update(i as int, node@);
                        assert(items_model(a.items@) =~= after);
                        if node.wf() {
                            assert forall|j: int| 0 <= j < after.len() implies #[trigger] after[j]
                                != ValueModel::Undefined && model_wf(after[j]) by {
                                if j != i {
                                    assert(after[j] == before[j]);
                                }
                            }
                        }
                    }
                }
            },
            SlotTarget::End(a) => {
                let ghost before = a.spec_items();
                a.items.push(node);
                a.changed = true;
                proof {
                    let after = before.push(node@);
                    assert(items_model(a.items@) =~= after);
                    if node.wf() {
                        assert forall|j: int| 0 <= j < after.len() implies #[trigger] after[j]
                            != ValueModel::Undefined && model_wf(after[j]) by {
                            if j < before.len() {
                                assert(after[j] == before[j]);
                            }
                        }
                    }
                }
            },
            SlotTarget::Entry(d, k) => {
                d.put_node(k, node);
            },
        }
    }

    /// Stores the null value.
    pub fn put_null(self)
        requires
            self.wf(),
        ensures
            self.target matches SlotTarget::Element(a, i) ==> element_stored(
                *a,
                *final(a),
                i as int,
                ValueModel::Null,
            ) && final(a).wf(),
            self.target matches SlotTarget::End(a) ==> end_stored(
                *a,
                *final(a),
                ValueModel::Null,
            ) && final(a).wf(),
            self.target matches SlotTarget::Entry(d, k) ==> entry_stored(
                *d,
                *final(d),
                k@,
                ValueModel::Null,
            ) && final(d).wf(),
    {
        self.store(Node::Null)
    }

    /// Stores a boolean.
    pub fn put_bool(self, value: bool)
        requires
            self.wf(),
        ensures
            self.target matches SlotTarget::Element(a, i) ==> element_stored(
                *a,
                *final(a),
                i as int,
                ValueModel::Bool(value),
            ) && final(a).wf(),
            self.target matches SlotTarget::End(a) ==> end_stored(
                *a,
                *final(a),
                ValueModel::Bool(value),
            ) && final(a).wf(),
            self.target matches SlotTarget::Entry(d, k) ==> entry_stored(
                *d,
                *final(d),
                k@,
                ValueModel::Bool(value),
            ) && final(d).wf(),
    {
        self.store(Node::Bool(value))
    }

    /// Stores an integer.
    pub fn put_i64(self, value: i64)
        requires
            self.wf(),
        ensures
            self.target matches SlotTarget::Element(a, i) ==> element_stored(
                *a,
                *final(a),
                i as int,
                ValueModel::Int(value as int),
            ) && final(a).wf(),
            self.target matches SlotTarget::End(a) ==> end_stored(
                *a,
                *final(a),
                ValueModel::Int(value as int),
            ) && final(a).wf(),
            self.target matches SlotTarget::Entry(d, k) ==> entry_stored(
                *d,
                *final(d),
                k@,
                ValueModel::Int(value as int),
            ) && final(d).wf(),
    {
        self.store(Node::Int(value))
    }

    /// Stores an unsigned integer.
    pub fn put_u64(self, value: u64)
        requires
            self.wf(),
        ensures
            self.target matches SlotTarget::Element(a, i) ==> element_stored(
                *a,
                *final(a),
                i as int,
                ValueModel::Int(value as int),
            ) && final(a).wf(),
            self.target matches SlotTarget::End(a) ==> end_stored(
                *a,
                *final(a),
                ValueModel::Int(value as int),
            ) && final(a).wf(),
            self.target matches SlotTarget::Entry(d, k) ==> entry_stored(
                *d,
                *final(d),
                k@,
                ValueModel::Int(value as int),
            ) && final(d).wf(),
    {
        self.store(Node::UInt(value))
    }

    /// Stores a string.
    pub fn put_string(self, value: &str)
        requires
            self.wf(),
        ensures
            self.target matches SlotTarget::Element(a, i) ==> element_stored(
                *a,
                *final(a),
                i as int,
                ValueModel::String(value@),
            ) && final(a).wf(),
            self.target matches SlotTarget::End(a) ==> end_stored(
                *a,
                *final(a),
                ValueModel::String(value@),
            ) && final(a).wf(),
            self.target matches SlotTarget::Entry(d, k) ==> entry_stored(
                *d,
                *final(d),
                k@,
                ValueModel::String(value@),
            ) && final(d).wf(),
    {
        self.store(Node::String(value.to_owned()))
    }

    /// Stores binary data.
    pub fn put_data(self, value: &[u8])
        requires
            self.wf(),
        ensures
            self.target matches SlotTarget::Element(a, i) ==> element_stored(
                *a,
                *final(a),
                i as int,
                ValueModel::Data(value@),
            ) && final(a).wf(),
            self.target matches SlotTarget::End(a) ==> end_stored(
                *a,
                *final(a),
                ValueModel::Data(value@),
            ) && final(a).wf(),
            self.target matches SlotTarget::Entry(d, k) ==> entry_stored(
                *d,
                *final(d),
                k@,
                ValueModel::Data(value@),
            ) && final(d).wf(),
    {
        self.store(Node::Data(vstd::slice::slice_to_vec(value)))
    }

    /// Stores a copy of the value that `value` stands for; null where that is
    /// `Undefined`.
    pub fn put_value<V: FleeceReference>(self, value: &V)
        requires
            self.wf(),
        ensures
            self.target matches SlotTarget::Element(a, i) ==> element_stored(
                *a,
                *final(a),
                i as int,
                storable(value@),
            ) && (model_wf(value@) ==> final(a).wf()),
            self.target matches SlotTarget::End(a) ==> end_stored(
                *a,
                *final(a),
                storable(value@),
            ) && (model_wf(value@) ==> final(a).wf()),
            self.target matches SlotTarget::Entry(d, k) ==> entry_stored(
                *d,
                *final(d),
                k@,
                storable(value@),
            ) && (model_wf(value@) ==> final(d).wf()),
    {
        let node = match value.as_value().to_node() {
            Some(n) => n,
            None => Node::Null,
        };
        self.store(node)
    }
}


impl<'s> Slot<'s> {
    /// Stores a number that is no integer of 64 bits, given as its text in
    /// decimal. A text that is no such number stores nothing, and `false` is
    /// returned.
    pub fn put_double_text(self, text: &str) -> (stored: bool)
        requires
            self.wf(),
        ensures
            stored == is_double_text(text@),
            stored ==> {
                &&& self.target matches SlotTarget::Element(a, i) ==> element_stored(
                    *a,
                    *final(a),
                    i as int,
                    ValueModel::Double(text@),
                ) && final(a).wf()
                &&& self.target matches SlotTarget::End(a) ==> end_stored(
                    *a,
                    *final(a),
                    ValueModel::Double(text@),
                ) && final(a).wf()
                &&& self.target matches SlotTarget::Entry(d, k) ==> entry_stored(
                    *d,
                    *final(d),
                    k@,
                    ValueModel::Double(text@),
                ) && final(d).wf()
            },
            !stored ==> {
                &&& self.target matches SlotTarget::Element(a, i) ==> *final(a) == *a
                &&& self.target matches SlotTarget::End(a) ==> *final(a) == *a
                &&& self.target matches SlotTarget::Entry(d, k) ==> *final(d) == *d
            },
    {
        let chars = chars_of(text);
        if is_double_chars(&chars) {
            self.store(Node::Double(text.to_owned()));
            true
        } else {
            false
        }
    }
}

/// What the typed accessors make of a value that was stored as an integer of 64
/// bits: `as_i64` gives the integer back, and the accessors of the other types
/// give nothing.
pub proof fn lemma_integer_is_read_as_stored(n: i64)
    ensures
        crate::fleece::model_as_i64(ValueModel::Int(n as int)) == Some(n),
        crate::fleece::model_as_bool(ValueModel::Int(n as int)) is None,
        crate::fleece::model_as_string(ValueModel::Int(n as int)) is None,
        crate::fleece::model_as_data(ValueModel::Int(n as int)) is None,
        n >= 0 ==> crate::fleece::model_as_u64(ValueModel::Int(n as int)) == Some(n as u64),
{
}

/// What the typed accessors make of a value that was stored as a boolean:
/// `as_bool` gives it back, and the accessors of the other types give nothing.
pub proof fn lemma_bool_is_read_as_stored(b: bool)
    ensures
        crate::fleece::model_as_bool(ValueModel::Bool(b)) == Some(b),
        crate::fleece::model_as_i64(ValueModel::Bool(b)) is None,
        crate::fleece::model_as_u64(ValueModel::Bool(b)) is None,
        crate::fleece::model_as_string(ValueModel::Bool(b)) is None,
        crate::fleece::model_as_data(ValueModel::Bool(b)) is None,
{
}

/// What the typed accessors make of a value that was stored as a string:
/// `as_string` gives it back, and the accessors of the other types give
/// nothing.
pub proof fn lemma_string_is_read_as_stored(s: Seq<char>)
    ensures
        crate::fleece::model_as_string(ValueModel::String(s)) == Some(s),
        crate::fleece::model_as_i64(ValueModel::String(s)) is None,
        crate::fleece::model_as_u64(ValueModel::String(s)) is None,
        crate::fleece::model_as_bool(ValueModel::String(s)) is None,
        crate::fleece::model_as_data(ValueModel::String(s)) is None,
{
}

/// What the typed accessors make of a value that was stored as binary data:
/// `as_data` gives it back, and the accessors of the other types give nothing.
pub proof fn lemma_data_is_read_as_stored(d: Seq<u8>)
    ensures
        crate::fleece::model_as_data(ValueModel::Data(d)) == Some(d),
        crate::fleece::model_as_i64(ValueModel::Data(d)) is None,
        crate::fleece::model_as_u64(ValueModel::Data(d)) is None,
        crate::fleece::model_as_bool(ValueModel::Data(d)) is None,
        crate::fleece::model_as_string(ValueModel::Data(d)) is None,
{
}

/// What the typed accessors make of null, and of the handle to no value: each
/// of them gives nothing.
pub proof fn lemma_nothing_is_read_from_null(m: ValueModel)
    requires
        m == ValueModel::Null || m == ValueModel::Undefined,
    ensures
        crate::fleece::model_as_i64(m) is None,
        crate::fleece::model_as_u64(m) is None,
        crate::fleece::model_as_bool(m) is None,
        crate::fleece::model_as_string(m) is None,
        crate::fleece::model_as_data(m) is None,
{
}

/// Collecting the items of an array, from the first, gives the same items back;
/// and collecting the entries of a dictionary gives the same entries back: the
/// same count, and the same value under every key.
pub proof fn lemma_collect_round_trip(items: Seq<ValueModel>, entries: Entries)
    requires
        entries_sorted(entries),
    ensures
        items.skip(0) == items,
        entries_put_all(Seq::empty(), entries.skip(0)) == entries,
        forall|key: Seq<char>|
            entries_get(entries_put_all(Seq::empty(), entries), key) == entries_get(entries, key),
{
    assert(items.skip(0) =~= items);
    assert(entries.skip(0) =~= entries);
    crate::fleece::lemma_collect_entries(entries);
}

} // verus!
