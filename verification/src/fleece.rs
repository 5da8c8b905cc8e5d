//! The value model: a tree of tagged values, and the read-only handles `Value`,
//! `Array` and `Dict` that borrow from the tree's owner.

use crate::number::{
    is_double_text, number_is_zero, scan_number, truncate_number, truncated_i64, truncated_u64,
};
use crate::text::{chars_of, chars_order, key_lt, KeyOrder};
use crate::text::{lemma_key_lt_irreflexive, lemma_key_lt_total, lemma_key_lt_transitive};
use vstd::prelude::*;
use vstd::std_specs::cmp::PartialEqSpecImpl;

verus! {

/// What a value is, as mathematics. A dictionary is the sequence of its entries
/// in the order of their keys; an integer is one number whether it was stored
/// signed or unsigned; a number that is no integer of 64 bits is its text in
/// decimal.
pub ghost enum ValueModel {
    Undefined,
    Null,
    Bool(bool),
    Int(int),
    Double(Seq<char>),
    String(Seq<char>),
    Data(Seq<u8>),
    Array(Seq<ValueModel>),
    Dict(Seq<(Seq<char>, ValueModel)>),
}

/// The entries of a dictionary, as mathematics.
pub type Entries = Seq<(Seq<char>, ValueModel)>;

/// The keys of `entries` are strictly increasing.
pub open spec fn entries_sorted(entries: Entries) -> bool {
    forall|i: int, j: int|
        0 <= i < j < entries.len() ==> key_lt((#[trigger] entries[i]).0, (#[trigger] entries[j]).0)
}

/// `i` is where `key` belongs in `entries`: every key before position `i` comes
/// before `key`, and no key from position `i` on does.
pub open spec fn is_rank(entries: Entries, key: Seq<char>, i: int) -> bool {
    &&& 0 <= i <= entries.len()
    &&& forall|j: int| 0 <= j < i ==> key_lt((#[trigger] entries[j]).0, key)
    &&& forall|j: int| i <= j < entries.len() ==> !key_lt((#[trigger] entries[j]).0, key)
}

/// The position at which `key` stands in `entries`, or would be put.
pub open spec fn entries_rank(entries: Entries, key: Seq<char>) -> int {
    choose|i: int| is_rank(entries, key, i)
}

/// True when `entries` holds `key`.
pub open spec fn entries_has(entries: Entries, key: Seq<char>) -> bool {
    let i = entries_rank(entries, key);
    i < entries.len() && entries[i].0 == key
}

/// The value under `key`, or `Undefined` when `entries` does not hold the key.
pub open spec fn entries_get(entries: Entries, key: Seq<char>) -> ValueModel {
    let i = entries_rank(entries, key);
    if i < entries.len() && entries[i].0 == key {
        entries[i].1
    } else {
        ValueModel::Undefined
    }
}

/// `entries` with `value` under `key`: in place of the old value where the key
/// was there, else as a new entry where the key belongs.
pub open spec fn entries_put(entries: Entries, key: Seq<char>, value: ValueModel) -> Entries {
    let i = entries_rank(entries, key);
    if i < entries.len() && entries[i].0 == key {
        entries.update(i, (key, value))
    } else {
        entries.insert(i, (key, value))
    }
}

/// `entries` without `key`.
pub open spec fn entries_remove(entries: Entries, key: Seq<char>) -> Entries {
    let i = entries_rank(entries, key);
    if i < entries.len() && entries[i].0 == key {
        entries.remove(i)
    } else {
        entries
    }
}

/// The validity of a value: an integer fits in 64 bits, signed or unsigned; a
/// number held as text is a number by the grammar of JSON and no such integer;
/// a dictionary's keys are strictly increasing; nothing inside a container is
/// `Undefined`; and all that holds of the values inside a container too.
pub open spec fn model_wf(m: ValueModel) -> bool
    decreases m,
{
    match m {
        ValueModel::Int(n) => i64::MIN <= n <= u64::MAX,
        ValueModel::Double(text) => is_double_text(text),
        ValueModel::Array(items) => forall|i: int|
            0 <= i < items.len() ==> #[trigger] items[i] != ValueModel::Undefined && model_wf(
                items[i],
            ),
        ValueModel::Dict(entries) => entries_sorted(entries) && forall|i: int|
            0 <= i < entries.len() ==> (#[trigger] entries[i]).1 != ValueModel::Undefined
                && model_wf(entries[i].1),
        _ => true,
    }
}

/// A position that meets `is_rank` is the rank.
pub proof fn lemma_rank_unique(entries: Entries, key: Seq<char>, i: int)
    requires
        is_rank(entries, key, i),
    ensures
        entries_rank(entries, key) == i,
{
    let r = entries_rank(entries, key);
    assert(is_rank(entries, key, r));
    if r < i {
        assert(key_lt(entries[r].0, key));
    } else if i < r {
        assert(key_lt(entries[i].0, key));
    }
}

/// In sorted entries every key has a rank.
pub proof fn lemma_rank_exists(entries: Entries, key: Seq<char>)
    requires
        entries_sorted(entries),
    ensures
        is_rank(entries, key, entries_rank(entries, key)),
    decreases entries.len(),
{
    if entries.len() == 0 {
        assert(is_rank(entries, key, 0));
    } else {
        let last = entries.len() - 1;
        if key_lt(entries[last].0, key) {
            assert forall|j: int| 0 <= j < entries.len() implies key_lt(
                (#[trigger] entries[j]).0,
                key,
            ) by {
                if j < last {
                    lemma_key_lt_transitive(entries[j].0, entries[last].0, key);
                }
            }
            assert(is_rank(entries, key, entries.len() as int));
        } else {
            let front = entries.drop_last();
            assert(entries_sorted(front)) by {
                assert forall|i: int, j: int| 0 <= i < j < front.len() implies key_lt(
                    (#[trigger] front[i]).0,
                    (#[trigger] front[j]).0,
                ) by {
                    assert(front[i] == entries[i] && front[j] == entries[j]);
                }
            }
            lemma_rank_exists(front, key);
            let r = entries_rank(front, key);
            assert(is_rank(entries, key, r)) by {
                assert forall|j: int| 0 <= j < r implies key_lt((#[trigger] entries[j]).0, key) by {
                    assert(front[j] == entries[j]);
                }
                assert forall|j: int| r <= j < entries.len() implies !key_lt(
                    (#[trigger] entries[j]).0,
                    key,
                ) by {
                    if j < last {
                        assert(front[j] == entries[j]);
                    }
                }
            }
        }
    }
}

/// In sorted entries the key at position `i` has rank `i`.
pub proof fn lemma_rank_of_present(entries: Entries, i: int)
    requires
        entries_sorted(entries),
        0 <= i < entries.len(),
    ensures
        entries_rank(entries, entries[i].0) == i,
        entries_has(entries, entries[i].0),
        entries_get(entries, entries[i].0) == entries[i].1,
{
    let key = entries[i].0;
    assert(is_rank(entries, key, i)) by {
        assert forall|j: int| i <= j < entries.len() implies !key_lt(
            (#[trigger] entries[j]).0,
            key,
        ) by {
            if j == i {
                lemma_key_lt_irreflexive(key);
            } else {
                lemma_key_lt_total(entries[j].0, key);
            }
        }
    }
    lemma_rank_unique(entries, key, i);
}

/// Putting a value under a key keeps the entries sorted.
proof fn lemma_put_sorted(entries: Entries, key: Seq<char>, value: ValueModel)
    requires
        entries_sorted(entries),
    ensures
        entries_sorted(entries_put(entries, key, value)),
        is_rank(entries, key, entries_rank(entries, key)),
        entries_put(entries, key, value)[entries_rank(entries, key)] == (key, value),
        0 <= entries_rank(entries, key) < entries_put(entries, key, value).len(),
{
    lemma_rank_exists(entries, key);
    let i = entries_rank(entries, key);
    let after = entries_put(entries, key, value);
    let replaced = i < entries.len() && entries[i].0 == key;
    assert forall|a: int, b: int| 0 <= a < b < after.len() implies key_lt(
        (#[trigger] after[a]).0,
        (#[trigger] after[b]).0,
    ) by {
        if replaced {
            assert(after[a].0 == entries[a].0 && after[b].0 == entries[b].0);
        } else {
            let pa = if a < i { a } else { a - 1 };
            let pb = if b < i { b } else { b - 1 };
            if a == i {
                assert(after[b] == entries[pb]);
                lemma_key_lt_total(entries[pb].0, key);
            } else if b == i {
                assert(after[a] == entries[pa]);
            } else {
                assert(after[a] == entries[pa] && after[b] == entries[pb]);
            }
        }
    }
}

/// Putting a value under a key leaves every other key as it was.
proof fn lemma_put_other(entries: Entries, key: Seq<char>, value: ValueModel, other: Seq<char>)
    requires
        entries_sorted(entries),
        other != key,
    ensures
        entries_get(entries_put(entries, key, value), other) == entries_get(entries, other),
        entries_has(entries_put(entries, key, value), other) == entries_has(entries, other),
{
    lemma_rank_exists(entries, key);
    lemma_rank_exists(entries, other);
    let i = entries_rank(entries, key);
    let r = entries_rank(entries, other);
    let after = entries_put(entries, key, value);
    let replaced = i < entries.len() && entries[i].0 == key;
    lemma_key_lt_total(key, other);
    if replaced {
        assert forall|j: int| 0 <= j < after.len() implies (#[trigger] after[j]).0
            == entries[j].0 by {}
        assert(is_rank(after, other, r)) by {
            assert forall|j: int| 0 <= j < r implies key_lt((#[trigger] after[j]).0, other) by {
                assert(after[j].0 == entries[j].0);
            }
            assert forall|j: int| r <= j < after.len() implies !key_lt(
                (#[trigger] after[j]).0,
                other,
            ) by {
                assert(after[j].0 == entries[j].0);
            }
        }
        lemma_rank_unique(after, other, r);
    } else {
        let r2 = if key_lt(key, other) { r + 1 } else { r };
        if key_lt(key, other) {
            if r < i {
                assert(key_lt(entries[r].0, key));
                lemma_key_lt_transitive(entries[r].0, key, other);
            }
            assert(i <= r);
        } else {
            if i < r {
                assert(key_lt(entries[i].0, other));
                lemma_key_lt_total(entries[i].0, key);
                lemma_key_lt_transitive(other, key, entries[i].0);
                lemma_key_lt_total(entries[i].0, other);
            }
            assert(r <= i);
        }
        assert forall|j: int| 0 <= j < after.len() implies #[trigger] after[j] == (if j < i {
            entries[j]
        } else if j == i {
            (key, value)
        } else {
            entries[j - 1]
        }) by {}
        assert(is_rank(after, other, r2)) by {
            assert forall|j: int| 0 <= j < r2 implies key_lt((#[trigger] after[j]).0, other) by {
                if j < i {
                    assert(key_lt(entries[j].0, other));
                } else if j > i {
                    assert(key_lt(entries[j - 1].0, other));
                }
            }
            assert forall|j: int| r2 <= j < after.len() implies !key_lt(
                (#[trigger] after[j]).0,
                other,
            ) by {
                if j < i {
                    assert(!key_lt(entries[j].0, other));
                } else if j > i {
                    assert(!key_lt(entries[j - 1].0, other));
                }
            }
        }
        lemma_rank_unique(after, other, r2);
    }
}

/// Putting a value under a key keeps the entries sorted, and afterwards the key
/// holds that value while every other key holds what it held.
pub proof fn lemma_put(entries: Entries, key: Seq<char>, value: ValueModel)
    requires
        entries_sorted(entries),
    ensures
        entries_sorted(entries_put(entries, key, value)),
        entries_get(entries_put(entries, key, value), key) == value,
        entries_has(entries_put(entries, key, value), key),
        forall|other: Seq<char>|
            other != key ==> entries_get(entries_put(entries, key, value), other) == entries_get(
                entries,
                other,
            ) && entries_has(entries_put(entries, key, value), other) == entries_has(
                entries,
                other,
            ),
        entries_put(entries, key, value).len() == entries.len() + (if entries_has(entries, key) {
            0int
        } else {
            1int
        }),
{
    lemma_put_sorted(entries, key, value);
    lemma_rank_of_present(entries_put(entries, key, value), entries_rank(entries, key));
    assert forall|other: Seq<char>| other != key implies entries_get(
        entries_put(entries, key, value),
        other,
    ) == entries_get(entries, other) && entries_has(entries_put(entries, key, value), other)
        == entries_has(entries, other) by {
        lemma_put_other(entries, key, value, other);
    }
}

/// Removing a key that is there keeps the entries sorted and takes the key out.
proof fn lemma_remove_sorted(entries: Entries, key: Seq<char>)
    requires
        entries_sorted(entries),
        entries_has(entries, key),
    ensures
        entries_sorted(entries_remove(entries, key)),
        !entries_has(entries_remove(entries, key), key),
{
    lemma_rank_exists(entries, key);
    let i = entries_rank(entries, key);
    let after = entries_remove(entries, key);
    assert forall|j: int| 0 <= j < after.len() implies #[trigger] after[j] == (if j < i {
        entries[j]
    } else {
        entries[j + 1]
    }) by {}
    assert forall|a: int, b: int| 0 <= a < b < after.len() implies key_lt(
        (#[trigger] after[a]).0,
        (#[trigger] after[b]).0,
    ) by {
        let pa = if a < i { a } else { a + 1 };
        let pb = if b < i { b } else { b + 1 };
        assert(key_lt(entries[pa].0, entries[pb].0));
    }
    assert(is_rank(after, key, i)) by {
        assert forall|j: int| 0 <= j < i implies key_lt((#[trigger] after[j]).0, key) by {
            assert(key_lt(entries[j].0, key));
        }
        assert forall|j: int| i <= j < after.len() implies !key_lt(
            (#[trigger] after[j]).0,
            key,
        ) by {
            assert(!key_lt(entries[j + 1].0, key));
        }
    }
    lemma_rank_unique(after, key, i);
    if i < after.len() {
        assert(key_lt(entries[i].0, entries[i + 1].0));
        lemma_key_lt_irreflexive(key);
    }
}

/// Removing a key that is there leaves every other key as it was.
proof fn lemma_remove_other(entries: Entries, key: Seq<char>, other: Seq<char>)
    requires
        entries_sorted(entries),
        entries_has(entries, key),
        other != key,
    ensures
        entries_get(entries_remove(entries, key), other) == entries_get(entries, other),
        entries_has(entries_remove(entries, key), other) == entries_has(entries, other),
{
    lemma_rank_exists(entries, key);
    lemma_rank_exists(entries, other);
    let i = entries_rank(entries, key);
    let r = entries_rank(entries, other);
    let after = entries_remove(entries, key);
    lemma_key_lt_total(key, other);
    let r2 = if key_lt(key, other) { r - 1 } else { r };
    if key_lt(key, other) {
        if r <= i {
            assert(!key_lt(entries[i].0, other));
        }
        assert(i < r);
    } else {
        if i < r {
            assert(key_lt(entries[i].0, other));
        }
        assert(r <= i);
    }
    assert forall|j: int| 0 <= j < after.len() implies #[trigger] after[j] == (if j < i {
        entries[j]
    } else {
        entries[j + 1]
    }) by {}
    assert(is_rank(after, other, r2)) by {
        assert forall|j: int| 0 <= j < r2 implies key_lt((#[trigger] after[j]).0, other) by {
            if j < i {
                assert(key_lt(entries[j].0, other));
            } else {
                assert(key_lt(entries[j + 1].0, other));
            }
        }
        assert forall|j: int| r2 <= j < after.len() implies !key_lt(
            (#[trigger] after[j]).0,
            other,
        ) by {
            if j < i {
                assert(!key_lt(entries[j].0, other));
            } else {
                assert(!key_lt(entries[j + 1].0, other));
            }
        }
    }
    lemma_rank_unique(after, other, r2);
}

/// Removing a key keeps the entries sorted, and afterwards the key is gone while
/// every other key holds what it held.
pub proof fn lemma_remove(entries: Entries, key: Seq<char>)
    requires
        entries_sorted(entries),
    ensures
        entries_sorted(entries_remove(entries, key)),
        !entries_has(entries_remove(entries, key), key),
        entries_get(entries_remove(entries, key), key) == ValueModel::Undefined,
        forall|other: Seq<char>|
            other != key ==> entries_get(entries_remove(entries, key), other) == entries_get(
                entries,
                other,
            ) && entries_has(entries_remove(entries, key), other) == entries_has(entries, other),
        entries_remove(entries, key).len() == entries.len() - (if entries_has(entries, key) {
            1int
        } else {
            0int
        }),
{
    lemma_rank_exists(entries, key);
    if entries_has(entries, key) {
        lemma_remove_sorted(entries, key);
        assert forall|other: Seq<char>| other != key implies entries_get(
            entries_remove(entries, key),
            other,
        ) == entries_get(entries, other) && entries_has(entries_remove(entries, key), other)
            == entries_has(entries, other) by {
            lemma_remove_other(entries, key, other);
        }
    }
}

/// What a valid dictionary holds under a key is valid.
pub proof fn lemma_get_wf(entries: Entries, key: Seq<char>)
    requires
        model_wf(ValueModel::Dict(entries)),
    ensures
        model_wf(entries_get(entries, key)),
{
    lemma_rank_exists(entries, key);
}

/// Putting a valid value into a valid dictionary leaves a valid dictionary.
pub proof fn lemma_put_wf(entries: Entries, key: Seq<char>, value: ValueModel)
    requires
        model_wf(ValueModel::Dict(entries)),
        model_wf(value),
        value != ValueModel::Undefined,
    ensures
        model_wf(ValueModel::Dict(entries_put(entries, key, value))),
{
    lemma_put_sorted(entries, key, value);
    let i = entries_rank(entries, key);
    let after = entries_put(entries, key, value);
    assert forall|j: int| 0 <= j < after.len() implies (#[trigger] after[j]).1
        != ValueModel::Undefined && model_wf(after[j].1) by {
        if i < entries.len() && entries[i].0 == key {
            if j != i {
                assert(after[j] == entries[j]);
            }
        } else {
            if j < i {
                assert(after[j] == entries[j]);
            } else if j > i {
                assert(after[j] == entries[j - 1]);
            }
        }
    }
}

/// Removing a key from a valid dictionary leaves a valid dictionary.
pub proof fn lemma_remove_wf(entries: Entries, key: Seq<char>)
    requires
        model_wf(ValueModel::Dict(entries)),
    ensures
        model_wf(ValueModel::Dict(entries_remove(entries, key))),
{
    lemma_rank_exists(entries, key);
    lemma_remove(entries, key);
    let i = entries_rank(entries, key);
    let after = entries_remove(entries, key);
    assert forall|j: int| 0 <= j < after.len() implies (#[trigger] after[j]).1
        != ValueModel::Undefined && model_wf(after[j].1) by {
        if i < entries.len() && entries[i].0 == key {
            if j < i {
                assert(after[j] == entries[j]);
            } else {
                assert(after[j] == entries[j + 1]);
            }
        }
    }
}

/// The entries that come of putting each pair of `pairs` in turn into `start`.
pub open spec fn entries_put_all(start: Entries, pairs: Entries) -> Entries
    decreases pairs.len(),
{
    if pairs.len() == 0 {
        start
    } else {
        let last = pairs.last();
        entries_put(entries_put_all(start, pairs.drop_last()), last.0, last.1)
    }
}

/// Collecting the entries of a dictionary, in their order, into an empty one
/// gives the same entries back.
pub proof fn lemma_collect_entries(entries: Entries)
    requires
        entries_sorted(entries),
    ensures
        entries_put_all(Seq::empty(), entries) == entries,
    decreases entries.len(),
{
    if entries.len() > 0 {
        let front = entries.drop_last();
        let last = entries.last();
        assert(entries_sorted(front)) by {
            assert forall|i: int, j: int| 0 <= i < j < front.len() implies key_lt(
                (#[trigger] front[i]).0,
                (#[trigger] front[j]).0,
            ) by {
                assert(front[i] == entries[i] && front[j] == entries[j]);
            }
        }
        lemma_collect_entries(front);
        assert(is_rank(front, last.0, front.len() as int)) by {
            assert forall|j: int| 0 <= j < front.len() implies key_lt(
                (#[trigger] front[j]).0,
                last.0,
            ) by {
                assert(front[j] == entries[j]);
                assert(last == entries[entries.len() - 1]);
            }
        }
        lemma_rank_unique(front, last.0, front.len() as int);
        assert(entries_put(front, last.0, last.1) =~= entries);
    } else {
        assert(entries =~= Seq::empty());
    }
}

/// The tree of values that a parsed document or a mutable container owns.
/// An integer that fits in `i64` is held as `Int`, a larger one as `UInt`, and
/// any other number as its text in decimal.
#[derive(Debug)]
pub enum Node {
    Null,
    Bool(bool),
    Int(i64),
    UInt(u64),
    Double(String),
    String(String),
    Data(Vec<u8>),
    Array(Vec<Node>),
    Dict(Vec<(String, Node)>),
}

/// What a tree is, as mathematics.
pub open spec fn node_model(n: Node) -> ValueModel
    decreases n,
{
    match n {
        Node::Null => ValueModel::Null,
        Node::Bool(b) => ValueModel::Bool(b),
        Node::Int(i) => ValueModel::Int(i as int),
        Node::UInt(u) => ValueModel::Int(u as int),
        Node::Double(s) => ValueModel::Double(s@),
        Node::String(s) => ValueModel::String(s@),
        Node::Data(d) => ValueModel::Data(d@),
        Node::Array(v) => ValueModel::Array(
            Seq::new(
                v@.len(),
                |i: int|
                    if 0 <= i < v@.len() {
                        node_model(v@[i])
                    } else {
                        ValueModel::Null
                    },
            ),
        ),
        Node::Dict(v) => ValueModel::Dict(
            Seq::new(
                v@.len(),
                |i: int|
                    if 0 <= i < v@.len() {
                        (v@[i].0@, node_model(v@[i].1))
                    } else {
                        (Seq::empty(), ValueModel::Null)
                    },
            ),
        ),
    }
}

impl View for Node {
    type V = ValueModel;

    open spec fn view(&self) -> ValueModel {
        node_model(*self)
    }
}

/// The models of the nodes of an array.
pub open spec fn items_model(s: Seq<Node>) -> Seq<ValueModel> {
    Seq::new(s.len(), |i: int| s[i]@)
}

/// The models of the entries of a dictionary.
pub open spec fn entries_model(s: Seq<(String, Node)>) -> Entries {
    Seq::new(s.len(), |i: int| (s[i].0@, s[i].1@))
}

/// The model of a container node is built from the models of what it holds.
pub proof fn lemma_container_view(n: Node)
    ensures
        n matches Node::Array(v) ==> n@ == ValueModel::Array(items_model(v@)),
        n matches Node::Dict(v) ==> n@ == ValueModel::Dict(entries_model(v@)),
        n@ != ValueModel::Undefined,
{
    match n {
        Node::Array(v) => {
            assert(n@->Array_0 =~= items_model(v@));
        },
        Node::Dict(v) => {
            let a = n@->Dict_0;
            let b = entries_model(v@);
            assert(a.len() == b.len());
            assert forall|i: int| 0 <= i < a.len() implies a[i] == b[i] by {
                assert(a[i].0 == v@[i].0@);
                assert(a[i].1 == v@[i].1@);
            }
            assert(a =~= b);
        },
        _ => {},
    }
}

/// The number that `as_i64_or_0` makes of a value: an integer as it is, one
/// above `i64::MAX` wrapped to its two's complement; a number held as text cut
/// off at the decimal point; `true` as 1; all else as 0.
pub open spec fn model_as_i64_or_0(m: ValueModel) -> i64 {
    match m {
        ValueModel::Double(text) => truncated_i64(text),
        ValueModel::Int(n) => if n > i64::MAX {
            (n - 0x1_0000_0000_0000_0000) as i64
        } else {
            n as i64
        },
        ValueModel::Bool(b) => if b {
            1i64
        } else {
            0i64
        },
        _ => 0i64,
    }
}

/// The number that `as_u64_or_0` makes of a value: an integer as it is, a
/// negative one wrapped to its two's complement; a number held as text cut off
/// at the decimal point; `true` as 1; all else as 0.
pub open spec fn model_as_u64_or_0(m: ValueModel) -> u64 {
    match m {
        ValueModel::Double(text) => truncated_u64(text),
        ValueModel::Int(n) => if n < 0 {
            (n + 0x1_0000_0000_0000_0000) as u64
        } else {
            n as u64
        },
        ValueModel::Bool(b) => if b {
            1u64
        } else {
            0u64
        },
        _ => 0u64,
    }
}

/// The integer that `as_i64` reads: that of an integer value, one above
/// `i64::MAX` wrapped; nothing of any other value.
pub open spec fn model_as_i64(m: ValueModel) -> Option<i64> {
    if m is Int {
        Some(model_as_i64_or_0(m))
    } else {
        None
    }
}

/// The integer that `as_u64` reads: that of an integer value, a negative one
/// wrapped; nothing of any other value.
pub open spec fn model_as_u64(m: ValueModel) -> Option<u64> {
    if m is Int {
        Some(model_as_u64_or_0(m))
    } else {
        None
    }
}

/// The boolean that `as_bool` reads: that of a boolean value; nothing of any
/// other value.
pub open spec fn model_as_bool(m: ValueModel) -> Option<bool> {
    match m {
        ValueModel::Bool(b) => Some(b),
        _ => None,
    }
}

/// The string that `as_string` reads: that of a string value; nothing of any
/// other value.
pub open spec fn model_as_string(m: ValueModel) -> Option<Seq<char>> {
    match m {
        ValueModel::String(s) => Some(s),
        _ => None,
    }
}

/// The bytes that `as_data` reads: those of binary data; nothing of any other
/// value.
pub open spec fn model_as_data(m: ValueModel) -> Option<Seq<u8>> {
    match m {
        ValueModel::Data(d) => Some(d),
        _ => None,
    }
}

/// The truth that `as_bool_or_false` makes of a value: a boolean as it is; a
/// number is true unless it is zero; undefined and null are false; every other
/// value is true.
pub open spec fn model_as_bool_or_false(m: ValueModel) -> bool {
    match m {
        ValueModel::Undefined => false,
        ValueModel::Null => false,
        ValueModel::Bool(b) => b,
        ValueModel::Int(n) => n != 0,
        ValueModel::Double(text) => !number_is_zero(text),
        _ => true,
    }
}

impl Node {
    /// The validity of the tree: that of its model.
    pub open spec fn wf(&self) -> bool {
        model_wf(self@)
    }

    /// A copy of the whole tree.
    #[verifier::loop_isolation(false)]
    pub fn deep_copy(&self) -> (r: Node)
        ensures
            r@ == self@,
        decreases self,
    {
        match self {
            Node::Null => Node::Null,
            Node::Bool(b) => Node::Bool(*b),
            Node::Int(n) => Node::Int(*n),
            Node::UInt(n) => Node::UInt(*n),
            Node::Double(s) => Node::Double(s.clone()),
            Node::String(s) => Node::String(s.clone()),
            Node::Data(d) => {
                let mut out: Vec<u8> = Vec::new();
                let mut i: usize = 0;
                while i < d.len()
                    invariant
                        i <= d.len(),
                        out@ == d@.subrange(0, i as int),
                    decreases d.len() - i,
                {
                    out.push(d[i]);
                    i += 1;
                }
                assert(out@ =~= d@);
                Node::Data(out)
            },
            Node::Array(items) => {
                let mut out: Vec<Node> = Vec::new();
                let mut i: usize = 0;
                while i < items.len()
                    invariant
                        i <= items.len(),
                        out@.len() == i,
                        forall|j: int| 0 <= j < i ==> out@[j]@ == items@[j]@,
                    decreases items.len() - i,
                {
                    let c = items[i].deep_copy();
                    out.push(c);
                    i += 1;
                }
                let r = Node::Array(out);
                proof {
                    lemma_container_view(r);
                    lemma_container_view(*self);
                    assert(items_model(out@) =~= items_model(items@));
                }
                r
            },
            Node::Dict(entries) => {
                let mut out: Vec<(String, Node)> = Vec::new();
                let mut i: usize = 0;
                while i < entries.len()
                    invariant
                        i <= entries.len(),
                        out@.len() == i,
                        forall|j: int|
                            0 <= j < i ==> out@[j].0@ == entries@[j].0@ && out@[j].1@
                                == entries@[j].1@,
                    decreases entries.len() - i,
                {
                    let c = entries[i].1.deep_copy();
                    out.push((entries[i].0.clone(), c));
                    i += 1;
                }
                let r = Node::Dict(out);
                proof {
                    lemma_container_view(r);
                    lemma_container_view(*self);
                    assert(entries_model(out@) =~= entries_model(entries@));
                }
                r
            },
        }
    }

    /// True when the two trees are the same value: a deep comparison.
    #[verifier::loop_isolation(false)]
    pub fn same(&self, other: &Node) -> (r: bool)
        ensures
            r == (self@ == other@),
        decreases self,
    {
        match (self, other) {
            (Node::Null, Node::Null) => true,
            (Node::Bool(a), Node::Bool(b)) => *a == *b,
            (Node::Int(a), Node::Int(b)) => *a == *b,
            (Node::UInt(a), Node::UInt(b)) => *a == *b,
            (Node::Int(a), Node::UInt(b)) => *a >= 0 && *a as u64 == *b,
            (Node::UInt(a), Node::Int(b)) => *b >= 0 && *b as u64 == *a,
            (Node::Double(a), Node::Double(b)) => *a == *b,
            (Node::String(a), Node::String(b)) => *a == *b,
            (Node::Data(a), Node::Data(b)) => {
                if a.len() != b.len() {
                    assert(a@.len() != b@.len());
                    return false;
                }
                let mut i: usize = 0;
                while i < a.len()
                    invariant
                        i <= a.len(),
                        a.len() == b.len(),
                        a@.subrange(0, i as int) == b@.subrange(0, i as int),
                    decreases a.len() - i,
                {
                    if a[i] != b[i] {
                        assert(a@[i as int] != b@[i as int]);
                        return false;
                    }
                    assert(a@.subrange(0, i + 1) =~= a@.subrange(0, i as int).push(a@[i as int]));
                    assert(b@.subrange(0, i + 1) =~= b@.subrange(0, i as int).push(b@[i as int]));
                    i += 1;
                }
                assert(a@ =~= a@.subrange(0, i as int));
                assert(b@ =~= b@.subrange(0, i as int));
                true
            },
            (Node::Array(a), Node::Array(b)) => {
                proof {
                    lemma_container_view(*self);
                    lemma_container_view(*other);
                }
                if a.len() != b.len() {
                    assert(items_model(a@).len() != items_model(b@).len());
                    return false;
                }
                let mut i: usize = 0;
                while i < a.len()
                    invariant
                        i <= a.len(),
                        a.len() == b.len(),
                        forall|j: int| 0 <= j < i ==> a@[j]@ == b@[j]@,
                    decreases a.len() - i,
                {
                    if !a[i].same(&b[i]) {
                        assert(items_model(a@)[i as int] != items_model(b@)[i as int]);
                        return false;
                    }
                    i += 1;
                }
                assert(items_model(a@) =~= items_model(b@));
                true
            },
            (Node::Dict(a), Node::Dict(b)) => {
                proof {
                    lemma_container_view(*self);
                    lemma_container_view(*other);
                }
                if a.len() != b.len() {
                    assert(entries_model(a@).len() != entries_model(b@).len());
                    return false;
                }
                let mut i: usize = 0;
                while i < a.len()
                    invariant
                        i <= a.len(),
                        a.len() == b.len(),
                        forall|j: int|
                            0 <= j < i ==> a@[j].0@ == b@[j].0@ && a@[j].1@ == b@[j].1@,
                    decreases a.len() - i,
                {
                    if a[i].0 != b[i].0 || !a[i].1.same(&b[i].1) {
                        assert(entries_model(a@)[i as int] != entries_model(b@)[i as int]);
                        return false;
                    }
                    i += 1;
                }
                assert(entries_model(a@) =~= entries_model(b@));
                true
            },
            _ => false,
        }
    }
}

/// Finds where `key` stands among sorted entries: its rank, and whether the
/// entry at that rank holds the key.
pub fn find_entry(entries: &Vec<(String, Node)>, key: &str) -> (r: (usize, bool))
    requires
        entries_sorted(entries_model(entries@)),
    ensures
        r.0 == entries_rank(entries_model(entries@), key@),
        r.0 <= entries.len(),
        r.1 == entries_has(entries_model(entries@), key@),
        r.1 ==> r.0 < entries.len() && entries@[r.0 as int].0@ == key@,
{
    let ghost model = entries_model(entries@);
    let wanted = chars_of(key);
    let mut i: usize = 0;
    while i < entries.len()
        invariant
            i <= entries.len(),
            model == entries_model(entries@),
            wanted@ == key@,
            entries_sorted(model),
            forall|j: int| 0 <= j < i ==> key_lt((#[trigger] model[j]).0, key@),
        decreases entries.len() - i,
    {
        let here = chars_of(entries[i].0.as_str());
        let order = chars_order(&here, &wanted);
        assert(model[i as int].0 == here@);
        proof {
            lemma_key_lt_total(here@, wanted@);
        }
        match order {
            KeyOrder::Before => {},
            _ => {
                proof {
                    assert(is_rank(model, key@, i as int)) by {
                        assert forall|j: int| i <= j < model.len() implies !key_lt(
                            (#[trigger] model[j]).0,
                            key@,
                        ) by {
                            if j > i {
                                lemma_key_lt_total(model[j].0, key@);
                                if key_lt(model[j].0, key@) {
                                    lemma_key_lt_transitive(model[i as int].0, model[j].0, key@);
                                }
                            }
                        }
                    }
                    lemma_rank_unique(model, key@, i as int);
                }
                return (i, order == KeyOrder::Same);
            },
        }
        i += 1;
    }
    proof {
        assert(is_rank(model, key@, i as int));
        lemma_rank_unique(model, key@, i as int);
    }
    (i, false)
}


/// The type of a value.
#[derive(Debug, Clone, Copy, PartialEq, Eq, Structural)]
pub enum ValueType {
    /// No such value (code -1).
    Undefined,
    /// The null value (code 0).
    Null,
    /// `true` or `false` (code 1).
    Bool,
    /// A number (code 2).
    Number,
    /// A string (code 3).
    String,
    /// Binary data (code 4).
    Data,
    /// An array of values (code 5).
    Array,
    /// A mapping of strings to values (code 6).
    Dict,
}

impl ValueType {
    /// The number that stands for this type in the encoding.
    pub open spec fn spec_code(&self) -> i32 {
        match self {
            ValueType::Undefined => -1i32,
            ValueType::Null => 0i32,
            ValueType::Bool => 1i32,
            ValueType::Number => 2i32,
            ValueType::String => 3i32,
            ValueType::Data => 4i32,
            ValueType::Array => 5i32,
            ValueType::Dict => 6i32,
        }
    }

    /// The number of this type.
    pub fn code(&self) -> (c: i32)
        ensures
            c == self.spec_code(),
    {
        match self {
            ValueType::Undefined => -1i32,
            ValueType::Null => 0i32,
            ValueType::Bool => 1i32,
            ValueType::Number => 2i32,
            ValueType::String => 3i32,
            ValueType::Data => 4i32,
            ValueType::Array => 5i32,
            ValueType::Dict => 6i32,
        }
    }

    /// Decodes a number: the type that carries it, or `None` for a number that
    /// no type carries.
    pub fn from_i32(n: i32) -> (r: Option<ValueType>)
        ensures
            r matches Some(t) ==> t.spec_code() == n,
            r is None ==> forall|t: ValueType| t.spec_code() != n,
            r is Some <==> -1 <= n <= 6,
    {
        match n {
            -1i32 => Some(ValueType::Undefined),
            0i32 => Some(ValueType::Null),
            1i32 => Some(ValueType::Bool),
            2i32 => Some(ValueType::Number),
            3i32 => Some(ValueType::String),
            4i32 => Some(ValueType::Data),
            5i32 => Some(ValueType::Array),
            6i32 => Some(ValueType::Dict),
            _ => None,
        }
    }
}

/// The type of a value, from its model.
pub open spec fn model_type(m: ValueModel) -> ValueType {
    match m {
        ValueModel::Undefined => ValueType::Undefined,
        ValueModel::Null => ValueType::Null,
        ValueModel::Bool(_) => ValueType::Bool,
        ValueModel::Int(_) => ValueType::Number,
        ValueModel::Double(_) => ValueType::Number,
        ValueModel::String(_) => ValueType::String,
        ValueModel::Data(_) => ValueType::Data,
        ValueModel::Array(_) => ValueType::Array,
        ValueModel::Dict(_) => ValueType::Dict,
    }
}

/// The items of an array value; none for any other value.
pub open spec fn model_items(m: ValueModel) -> Seq<ValueModel> {
    match m {
        ValueModel::Array(items) => items,
        _ => Seq::empty(),
    }
}

/// The entries of a dictionary value; none for any other value.
pub open spec fn model_entries(m: ValueModel) -> Entries {
    match m {
        ValueModel::Dict(entries) => entries,
        _ => Seq::empty(),
    }
}

/// The item at `index` of an array value, or `Undefined` where there is none.
pub open spec fn model_item(m: ValueModel, index: int) -> ValueModel {
    if 0 <= index < model_items(m).len() {
        model_items(m)[index]
    } else {
        ValueModel::Undefined
    }
}

/// A count as the 32-bit number that the encoding reports: saturated at
/// `u32::MAX`.
pub open spec fn count_of(len: nat) -> u32 {
    if len <= u32::MAX {
        len as u32
    } else {
        u32::MAX
    }
}

fn saturate(len: usize) -> (n: u32)
    ensures
        n == count_of(len as nat),
{
    if len <= u32::MAX as usize {
        len as u32
    } else {
        u32::MAX
    }
}

/// What a handle borrows: nothing, a tree, the items of an array, or the entries
/// of a dictionary.
#[derive(Debug, Clone, Copy)]
pub enum Borrowed<'a> {
    Nothing,
    Tree(&'a Node),
    Items(&'a Vec<Node>),
    Entries(&'a Vec<(String, Node)>),
}

impl<'a> View for Borrowed<'a> {
    type V = ValueModel;

    open spec fn view(&self) -> ValueModel {
        match self {
            Borrowed::Nothing => ValueModel::Undefined,
            Borrowed::Tree(n) => n@,
            Borrowed::Items(v) => ValueModel::Array(items_model(v@)),
            Borrowed::Entries(v) => ValueModel::Dict(entries_model(v@)),
        }
    }
}

/// A read-only handle to a value of any type, `Undefined` included. It borrows
/// from the value's owner and cannot outlive it.
#[derive(Debug, Clone, Copy)]
pub struct Value<'a> {
    pub(crate) inner: Borrowed<'a>,
}

impl<'a> View for Value<'a> {
    type V = ValueModel;

    closed spec fn view(&self) -> ValueModel {
        self.inner@
    }
}

/// A read-only handle to an array. The null array, which stands for "not an
/// array", has the model `Undefined`.
#[derive(Debug, Clone, Copy)]
pub struct Array<'a> {
    pub(crate) items: Option<&'a Vec<Node>>,
}

impl<'a> View for Array<'a> {
    type V = ValueModel;

    closed spec fn view(&self) -> ValueModel {
        match self.items {
            Some(v) => ValueModel::Array(items_model(v@)),
            None => ValueModel::Undefined,
        }
    }
}

/// A read-only handle to a dictionary. The null dictionary, which stands for
/// "not a dictionary", has the model `Undefined`.
#[derive(Debug, Clone, Copy)]
pub struct Dict<'a> {
    pub(crate) entries: Option<&'a Vec<(String, Node)>>,
}

impl<'a> View for Dict<'a> {
    type V = ValueModel;

    closed spec fn view(&self) -> ValueModel {
        match self.entries {
            Some(v) => ValueModel::Dict(entries_model(v@)),
            None => ValueModel::Undefined,
        }
    }
}

/// What `Value`, `Array`, `Dict` and the mutable containers have in common: each
/// stands for a value and can be read as one.
pub trait FleeceReference: View<V = ValueModel> {
    /// This reference as a `Value`.
    fn as_value(&self) -> (v: Value<'_>)
        ensures
            v@ == self@,
    ;
}

/// A copy of the nodes of an array.
pub fn copy_items(items: &Vec<Node>) -> (r: Vec<Node>)
    ensures
        items_model(r@) == items_model(items@),
{
    let mut out: Vec<Node> = Vec::new();
    let mut i: usize = 0;
    while i < items.len()
        invariant
            i <= items.len(),
            out@.len() == i,
            forall|j: int| 0 <= j < i ==> out@[j]@ == items@[j]@,
        decreases items.len() - i,
    {
        let c = items[i].deep_copy();
        out.push(c);
        i += 1;
    }
    assert(items_model(out@) =~= items_model(items@));
    out
}

/// A copy of the entries of a dictionary.
pub fn copy_entries(entries: &Vec<(String, Node)>) -> (r: Vec<(String, Node)>)
    ensures
        entries_model(r@) == entries_model(entries@),
{
    let mut out: Vec<(String, Node)> = Vec::new();
    let mut i: usize = 0;
    while i < entries.len()
        invariant
            i <= entries.len(),
            out@.len() == i,
            forall|j: int|
                0 <= j < i ==> out@[j].0@ == entries@[j].0@ && out@[j].1@ == entries@[j].1@,
        decreases entries.len() - i,
    {
        let c = entries[i].1.deep_copy();
        out.push((entries[i].0.clone(), c));
        i += 1;
    }
    assert(entries_model(out@) =~= entries_model(entries@));
    out
}

/// True when the two arrays hold the same values in the same order.
pub fn same_items(a: &Vec<Node>, b: &Vec<Node>) -> (r: bool)
    ensures
        r == (items_model(a@) == items_model(b@)),
{
    if a.len() != b.len() {
        assert(items_model(a@).len() != items_model(b@).len());
        return false;
    }
    let mut i: usize = 0;
    while i < a.len()
        invariant
            i <= a.len(),
            a.len() == b.len(),
            forall|j: int| 0 <= j < i ==> a@[j]@ == b@[j]@,
        decreases a.len() - i,
    {
        if !a[i].same(&b[i]) {
            assert(items_model(a@)[i as int] != items_model(b@)[i as int]);
            return false;
        }
        i += 1;
    }
    assert(items_model(a@) =~= items_model(b@));
    true
}

/// True when the two dictionaries hold the same keys with the same values.
pub fn same_entries(a: &Vec<(String, Node)>, b: &Vec<(String, Node)>) -> (r: bool)
    ensures
        r == (entries_model(a@) == entries_model(b@)),
{
    if a.len() != b.len() {
        assert(entries_model(a@).len() != entries_model(b@).len());
        return false;
    }
    let mut i: usize = 0;
    while i < a.len()
        invariant
            i <= a.len(),
            a.len() == b.len(),
            forall|j: int| 0 <= j < i ==> a@[j].0@ == b@[j].0@ && a@[j].1@ == b@[j].1@,
        decreases a.len() - i,
    {
        if a[i].0 != b[i].0 || !a[i].1.same(&b[i].1) {
            assert(entries_model(a@)[i as int] != entries_model(b@)[i as int]);
            return false;
        }
        i += 1;
    }
    assert(entries_model(a@) =~= entries_model(b@));
    true
}

impl<'a> Value<'a> {
    /// The validity of the value: that of its model.
    pub open spec fn wf(&self) -> bool {
        model_wf(self@)
    }

    /// The handle to no value.
    pub fn undefined() -> (v: Value<'a>)
        ensures
            v@ == ValueModel::Undefined,
    {
        Value { inner: Borrowed::Nothing }
    }

    /// The handle to a tree that `_owner` owns.
    pub(crate) fn wrap<T>(value: &'a Node, _owner: &T) -> (v: Value<'a>)
        ensures
            v@ == value@,
    {
        Value { inner: Borrowed::Tree(value) }
    }

    /// The handle to what `inner` borrows.
    pub(crate) fn of(inner: Borrowed<'a>) -> (v: Value<'a>)
        ensures
            v@ == inner@,
    {
        Value { inner }
    }

    /// What the handle borrows, with containers taken out of their tree.
    pub(crate) fn flat(&self) -> (r: Borrowed<'a>)
        ensures
            r@ == self@,
            r matches Borrowed::Tree(n) ==> !(n is Array) && !(n is Dict),
    {
        match self.inner {
            Borrowed::Tree(n) => {
                proof {
                    lemma_container_view(*n);
                }
                match n {
                    Node::Array(v) => Borrowed::Items(v),
                    Node::Dict(v) => Borrowed::Entries(v),
                    _ => Borrowed::Tree(n),
                }
            },
            other => other,
        }
    }

    /// A tree of its own that holds the value; `None` for `Undefined`.
    pub fn to_node(&self) -> (r: Option<Node>)
        ensures
            r matches Some(n) ==> n@ == self@,
            r is None <==> self@ == ValueModel::Undefined,
    {
        match self.inner {
            Borrowed::Nothing => None,
            Borrowed::Tree(n) => {
                proof {
                    lemma_container_view(*n);
                }
                Some(n.deep_copy())
            },
            Borrowed::Items(v) => {
                let r = Node::Array(copy_items(v));
                proof {
                    lemma_container_view(r);
                }
                Some(r)
            },
            Borrowed::Entries(v) => {
                let r = Node::Dict(copy_entries(v));
                proof {
                    lemma_container_view(r);
                }
                Some(r)
            },
        }
    }

    /// The type of the value.
    pub fn get_type(&self) -> (t: ValueType)
        ensures
            t == model_type(self@),
    {
        match self.flat() {
            Borrowed::Nothing => ValueType::Undefined,
            Borrowed::Items(_) => ValueType::Array,
            Borrowed::Entries(_) => ValueType::Dict,
            Borrowed::Tree(n) => match n {
                Node::Null => ValueType::Null,
                Node::Bool(_) => ValueType::Bool,
                Node::Int(_) => ValueType::Number,
                Node::UInt(_) => ValueType::Number,
                Node::Double(_) => ValueType::Number,
                Node::String(_) => ValueType::String,
                Node::Data(_) => ValueType::Data,
                Node::Array(_) => ValueType::Array,
                Node::Dict(_) => ValueType::Dict,
            },
        }
    }

    /// True when the value is of type `t`.
    pub fn is_type(&self, t: ValueType) -> (r: bool)
        ensures
            r == (model_type(self@) == t),
    {
        self.get_type() == t
    }

    /// True when the value is `Undefined`, the handle to no value.
    pub fn is_undefined(&self) -> (r: bool)
        ensures
            r == (self@ == ValueModel::Undefined),
    {
        self.is_type(ValueType::Undefined)
    }

    /// True when the value is a number.
    pub fn is_number(&self) -> (r: bool)
        ensures
            r == (self@ is Int || self@ is Double),
    {
        self.is_type(ValueType::Number)
    }

    /// True when the value is an integer.
    pub fn is_integer(&self) -> (r: bool)
        ensures
            r == (self@ is Int),
    {
        match self.flat() {
            Borrowed::Tree(Node::Int(_)) => true,
            Borrowed::Tree(Node::UInt(_)) => true,
            _ => false,
        }
    }

    /// True when the value is a number that is no integer of 64 bits.
    pub fn is_double(&self) -> (r: bool)
        ensures
            r == (self@ is Double),
    {
        match self.flat() {
            Borrowed::Tree(Node::Double(_)) => true,
            _ => false,
        }
    }

    /// The text of the number, in decimal, if the value is a number that is no
    /// integer of 64 bits.
    pub fn as_double_text(&self) -> (r: Option<&'a str>)
        ensures
            self@ matches ValueModel::Double(s) ==> r matches Some(t) && t@ == s,
            !(self@ is Double) ==> r is None,
    {
        match self.flat() {
            Borrowed::Tree(Node::Double(s)) => Some(s.as_str()),
            _ => None,
        }
    }

    /// True when the value is an integer above `i64::MAX`, which only an
    /// unsigned 64-bit number can hold.
    pub fn is_unsigned(&self) -> (r: bool)
        ensures
            r == (self@ matches ValueModel::Int(n) && n > i64::MAX),
    {
        match self.flat() {
            Borrowed::Tree(Node::UInt(u)) => *u > i64::MAX as u64,
            _ => false,
        }
    }

    /// The integer, if the value is one. An integer above `i64::MAX` comes out
    /// wrapped.
    pub fn as_i64(&self) -> (r: Option<i64>)
        ensures
            r == model_as_i64(self@),
            self@ matches ValueModel::Int(n) ==> (n <= i64::MAX ==> r == Some(n as i64)),
    {
        match self.flat() {
            Borrowed::Tree(Node::Int(n)) => Some(*n),
            Borrowed::Tree(Node::UInt(u)) => {
                if *u > i64::MAX as u64 {
                    let below: u64 = u64::MAX - *u;
                    Some(-(below as i64) - 1)
                } else {
                    Some(*u as i64)
                }
            },
            _ => None,
        }
    }

    /// The integer as an unsigned number, if the value is an integer. A
    /// negative integer comes out wrapped.
    pub fn as_u64(&self) -> (r: Option<u64>)
        ensures
            r == model_as_u64(self@),
            self@ matches ValueModel::Int(n) ==> (n >= 0 ==> r == Some(n as u64)),
    {
        match self.flat() {
            Borrowed::Tree(Node::Int(n)) => {
                if *n < 0 {
                    let above: i64 = -(*n + 1);
                    Some(u64::MAX - (above as u64))
                } else {
                    Some(*n as u64)
                }
            },
            Borrowed::Tree(Node::UInt(u)) => Some(*u),
            _ => None,
        }
    }

    /// The boolean, if the value is one.
    pub fn as_bool(&self) -> (r: Option<bool>)
        ensures
            r == model_as_bool(self@),
    {
        match self.flat() {
            Borrowed::Tree(Node::Bool(b)) => Some(*b),
            _ => None,
        }
    }

    /// The value coerced to an integer; 0 where it is no number or boolean.
    pub fn as_i64_or_0(&self) -> (r: i64)
        requires
            self.wf(),
        ensures
            r == model_as_i64_or_0(self@),
    {
        match self.flat() {
            Borrowed::Tree(Node::Double(s)) => {
                let v = chars_of(s.as_str());
                let (negative, whole) = truncate_number(&v);
                match whole {
                    Some(w) => if negative {
                        if w > 0x8000_0000_0000_0000 {
                            i64::MIN
                        } else if w == 0x8000_0000_0000_0000 {
                            i64::MIN
                        } else {
                            -(w as i64)
                        }
                    } else if w > i64::MAX as u64 {
                        i64::MAX
                    } else {
                        w as i64
                    },
                    None => if negative {
                        i64::MIN
                    } else {
                        i64::MAX
                    },
                }
            },
            Borrowed::Tree(Node::Int(n)) => *n,
            Borrowed::Tree(Node::UInt(u)) => {
                if *u > i64::MAX as u64 {
                    let below: u64 = u64::MAX - *u;
                    -(below as i64) - 1
                } else {
                    *u as i64
                }
            },
            Borrowed::Tree(Node::Bool(b)) => if *b {
                1
            } else {
                0
            },
            _ => 0,
        }
    }

    /// The value coerced to an unsigned integer; 0 where it is no number or
    /// boolean.
    pub fn as_u64_or_0(&self) -> (r: u64)
        requires
            self.wf(),
        ensures
            r == model_as_u64_or_0(self@),
    {
        match self.flat() {
            Borrowed::Tree(Node::Double(s)) => {
                let v = chars_of(s.as_str());
                let (negative, whole) = truncate_number(&v);
                if negative {
                    0
                } else {
                    match whole {
                        Some(w) => w,
                        None => u64::MAX,
                    }
                }
            },
            Borrowed::Tree(Node::Int(n)) => {
                if *n < 0 {
                    let above: i64 = -(*n + 1);
                    u64::MAX - (above as u64)
                } else {
                    *n as u64
                }
            },
            Borrowed::Tree(Node::UInt(u)) => *u,
            Borrowed::Tree(Node::Bool(b)) => if *b {
                1
            } else {
                0
            },
            _ => 0,
        }
    }

    /// The value coerced to a boolean: false for `Undefined`, null, `false` and
    /// zero, true for everything else.
    pub fn as_bool_or_false(&self) -> (r: bool)
        requires
            self.wf(),
        ensures
            r == model_as_bool_or_false(self@),
    {
        match self.flat() {
            Borrowed::Tree(Node::Double(s)) => {
                let v = chars_of(s.as_str());
                !crate::number::is_zero_number(&v)
            },
            Borrowed::Nothing => false,
            Borrowed::Tree(Node::Null) => false,
            Borrowed::Tree(Node::Bool(b)) => *b,
            Borrowed::Tree(Node::Int(n)) => *n != 0,
            Borrowed::Tree(Node::UInt(u)) => *u != 0,
            _ => true,
        }
    }

    /// The string, if the value is one.
    pub fn as_string(&self) -> (r: Option<&'a str>)
        ensures
            self@ matches ValueModel::String(s) ==> r matches Some(t) && t@ == s,
            !(self@ is String) ==> r is None,
            (match r {
                Some(t) => Some(t@),
                None => None,
            }) == model_as_string(self@),
    {
        match self.flat() {
            Borrowed::Tree(Node::String(s)) => Some(s.as_str()),
            _ => None,
        }
    }

    /// The bytes, if the value is binary data.
    pub fn as_data(&self) -> (r: Option<&'a [u8]>)
        ensures
            self@ matches ValueModel::Data(d) ==> r matches Some(t) && t@ == d,
            !(self@ is Data) ==> r is None,
            (match r {
                Some(t) => Some(t@),
                None => None,
            }) == model_as_data(self@),
    {
        match self.flat() {
            Borrowed::Tree(Node::Data(d)) => Some(d.as_slice()),
            _ => None,
        }
    }

    /// The value as an array; the null array where it is none.
    pub fn as_array(&self) -> (r: Array<'a>)
        ensures
            self@ is Array ==> r@ == self@,
            !(self@ is Array) ==> r@ == ValueModel::Undefined,
    {
        match self.flat() {
            Borrowed::Items(v) => Array { items: Some(v) },
            _ => Array { items: None },
        }
    }

    /// The value as a dictionary; the null dictionary where it is none.
    pub fn as_dict(&self) -> (r: Dict<'a>)
        ensures
            self@ is Dict ==> r@ == self@,
            !(self@ is Dict) ==> r@ == ValueModel::Undefined,
    {
        match self.flat() {
            Borrowed::Entries(v) => Dict { entries: Some(v) },
            _ => Dict { entries: None },
        }
    }

    /// True when the two handles stand for the same value: a deep comparison.
    pub fn same(&self, other: &Value<'_>) -> (r: bool)
        ensures
            r == (self@ == other@),
    {
        match (self.flat(), other.flat()) {
            (Borrowed::Nothing, Borrowed::Nothing) => true,
            (Borrowed::Tree(a), Borrowed::Tree(b)) => a.same(b),
            (Borrowed::Items(a), Borrowed::Items(b)) => same_items(a, b),
            (Borrowed::Entries(a), Borrowed::Entries(b)) => same_entries(a, b),
            (Borrowed::Tree(a), _) => {
                proof {
                    lemma_container_view(*a);
                }
                false
            },
            (_, Borrowed::Tree(b)) => {
                proof {
                    lemma_container_view(*b);
                }
                false
            },
            _ => false,
        }
    }
}

impl<'a> Default for Value<'a> {
    fn default() -> (v: Self)
        ensures
            v@ == ValueModel::Undefined,
    {
        Value { inner: Borrowed::Nothing }
    }
}

impl<'a> FleeceReference for Value<'a> {
    fn as_value(&self) -> (v: Value<'_>) {
        Value { inner: self.inner }
    }
}


impl<'a> PartialEq for Value<'a> {
    fn eq(&self, other: &Self) -> (r: bool) {
        self.same(other)
    }
}

impl<'a> PartialEqSpecImpl for Value<'a> {
    open spec fn obeys_eq_spec() -> bool {
        true
    }

    open spec fn eq_spec(&self, other: &Self) -> bool {
        self@ == other@
    }
}

impl<'a> Eq for Value<'a> {

}

impl<'a> Array<'a> {
    /// The validity of the array: that of its model.
    pub open spec fn wf(&self) -> bool {
        model_wf(self@)
    }

    /// The handle to the items of an array.
    pub(crate) fn wrap(array: &'a Vec<Node>) -> (r: Array<'a>)
        ensures
            r@ == ValueModel::Array(items_model(array@)),
    {
        Array { items: Some(array) }
    }

    /// The null array.
    pub fn null() -> (r: Array<'a>)
        ensures
            r@ == ValueModel::Undefined,
    {
        Array { items: None }
    }

    /// The array as a `Value`.
    pub fn as_value(&self) -> (v: Value<'a>)
        ensures
            v@ == self@,
    {
        match self.items {
            Some(items) => Value { inner: Borrowed::Items(items) },
            None => Value { inner: Borrowed::Nothing },
        }
    }

    /// True for the null array, which stands for "not an array".
    pub fn is_null(&self) -> (r: bool)
        ensures
            r == (self@ == ValueModel::Undefined),
            !r ==> self@ is Array,
    {
        self.items.is_none()
    }

    /// The number of items; 0 for the null array.
    pub fn count(&self) -> (n: u32)
        ensures
            n == count_of(model_items(self@).len()),
    {
        match self.items {
            Some(v) => saturate(v.len()),
            None => 0,
        }
    }

    /// True when the array holds no item; true for the null array.
    pub fn empty(&self) -> (r: bool)
        ensures
            r == (model_items(self@).len() == 0),
    {
        match self.items {
            Some(v) => v.len() == 0,
            None => true,
        }
    }

    /// The item at `index`, or `Undefined` where the array has none there.
    pub fn get(&self, index: u32) -> (v: Value<'a>)
        ensures
            v@ == model_item(self@, index as int),
            self.wf() ==> v.wf(),
    {
        match self.items {
            Some(items) => {
                if (index as usize) < items.len() {
                    Value { inner: Borrowed::Tree(&items[index as usize]) }
                } else {
                    Value { inner: Borrowed::Nothing }
                }
            },
            None => Value { inner: Borrowed::Nothing },
        }
    }

    /// A fresh iterator over the items, from the first.
    pub fn iter(&self) -> (it: ArrayIterator<'a>)
        ensures
            it.items() == model_items(self@),
            it.position() == 0,
    {
        ArrayIterator { items: self.items, pos: 0 }
    }

    /// True when the two arrays are the same value. The null array equals only
    /// the null array.
    pub fn same(&self, other: &Array<'_>) -> (r: bool)
        ensures
            r == (self@ == other@),
    {
        match (self.items, other.items) {
            (None, None) => true,
            (Some(a), Some(b)) => same_items(a, b),
            _ => false,
        }
    }
}

impl<'a> Default for Array<'a> {
    fn default() -> (r: Self)
        ensures
            r@ == ValueModel::Undefined,
    {
        Array { items: None }
    }
}

impl<'a> FleeceReference for Array<'a> {
    fn as_value(&self) -> (v: Value<'_>) {
        match self.items {
            Some(items) => Value { inner: Borrowed::Items(items) },
            None => Value { inner: Borrowed::Nothing },
        }
    }
}

impl<'a> PartialEq for Array<'a> {
    fn eq(&self, other: &Self) -> (r: bool) {
        self.same(other)
    }
}

impl<'a> PartialEqSpecImpl for Array<'a> {
    open spec fn obeys_eq_spec() -> bool {
        true
    }

    open spec fn eq_spec(&self, other: &Self) -> bool {
        self@ == other@
    }
}

impl<'a> Eq for Array<'a> {

}

/// A forward-only pass over the items of an array.
#[derive(Debug)]
pub struct ArrayIterator<'a> {
    pub(crate) items: Option<&'a Vec<Node>>,
    pub(crate) pos: usize,
}

impl<'a> ArrayIterator<'a> {
    /// All the items of the array that the iterator passes over.
    pub closed spec fn items(&self) -> Seq<ValueModel> {
        match self.items {
            Some(v) => items_model(v@),
            None => Seq::empty(),
        }
    }

    /// How many items the iterator has handed out.
    pub closed spec fn position(&self) -> nat {
        let total = match self.items {
            Some(v) => v@.len(),
            None => 0,
        };
        if self.pos <= total {
            self.pos as nat
        } else {
            total
        }
    }

    /// The items still to come.
    pub open spec fn remaining(&self) -> Seq<ValueModel> {
        self.items().skip(self.position() as int)
    }

    /// The position never passes the end, and no item is `Undefined`.
    pub proof fn lemma_bounds(&self)
        ensures
            self.position() <= self.items().len(),
            forall|i: int|
                0 <= i < self.items().len() ==> #[trigger] self.items()[i] != ValueModel::Undefined,
    {
        assert forall|i: int| 0 <= i < self.items().len() implies #[trigger] self.items()[i]
            != ValueModel::Undefined by {
            lemma_container_view(self.items->0@[i]);
        }
    }

    /// The total number of items, whatever the position.
    pub fn count(&self) -> (n: u32)
        ensures
            n == count_of(self.items().len()),
    {
        match self.items {
            Some(v) => saturate(v.len()),
            None => 0,
        }
    }

    /// The number of items still to come.
    pub fn len(&self) -> (n: usize)
        ensures
            n == self.items().len() - self.position(),
            n == self.remaining().len(),
    {
        match self.items {
            Some(v) => if self.pos <= v.len() {
                v.len() - self.pos
            } else {
                0
            },
            None => 0,
        }
    }

    /// The item `index` places after the next one, or `Undefined` where the
    /// array ends before it.
    pub fn get(&self, index: usize) -> (v: Value<'a>)
        ensures
            v@ == (if self.position() + index < self.items().len() {
                self.items()[self.position() + index]
            } else {
                ValueModel::Undefined
            }),
    {
        match self.items {
            Some(items) => {
                if self.pos < items.len() && index < items.len() - self.pos {
                    Value { inner: Borrowed::Tree(&items[self.pos + index]) }
                } else {
                    Value { inner: Borrowed::Nothing }
                }
            },
            None => Value { inner: Borrowed::Nothing },
        }
    }

    /// The next item, or `None` when all have been handed out.
    pub fn next(&mut self) -> (r: Option<Value<'a>>)
        ensures
            final(self).items() == old(self).items(),
            old(self).position() < old(self).items().len() ==> {
                &&& r matches Some(v) && v@ == old(self).items()[old(self).position() as int]
                &&& final(self).position() == old(self).position() + 1
            },
            old(self).position() >= old(self).items().len() ==> {
                &&& r is None
                &&& final(self).position() == old(self).position()
            },
    {
        match self.items {
            Some(items) => {
                if self.pos < items.len() {
                    let v = Value { inner: Borrowed::Tree(&items[self.pos]) };
                    self.pos = self.pos + 1;
                    Some(v)
                } else {
                    None
                }
            },
            None => None,
        }
    }
}

impl<'a> Dict<'a> {
    /// The validity of the dictionary: that of its model.
    pub open spec fn wf(&self) -> bool {
        model_wf(self@)
    }

    /// The handle to the entries of a dictionary.
    pub(crate) fn new(dict: &'a Vec<(String, Node)>) -> (r: Dict<'a>)
        ensures
            r@ == ValueModel::Dict(entries_model(dict@)),
    {
        Dict { entries: Some(dict) }
    }

    /// The handle to the entries of a dictionary that `_owner` owns.
    pub(crate) fn wrap<T>(dict: &'a Vec<(String, Node)>, _owner: &T) -> (r: Dict<'a>)
        ensures
            r@ == ValueModel::Dict(entries_model(dict@)),
    {
        Dict { entries: Some(dict) }
    }

    /// The null dictionary.
    pub fn null() -> (r: Dict<'a>)
        ensures
            r@ == ValueModel::Undefined,
    {
        Dict { entries: None }
    }

    /// True for the null dictionary, which stands for "not a dictionary".
    pub fn is_null(&self) -> (r: bool)
        ensures
            r == (self@ == ValueModel::Undefined),
            !r ==> self@ is Dict,
    {
        self.entries.is_none()
    }

    /// The dictionary as a `Value`.
    pub fn as_value(&self) -> (v: Value<'a>)
        ensures
            v@ == self@,
    {
        match self.entries {
            Some(entries) => Value { inner: Borrowed::Entries(entries) },
            None => Value { inner: Borrowed::Nothing },
        }
    }

    /// The number of entries; 0 for the null dictionary.
    pub fn count(&self) -> (n: u32)
        ensures
            n == count_of(model_entries(self@).len()),
    {
        match self.entries {
            Some(v) => saturate(v.len()),
            None => 0,
        }
    }

    /// True when the dictionary holds no entry; true for the null dictionary.
    pub fn empty(&self) -> (r: bool)
        ensures
            r == (model_entries(self@).len() == 0),
    {
        match self.entries {
            Some(v) => v.len() == 0,
            None => true,
        }
    }

    /// The value under `key`, or `Undefined` where the dictionary has no such
    /// key.
    pub fn get(&self, key: &str) -> (v: Value<'a>)
        requires
            self.wf(),
        ensures
            v@ == entries_get(model_entries(self@), key@),
            v.wf(),
    {
        proof {
            if self@ is Dict {
                lemma_get_wf(model_entries(self@), key@);
            }
        }
        match self.entries {
            Some(entries) => {
                let (i, found) = find_entry(entries, key);
                if found {
                    Value { inner: Borrowed::Tree(&entries[i].1) }
                } else {
                    Value { inner: Borrowed::Nothing }
                }
            },
            None => {
                proof {
                    let none: Entries = Seq::empty();
                    assert(is_rank(none, key@, 0));
                    lemma_rank_unique(none, key@, 0);
                }
                Value { inner: Borrowed::Nothing }
            },
        }
    }

    /// The value under the key that `key` holds; as `get`.
    pub fn get_key(&self, key: &mut DictKey) -> (v: Value<'a>)
        requires
            self.wf(),
        ensures
            v@ == entries_get(model_entries(self@), old(key)@),
            v.wf(),
            *final(key) == *old(key),
    {
        self.get(key.text.as_str())
    }

    /// A fresh iterator over the entries, in the order of their keys.
    pub fn iter(&self) -> (it: DictIterator<'a>)
        ensures
            it.entries() == model_entries(self@),
            it.position() == 0,
    {
        DictIterator { entries: self.entries, pos: 0 }
    }

    /// The keys of the dictionary, in their order: strictly increasing, so that
    /// none occurs twice.
    pub fn to_keys_hash_set(&self) -> (keys: Vec<String>)
        ensures
            keys@.len() == model_entries(self@).len(),
            forall|i: int| 0 <= i < keys@.len() ==> (#[trigger] keys@[i])@ == model_entries(self@)[i].0,
    {
        let mut keys: Vec<String> = Vec::new();
        match self.entries {
            Some(entries) => {
                let mut i: usize = 0;
                while i < entries.len()
                    invariant
                        i <= entries.len(),
                        keys@.len() == i,
                        forall|j: int| 0 <= j < i ==> (#[trigger] keys@[j])@ == entries@[j].0@,
                    decreases entries.len() - i,
                {
                    keys.push(entries[i].0.clone());
                    i += 1;
                }
            },
            None => {},
        }
        keys
    }

    /// True when the two dictionaries are the same value. The null dictionary
    /// equals only the null dictionary.
    pub fn same(&self, other: &Dict<'_>) -> (r: bool)
        ensures
            r == (self@ == other@),
    {
        match (self.entries, other.entries) {
            (None, None) => true,
            (Some(a), Some(b)) => same_entries(a, b),
            _ => false,
        }
    }
}

impl<'a> Default for Dict<'a> {
    fn default() -> (r: Self)
        ensures
            r@ == ValueModel::Undefined,
    {
        Dict { entries: None }
    }
}

impl<'a> FleeceReference for Dict<'a> {
    fn as_value(&self) -> (v: Value<'_>) {
        match self.entries {
            Some(entries) => Value { inner: Borrowed::Entries(entries) },
            None => Value { inner: Borrowed::Nothing },
        }
    }
}

impl<'a> PartialEq for Dict<'a> {
    fn eq(&self, other: &Self) -> (r: bool) {
        self.same(other)
    }
}

impl<'a> PartialEqSpecImpl for Dict<'a> {
    open spec fn obeys_eq_spec() -> bool {
        true
    }

    open spec fn eq_spec(&self, other: &Self) -> bool {
        self@ == other@
    }
}

impl<'a> Eq for Dict<'a> {

}

/// A key prepared for looking up in dictionaries.
#[derive(Debug)]
pub struct DictKey {
    pub(crate) text: String,
}

impl View for DictKey {
    type V = Seq<char>;

    closed spec fn view(&self) -> Seq<char> {
        self.text@
    }
}

impl DictKey {
    /// Prepares `key`.
    pub fn new(key: &str) -> (k: DictKey)
        ensures
            k@ == key@,
    {
        DictKey { text: key.to_owned() }
    }

    /// The key as a string.
    pub fn string(&self) -> (s: &str)
        ensures
            s@ == self@,
    {
        self.text.as_str()
    }
}

/// A forward-only pass over the entries of a dictionary, in the order of their
/// keys.
#[derive(Debug)]
pub struct DictIterator<'a> {
    pub(crate) entries: Option<&'a Vec<(String, Node)>>,
    pub(crate) pos: usize,
}

impl<'a> DictIterator<'a> {
    /// All the entries of the dictionary that the iterator passes over.
    pub closed spec fn entries(&self) -> Entries {
        match self.entries {
            Some(v) => entries_model(v@),
            None => Seq::empty(),
        }
    }

    /// How many entries the iterator has handed out.
    pub closed spec fn position(&self) -> nat {
        let total = match self.entries {
            Some(v) => v@.len(),
            None => 0,
        };
        if self.pos <= total {
            self.pos as nat
        } else {
            total
        }
    }

    /// The entries still to come.
    pub open spec fn remaining(&self) -> Entries {
        self.entries().skip(self.position() as int)
    }

    /// The position never passes the end, and no value is `Undefined`.
    pub proof fn lemma_bounds(&self)
        ensures
            self.position() <= self.entries().len(),
            forall|i: int|
                0 <= i < self.entries().len() ==> (#[trigger] self.entries()[i]).1
                    != ValueModel::Undefined,
    {
        assert forall|i: int| 0 <= i < self.entries().len() implies (#[trigger] self.entries()[i]).1
            != ValueModel::Undefined by {
            lemma_container_view(self.entries->0@[i].1);
        }
    }

    /// The total number of entries, whatever the position.
    pub fn count(&self) -> (n: u32)
        ensures
            n == count_of(self.entries().len()),
    {
        match self.entries {
            Some(v) => saturate(v.len()),
            None => 0,
        }
    }

    /// The number of entries still to come.
    pub fn len(&self) -> (n: usize)
        ensures
            n == self.entries().len() - self.position(),
            n == self.remaining().len(),
    {
        match self.entries {
            Some(v) => if self.pos <= v.len() {
                v.len() - self.pos
            } else {
                0
            },
            None => 0,
        }
    }

    /// The next entry, or `None` when all have been handed out.
    pub fn next(&mut self) -> (r: Option<(String, Value<'a>)>)
        ensures
            final(self).entries() == old(self).entries(),
            old(self).position() < old(self).entries().len() ==> {
                &&& r matches Some(e) && (e.0@, e.1@) == old(self).entries()[old(self).position() as int]
                &&& final(self).position() == old(self).position() + 1
            },
            old(self).position() >= old(self).entries().len() ==> {
                &&& r is None
                &&& final(self).position() == old(self).position()
            },
    {
        match self.entries {
            Some(entries) => {
                if self.pos < entries.len() {
                    let key = entries[self.pos].0.clone();
                    let v = Value { inner: Borrowed::Tree(&entries[self.pos].1) };
                    self.pos = self.pos + 1;
                    Some((key, v))
                } else {
                    None
                }
            },
            None => None,
        }
    }
}

/// How far a buffer of encoded data is trusted.
#[derive(Debug, Clone, Copy, PartialEq, Eq, Structural)]
pub enum Trust {
    /// Data from outside: to be validated in full.
    Untrusted,
    /// Data that this library produced itself.
    Trusted,
}

} // verus!
