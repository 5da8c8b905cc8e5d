// The value model: handles, mutable containers, iterators.

use couchbase_lite::{ArrayIterator, DictIterator, Fleece, MutableArray, MutableDict, Value, ValueType};
use std::collections::{HashMap, HashSet};

#[test]
fn empty_values() {
    let v = Value::default();
    assert_eq!(v.get_type(), ValueType::Undefined);
    assert!(!v.is_type(ValueType::Bool));
    assert!(!v.is_number());
    assert!(!v.is_integer());
    assert_eq!(v.as_i64(), None);
    assert!(v.as_array().is_null());
    assert!(v.as_dict().is_null());
    assert!(v.is_undefined());
    assert_eq!(v, Value::undefined());
    assert!(v == v);
}

#[test]
fn basic_values() {
    let doc = Fleece::parse_json(r#"{"i":1234,"f":12.34,"a":[1, 2],"s":"Foo"}"#).unwrap();
    let dict = doc.as_dict();
    assert_eq!(dict.count(), 4);

    let i = dict.get("i");
    assert!(i.is_number());
    assert!(i.is_integer());
    assert_eq!(i.as_i64(), Some(1234));
    assert_eq!(i.as_i64_or_0(), 1234);
    assert_eq!(i.as_i64().map(|n| n as f64), Some(1234.0));
    assert_eq!(i.as_string(), None);

    let f = dict.get("f");
    assert!(f.is_number());
    assert!(!f.is_integer());
    assert_eq!(f.as_i64(), None);
    assert_eq!(f.as_i64_or_0(), 12);
    assert_eq!(f.as_double_text().map(|t| t.parse::<f64>().unwrap()), Some(12.34));
    assert_eq!(f.as_string(), None);

    assert_eq!(dict.get("j"), Value::undefined());

    assert_eq!(dict.get("s").as_string(), Some("Foo"));

    let a = dict.get("a").as_array();
    assert!(!a.is_null());
    assert_eq!(a, a);
    assert_eq!(a.count(), 2);
    assert_eq!(a.get(0).as_i64(), Some(1));
    assert_eq!(a.get(1).as_i64(), Some(2));
    assert_eq!(a.get(2).as_i64(), None);

    assert_eq!(
        doc.root().to_json(),
        r#"{"a":[1,2],"f":12.34,"i":1234,"s":"Foo"}"#
    );
    assert_eq!(
        format!("{}", doc.root().to_json()),
        r#"{"a":[1,2],"f":12.34,"i":1234,"s":"Foo"}"#
    );
}

#[test]
fn nested_borrow_check() {
    let v: Value;
    let mut str = String::new();

    let doc = Fleece::parse_json(r#"{"i":1234,"f":12.34,"a":[1, 2],"s":"Foo"}"#).unwrap();
    {
        let dict = doc.as_dict();
        str.push_str(dict.get("s").as_string().unwrap());
        v = dict.get("a");
    }
    // It's OK that `dict` has gone out of scope, because `v`s scope is `doc`, not `dict`.
    println!("v = {:?}", v);
    println!("str = {}", str);
}

#[test]
fn dict_to_hash_set() {
    let mut mut_dict = MutableDict::new();

    mut_dict.at("id1").put_bool(true);
    mut_dict.at("id2").put_bool(true);

    let dict = mut_dict.as_dict();

    let hash_set: HashSet<String> = dict.to_keys_hash_set().into_iter().collect();

    assert_eq!(hash_set.len(), 2);
    assert_eq!(hash_set.get("id1"), Some(&"id1".to_string()));
    assert_eq!(hash_set.get("id2"), Some(&"id2".to_string()));
}

#[test]
fn mutable_dict() {
    let mut dict = MutableDict::new();
    assert_eq!(dict.count(), 0);
    assert_eq!(dict.get("a"), Value::undefined());

    dict.at("i").put_i64(1234);
    dict.at("s").put_string("Hello World!");

    assert_eq!(format!("{}", dict.to_json()), r#"{"i":1234,"s":"Hello World!"}"#);

    assert_eq!(dict.count(), 2);
    assert_eq!(dict.get("i").as_i64(), Some(1234));
    assert_eq!(dict.get("s").as_string(), Some("Hello World!"));
    assert!(dict.get("?").is_undefined());

    dict.remove("i");
    assert!(dict.get("i").is_undefined());
}

#[test]
fn mutable_dict_to_from_hash_map() {
    let mut dict = MutableDict::new();

    dict.at("id1").put_string("value1");
    dict.at("id2").put_string("value2");

    let pairs = dict.to_hashmap();
    let hash_map: HashMap<String, String> = pairs.iter().cloned().collect();
    assert_eq!(hash_map.len(), 2);
    assert_eq!(hash_map.get("id1"), Some(&"value1".to_string()));
    assert_eq!(hash_map.get("id2"), Some(&"value2".to_string()));

    let new_dict = MutableDict::from_hashmap(&pairs);
    assert_eq!(new_dict.count(), 2);
    assert_eq!(new_dict.get("id1").as_string(), Some("value1"));
    assert_eq!(new_dict.get("id2").as_string(), Some("value2"));
}

// The total count stays whatever has been handed out; the length is what is
// still to come.
#[test]
fn dict_exact_size_iterator() {
    let mut mut_dict = MutableDict::new();
    mut_dict.at("1").put_string("value1");
    mut_dict.at("2").put_string("value2");
    let dict = mut_dict.as_dict();
    let mut dict_iter = dict.iter();
    dict_iter.next();
    assert_eq!(DictIterator::count(&dict_iter), 2);
    assert_eq!(dict_iter.len(), 1);
}

#[test]
fn dict_from_iterator() {
    let parsed = Fleece::parse_json(r#"{"1": "value1","f":12.34}"#).unwrap();
    let dict: MutableDict = MutableDict::from_iter(parsed.as_dict().iter());

    assert_eq!(dict.count(), 2);
    assert_eq!(dict.get("1").as_string(), Some("value1"));

    let mut mut_dict = MutableDict::new();
    mut_dict.at("1").put_string("value1");
    mut_dict.at("2").put_string("value2");

    let dict: MutableDict = MutableDict::from_iter(mut_dict.as_dict().iter());
    assert_eq!(dict.count(), 2);
    assert_eq!(dict.get("1").as_string(), Some("value1"));
}

#[test]
fn array_at() {
    let mut mut_arr = MutableArray::new();
    assert!(mut_arr.at(0).is_none());
    mut_arr.append().put_string("value1");
    assert!(mut_arr.at(0).is_some());
}

#[test]
fn array_exact_size_iterator() {
    let mut mut_arr = MutableArray::new();
    mut_arr.append().put_string("value1");
    mut_arr.append().put_string("value2");
    let arr = mut_arr.as_array();
    let mut arr_iter = arr.iter();
    arr_iter.next();
    assert_eq!(ArrayIterator::count(&arr_iter), 2);
    assert_eq!(arr_iter.len(), 1);
}

#[test]
fn array_from_iterator() {
    let parsed = Fleece::parse_json(r#"["value1","value2"]"#).unwrap();
    let arr: MutableArray = MutableArray::from_iter(parsed.as_array().iter());

    assert_eq!(arr.count(), 2);
    assert_eq!(arr.get(0).as_string(), Some("value1"));

    let mut mut_arr = MutableArray::new();
    mut_arr.append().put_string("value1");
    mut_arr.append().put_string("value2");

    let arr: MutableArray = MutableArray::from_iter(mut_arr.as_array().iter());
    assert_eq!(arr.count(), 2);
    assert_eq!(arr.get(0).as_string(), Some("value1"));
}

#[test]
fn typed_accessors_read_what_was_stored() {
    let mut d = MutableDict::new();
    d.at("int").put_i64(-7);
    d.at("uint").put_u64(u64::MAX);
    d.at("bool").put_bool(true);
    d.at("text").put_string("hi");
    d.at("bytes").put_data(&[1, 2, 3]);
    d.at("null").put_null();
    assert!(d.at("real").put_double_text("1.5"));

    let int = d.get("int");
    assert_eq!(int.as_i64(), Some(-7));
    assert_eq!(int.as_u64(), Some(u64::MAX - 6));
    assert_eq!(int.as_bool(), None);
    assert_eq!(int.as_string(), None);
    assert_eq!(int.as_data(), None);
    assert!(int.as_bool_or_false());

    let uint = d.get("uint");
    assert_eq!(uint.as_u64(), Some(u64::MAX));
    assert_eq!(uint.as_i64(), Some(-1));
    assert!(uint.is_unsigned());

    let b = d.get("bool");
    assert_eq!(b.as_bool(), Some(true));
    assert_eq!(b.as_i64(), None);
    assert_eq!(b.as_i64_or_0(), 1);
    assert_eq!(b.as_u64_or_0(), 1);

    let text = d.get("text");
    assert_eq!(text.as_string(), Some("hi"));
    assert_eq!(text.as_i64(), None);
    assert_eq!(text.as_i64_or_0(), 0);
    assert!(text.as_bool_or_false());

    let bytes = d.get("bytes");
    assert_eq!(bytes.as_data(), Some(&[1u8, 2, 3][..]));
    assert_eq!(bytes.as_string(), None);

    let null = d.get("null");
    assert_eq!(null.get_type(), ValueType::Null);
    assert_eq!(null.as_i64(), None);
    assert!(!null.as_bool_or_false());

    let real = d.get("real");
    assert!(real.is_double());
    assert_eq!(real.as_i64(), None);
    assert_eq!(real.as_i64_or_0(), 1);
    assert_eq!(real.as_double_text(), Some("1.5"));

    let missing = d.get("missing");
    assert!(missing.is_undefined());
    assert_eq!(missing.as_i64_or_0(), 0);
    assert!(!missing.as_bool_or_false());
}

#[test]
fn double_text_is_checked() {
    let mut a = MutableArray::new();
    for bad in ["", "abc", "1", "-5", "1.", ".5", "1e", "NaN", "inf", "0x10", "1.5 "] {
        assert!(!a.append().put_double_text(bad), "{}", bad);
    }
    assert_eq!(a.count(), 0);
    assert!(!a.is_changed());
    for good in ["1.0", "-0.5", "1e10", "2E-3", "99999999999999999999", "-9223372036854775809"] {
        assert!(a.append().put_double_text(good), "{}", good);
    }
    assert_eq!(a.count(), 6);
    assert_eq!(a.get(4).as_u64_or_0(), u64::MAX);
    assert_eq!(a.get(5).as_i64_or_0(), i64::MIN);
    assert_eq!(a.get(1).as_i64_or_0(), 0);
    assert_eq!(a.get(2).as_i64_or_0(), 10_000_000_000);
    assert_eq!(a.get(3).as_i64_or_0(), 0);
}

#[test]
fn slots_write_once_and_mark_changed() {
    let mut arr = MutableArray::new();
    assert!(!arr.is_changed());
    arr.append().put_i64(1);
    assert!(arr.is_changed());
    arr.append().put_i64(2);
    arr.append().put_i64(3);
    arr.at(1).unwrap().put_string("two");
    assert_eq!(arr.to_json(), r#"[1,"two",3]"#);

    let copy = arr.as_array().mutable_copy();
    assert!(!copy.is_changed());
    assert_eq!(copy, arr);

    let mut copy = copy;
    assert_eq!(
        copy.insert(3).unwrap_err().code,
        couchbase_lite::ErrorCode::CouchbaseLite(couchbase_lite::CouchbaseLiteError::MemoryError)
    );
    assert!(!copy.is_changed());
    assert!(copy.insert(0).is_ok());
    assert!(copy.is_changed());
    assert_eq!(copy.to_json(), r#"[null,1,"two",3]"#);
    copy.remove(9);
    assert_eq!(copy.count(), 4);
    copy.remove(0);
    assert_eq!(copy, arr);
    copy.remove_all();
    assert!(copy.empty());

    let mut dict = MutableDict::new();
    dict.at("b").put_i64(2);
    dict.at("a").put_i64(1);
    dict.at("b").put_i64(3);
    assert_eq!(dict.to_json(), r#"{"a":1,"b":3}"#);
    let fresh = dict.as_dict().mutable_copy();
    assert!(!fresh.is_changed());
    assert_eq!(fresh, dict);
    dict.remove_all();
    assert_eq!(dict.count(), 0);
    assert!(dict.is_changed());
}

#[test]
fn put_value_copies_containers() {
    let mut inner = MutableArray::new();
    inner.append().put_i64(1);
    let mut outer = MutableDict::new();
    outer.at("list").put_value(&inner);
    inner.append().put_i64(2);
    assert_eq!(outer.to_json(), r#"{"list":[1]}"#);
    outer.at("none").put_value(&Value::undefined());
    assert_eq!(outer.to_json(), r#"{"list":[1],"none":null}"#);
    let nested = outer.get("list").as_array();
    assert_eq!(nested.count(), 1);
}
