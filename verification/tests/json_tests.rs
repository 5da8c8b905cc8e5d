// JSON text: writing, reading, and reading what was written.

use couchbase_lite::{Fleece, MutableArray, MutableDict, ValueType};

#[test]
fn json_escapes_and_numbers() {
    let doc = Fleece::parse_json("[\"a\\n\\u0041\\ud83d\\ude00\", -0, 1e3, 18446744073709551615, -9223372036854775808, 1.5e-2, 123456789012345678901234567890, true, false, null]").unwrap();
    let a = doc.as_array();
    assert_eq!(a.get(0).as_string(), Some("a\nA\u{1F600}"));
    assert_eq!(a.get(1).as_i64(), Some(0));
    assert_eq!(a.get(2).as_i64(), None);
    assert_eq!(a.get(2).as_i64_or_0(), 1000);
    assert_eq!(a.get(3).as_u64(), Some(u64::MAX));
    assert!(a.get(3).is_unsigned());
    assert_eq!(a.get(4).as_i64(), Some(i64::MIN));
    assert_eq!(a.get(5).as_i64_or_0(), 0);
    assert!(a.get(5).as_bool_or_false());
    assert!(a.get(6).is_double());
    assert_eq!(a.get(6).as_i64_or_0(), i64::MAX);
    assert_eq!(a.get(6).as_u64_or_0(), u64::MAX);
    assert_eq!(a.get(7).as_bool(), Some(true));
    assert_eq!(a.get(8).as_bool(), Some(false));
    assert_eq!(a.get(9).get_type(), ValueType::Null);
    assert_eq!(a.to_json(), "[\"a\\nA\u{1F600}\",0,1e3,18446744073709551615,-9223372036854775808,1.5e-2,123456789012345678901234567890,true,false,null]");
}

#[test]
fn malformed_json_is_refused() {
    for bad in ["", "[1,]", "{\"a\"}", "01", "1.", "\"abc", "[1 2]", "tru", "{\"a\":1,}", "\"\\ud800\"", "nulll", "1e", "-", "{a:1}", "[", "\"\u{1}\"", "\"\\x\""] {
        let r = Fleece::parse_json(bad);
        assert!(r.is_err(), "{}", bad);
        assert_eq!(
            r.err().unwrap().code,
            couchbase_lite::ErrorCode::Fleece(couchbase_lite::FleeceError::JSONError)
        );
    }
}

#[test]
fn data_as_base64() {
    let mut a = MutableArray::new();
    a.append().put_data(b"");
    a.append().put_data(b"f");
    a.append().put_data(b"fo");
    a.append().put_data(b"foo");
    a.append().put_data(b"foobar");
    a.append().put_data(&[0xfb, 0xff, 0xfe]);
    assert_eq!(a.to_json(), r#"["","Zg==","Zm8=","Zm9v","Zm9vYmFy","+//+"]"#);
}

#[test]
fn reading_what_was_written_gives_it_back() {
    let text = r#"{"i":1234,"s":"Hello World!"}"#;
    let doc = Fleece::parse_json(text).unwrap();
    assert_eq!(doc.root().to_json(), text);

    let mut d = MutableDict::new();
    d.at("z").put_string("quote \" backslash \\ tab \t bell \u{7} é \u{1F600}");
    d.at("a").put_i64(i64::MIN);
    d.at("m").put_u64(u64::MAX);
    d.at("n").put_null();
    d.at("t").put_bool(true);
    assert!(d.at("r").put_double_text("-12.5e+7"));
    let mut inner = MutableArray::new();
    inner.append().put_bool(false);
    inner.append().put_value(&MutableDict::new());
    inner.append().put_value(&MutableArray::new());
    d.at("list").put_value(&inner);
    let written = d.to_json();
    assert_eq!(
        written,
        "{\"a\":-9223372036854775808,\"list\":[false,{},[]],\"m\":18446744073709551615,\"n\":null,\"r\":-12.5e+7,\"t\":true,\"z\":\"quote \\\" backslash \\\\ tab \\t bell \\u0007 é \u{1F600}\"}"
    );
    let again = Fleece::parse_json(&written).unwrap();
    assert_eq!(again.as_dict(), d.as_dict());
    assert_eq!(again.root().to_json(), written);
}

#[test]
fn white_space_and_repeated_keys() {
    let doc = Fleece::parse_json(" \n{ \"b\" : [ ] , \"a\" : { } ,\t\"b\":2 }\r\n").unwrap();
    assert_eq!(doc.root().to_json(), r#"{"a":{},"b":2}"#);
    assert_eq!(doc.as_dict().count(), 2);
    assert!(doc.as_array().is_null());
    let scalar = Fleece::parse_json("42").unwrap();
    assert_eq!(scalar.root().as_i64(), Some(42));
    assert!(scalar.as_dict().is_null());
}
