// Indexes by name.

use couchbase_lite::{Database, QueryLanguage, ValueIndexConfiguration};

#[test]
fn indexes() {
    let mut db = Database::open("test_db", None).expect("open db");
    assert!(db
        .create_index(
            "new_index",
            ValueIndexConfiguration::new(QueryLanguage::JSON, r#"[[".id"]]"#),
        )
        .unwrap());

    let names = db.get_index_names();
    let value = names.iter().next().unwrap();
    let name = value.as_string().unwrap();
    assert_eq!(name, "new_index");

    db.delete_index("idx").unwrap();
    assert_eq!(db.get_index_names().count(), 1);

    db.delete_index("new_index").unwrap();
    assert_eq!(db.get_index_names().count(), 0);
}

#[test]
fn an_index_made_twice_is_held_once() {
    let mut db = Database::open("test_db", None).expect("open db");
    let config = ValueIndexConfiguration::new(QueryLanguage::N1QL, "name");
    assert_eq!(config.language(), QueryLanguage::N1QL);
    assert_eq!(config.expressions(), "name");
    db.create_index("a", config).unwrap();
    db.create_index("b", ValueIndexConfiguration::new(QueryLanguage::JSON, "x")).unwrap();
    db.create_index("a", ValueIndexConfiguration::new(QueryLanguage::JSON, "y")).unwrap();
    assert_eq!(db.get_index_names().to_json(), r#"["a","b"]"#);
    assert_eq!(db.delete_index("a").unwrap(), true);
    assert_eq!(db.delete_index("a").unwrap(), false);
    assert_eq!(db.get_index_names().to_json(), r#"["b"]"#);
}

use couchbase_lite::{CouchbaseLiteError, ErrorCode, MutableArray, Query};

fn row_of(i: i64, s: &str) -> MutableArray {
    let mut row = MutableArray::new();
    row.append().put_i64(i);
    row.append().put_string(s);
    row
}

// The rows of "select i, s from _ where i > 1 order by i" over three
// documents, as the engine would hand them over.
#[test]
fn rows_by_position_and_by_name() {
    let query = Query::new(
        QueryLanguage::N1QL,
        "select i, s from _ where i > 1 order by i",
        vec!["i".to_string(), "s".to_string()],
    )
    .expect("create query");
    assert_eq!(query.column_count(), 2);
    assert_eq!(query.column_name(0), Some("i"));
    assert_eq!(query.column_name(1), Some("s"));
    assert_eq!(query.column_name(2), None);
    assert_eq!(query.column_names(), vec!["i", "s"]);
    assert_eq!(query.text(), "select i, s from _ where i > 1 order by i");

    // Step through the rows:
    let mut results = query.results(vec![row_of(2, "two"), row_of(3, "three")]);
    {
        let row = results.next().unwrap();
        let i = row.get(0).as_i64().unwrap();
        let s = row.get(1).as_string().unwrap();
        assert_eq!(i, 2);
        assert_eq!(s, "two");
        assert_eq!(row.as_dict().to_json(), r#"{"i":2,"s":"two"}"#);
        assert_eq!(row.as_array().to_json(), r#"[2,"two"]"#);
        assert_eq!(row.get_key("s").as_string(), Some("two"));
        assert!(row.get_key("t").is_undefined());
        assert!(row.get(2).is_undefined());
        assert!(row.get(-1).is_undefined());
        assert_eq!(row.column_count(), 2);
        assert_eq!(row.column_name(1), Some("s"));
        assert_eq!(row.column_name(-1), None);
        assert_eq!(row.column_of("i"), Some(0));
    }
    {
        let row = results.next().unwrap();
        let i = row.get(0).as_i64().unwrap();
        let s = row.get(1).as_string().unwrap();
        assert_eq!(i, 3);
        assert_eq!(s, "three");
        assert_eq!(row.as_dict().to_json(), r#"{"i":3,"s":"three"}"#);
    }
    assert!(results.next().is_none());
    assert!(results.next().is_none());
}

#[test]
fn queries_that_are_refused() {
    let e = Query::new(QueryLanguage::N1QL, "", vec![]).unwrap_err();
    assert_eq!(e.code, ErrorCode::CouchbaseLite(CouchbaseLiteError::InvalidQuery));
    let e = Query::new(
        QueryLanguage::JSON,
        "select a, a",
        vec!["a".to_string(), "b".to_string(), "a".to_string()],
    )
    .unwrap_err();
    assert_eq!(e.code, ErrorCode::CouchbaseLite(CouchbaseLiteError::InvalidQuery));
    // a row that is shorter than the columns holds null for what is missing
    let query = Query::new(QueryLanguage::JSON, "x", vec!["a".to_string(), "b".to_string()]).unwrap();
    let mut short = MutableArray::new();
    short.append().put_bool(true);
    let mut results = query.results(vec![short]);
    let row = results.next().unwrap();
    assert_eq!(row.as_dict().to_json(), r#"{"a":true,"b":null}"#);
}
