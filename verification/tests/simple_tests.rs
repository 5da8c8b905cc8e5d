// A first walk through the library.

use couchbase_lite::{ConcurrencyControl, Database, Document, Error};

fn with_db<F: Fn(&mut Database)>(f: F) {
    let mut db = Database::open("test_db", None).expect("open db");
    f(&mut db);
    db.close().unwrap();
}

#[test]
fn simple_tests_db_properties() {
    with_db(|db| {
        assert_eq!(db.name(), "test_db");
        assert_eq!(db.count(), 0);
    });
}

#[test]
fn create_document() {
    with_db(|_db| {
        let doc = Document::new_with_id("foo");
        assert_eq!(doc.id(), "foo");
        assert_eq!(doc.sequence(), 0);
        assert!(!doc.properties().is_null());
        assert_eq!(doc.properties().count(), 0);
    });
}

#[test]
fn save_document() {
    with_db(|db| {
        {
            let mut doc = Document::new_with_id("foo");
            let props = doc.mutable_properties();
            props.at("i").put_i64(1234);
            props.at("s").put_string("Hello World!");

            db.save_document_with_concurency_control(&mut doc, ConcurrencyControl::FailOnConflict)
                .expect("save");
        }
        {
            let doc = db.get_document("foo").expect("reload document");
            let props = doc.properties();
            assert_eq!(props.to_json(), r#"{"i":1234,"s":"Hello World!"}"#);
        }
    });
}

fn transaction_callback(db: &mut Database) -> Result<String, Error> {
    let mut doc = Document::new_with_id("document");
    db.save_document_with_concurency_control(&mut doc, ConcurrencyControl::LastWriteWins)
        .unwrap();
    Ok("document".to_string())
}

fn transaction_callback_error(db: &mut Database) -> Result<String, Error> {
    let mut doc = Document::new_with_id("document_error");
    db.save_document_with_concurency_control(&mut doc, ConcurrencyControl::LastWriteWins)
        .unwrap();
    Err(couchbase_lite::Error::default())
}

#[test]
fn simple_tests_in_transaction() {
    with_db(|db| {
        let result = db.in_transaction(transaction_callback);

        assert!(result.is_ok());
        assert_eq!(result.unwrap(), "document");

        let result = db.in_transaction(transaction_callback_error);

        assert!(result.is_err());

        assert!(db.get_document("document").is_ok());
        assert!(db.get_document("document_error").is_err());
    });
}

#[test]
fn simple_tests_add_listener() {
    with_db(|db| {
        let mut doc = Document::new_with_id("document");
        db.save_document_with_concurency_control(&mut doc, ConcurrencyControl::LastWriteWins)
            .unwrap();
        let doc_ids = db.take_notifications();
        assert!(doc_ids.first().unwrap() == "document");
    });
}

#[test]
fn simple_tests_buffer_notifications() {
    with_db(|db| {
        db.buffer_notifications();

        let mut doc = Document::new_with_id("document");
        db.save_document_with_concurency_control(&mut doc, ConcurrencyControl::LastWriteWins)
            .unwrap();

        assert!(!db.take_notifications().iter().any(|id| id == "document"));

        db.send_notifications();

        assert!(db.take_notifications().iter().any(|id| id == "document"));
    });
}
