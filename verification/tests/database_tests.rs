// The database: transactions, counting, notifications.

use couchbase_lite::{ConcurrencyControl, CouchbaseLiteError, Database, Document, Error, ErrorCode};

fn with_db<F: Fn(&mut Database)>(f: F) {
    let mut db = Database::open("test_db", None).expect("open db");
    f(&mut db);
    db.close().unwrap();
}

#[test]
fn database_tests_in_transaction() {
    with_db(|db| {
        let result = db.in_transaction(|db: &mut Database| {
            let mut doc = Document::new_with_id("document");
            db.save_document_with_concurency_control(&mut doc, ConcurrencyControl::LastWriteWins)
                .unwrap();
            Ok("document".to_string())
        });

        assert!(result.is_ok());
        assert_eq!(result.unwrap(), "document");

        let result = db.in_transaction(|db: &mut Database| -> Result<String, Error> {
            let mut doc = Document::new_with_id("document_error");
            db.save_document_with_concurency_control(&mut doc, ConcurrencyControl::LastWriteWins)
                .unwrap();
            Err(couchbase_lite::Error::default())
        });

        assert!(result.is_err());

        assert!(db.get_document("document").is_ok());
        assert!(db.get_document("document_error").is_err());
    });
}

#[test]
fn database_tests_db_properties() {
    with_db(|db| {
        assert_eq!(db.name(), "test_db");
        assert_eq!(db.count(), 0);
    });
}

// The test plays the listener: it takes the due notifications.
#[test]
fn database_tests_add_listener() {
    with_db(|db| {
        let mut doc = Document::new_with_id("document");
        db.save_document_with_concurency_control(&mut doc, ConcurrencyControl::LastWriteWins)
            .unwrap();
        let doc_ids = db.take_notifications();
        assert_eq!(doc_ids.first().unwrap(), "document");
        assert!(db.take_notifications().is_empty());
    });
}

#[test]
fn database_tests_buffer_notifications() {
    with_db(|db| {
        db.buffer_notifications();

        let mut doc = Document::new_with_id("document");
        db.save_document_with_concurency_control(&mut doc, ConcurrencyControl::LastWriteWins)
            .unwrap();

        assert!(db.take_notifications().is_empty());

        db.send_notifications();

        let doc_ids = db.take_notifications();
        assert_eq!(doc_ids.first().unwrap(), "document");
    });
}

#[test]
fn nested_transactions_end_with_the_outermost() {
    with_db(|db| {
        db.begin_transaction().unwrap();
        let mut kept = Document::new_with_id("kept");
        db.save_document(&mut kept).unwrap();
        db.begin_transaction().unwrap();
        let mut inner = Document::new_with_id("inner");
        db.save_document(&mut inner).unwrap();
        // the inner transaction is not committed, yet nothing goes back before the outer ends
        db.end_transaction(false).unwrap();
        assert!(db.get_document("inner").is_ok());
        assert!(db.in_open_transaction());
        db.end_transaction(true).unwrap();
        assert!(!db.in_open_transaction());
        assert!(db.get_document("kept").is_ok());
        assert!(db.get_document("inner").is_ok());
        assert_eq!(db.last_sequence(), 2);

        db.begin_transaction().unwrap();
        db.begin_transaction().unwrap();
        db.purge_document_by_id("kept").unwrap();
        db.end_transaction(true).unwrap();
        db.end_transaction(false).unwrap();
        assert!(db.get_document("kept").is_ok());
        assert_eq!(db.last_sequence(), 2);

        let e = db.end_transaction(true).unwrap_err();
        assert_eq!(e.code, ErrorCode::CouchbaseLite(CouchbaseLiteError::NotInTransaction));
    });
}

#[test]
fn closing_inside_a_transaction_fails() {
    let mut db = Database::open("t", None).unwrap();
    db.begin_transaction().unwrap();
    let e = db.close().unwrap_err();
    assert_eq!(e.code, ErrorCode::CouchbaseLite(CouchbaseLiteError::TransactionNotClosed));
    let e = Database::open("", None).unwrap_err();
    assert_eq!(e.code, ErrorCode::CouchbaseLite(CouchbaseLiteError::InvalidParameter));
}

#[test]
fn changes_since_a_sequence() {
    with_db(|db| {
        for id in ["a", "b", "c"] {
            let mut d = Document::new_with_id(id);
            db.save_document(&mut d).unwrap();
        }
        let b = db.get_document("b").unwrap();
        db.delete_document(&b).unwrap();
        let changes = db.changes_since(1);
        let seen: Vec<(String, u64, bool)> = changes
            .iter()
            .map(|c| (c.document.id().to_string(), c.document.sequence(), c.deleted))
            .collect();
        assert_eq!(
            seen,
            vec![("b".to_string(), 4, true), ("c".to_string(), 3, false)]
        );
        assert!(db.changes_since(4).is_empty());
        assert_eq!(db.sequence_of("a"), Some(1));
        assert_eq!(db.sequence_of("zzz"), None);
        assert!(db.is_tombstone("b"));
        assert!(!db.is_tombstone("a"));
    });
}
