// Documents, and the database's rules of saving, deleting, purging and
// expiring them.

use couchbase_lite::replicator::{ReplicatorEvent, DELETED};
use couchbase_lite::{
    ConcurrencyControl, CouchbaseLiteError, Database, Document, Endpoint, ErrorCode, MutableArray,
    MutableDict, Replicator, ReplicatorConfiguration, ReplicatorType, Timestamp,
};
use std::cell::RefCell;

fn with_db<F: Fn(&mut Database)>(f: F) {
    let mut db = Database::open("test_db", None).expect("open db");
    f(&mut db);
    db.close().unwrap();
}

#[test]
fn document_new() {
    let document = Document::new();
    assert_ne!(document.id(), "");
    assert_eq!(document.revision_id(), None);
    assert_eq!(document.sequence(), 0);
    assert!(!document.properties().is_null());
    assert_eq!(document.properties().count(), 0);
    assert_ne!(Document::new().id(), document.id());
}

#[test]
fn document_new_with_id() {
    let document = Document::new_with_id("foo");
    assert_eq!(document.id(), "foo");
    assert_eq!(document.revision_id(), None);
    assert_eq!(document.sequence(), 0);
    assert!(!document.properties().is_null());
    assert_eq!(document.properties().count(), 0);
}

#[test]
fn document_revision_id() {
    with_db(|db| {
        let mut document = Document::new();
        assert_eq!(document.revision_id(), None);

        db.save_document_with_concurency_control(&mut document, ConcurrencyControl::FailOnConflict)
            .expect("save_document");
        assert!(document.revision_id().is_some());

        let first_revision_id = String::from(document.revision_id().unwrap());
        db.save_document_with_concurency_control(&mut document, ConcurrencyControl::FailOnConflict)
            .expect("save_document");
        assert!(document.revision_id().is_some());
        let second_revision_id = String::from(document.revision_id().unwrap());
        assert_ne!(second_revision_id, first_revision_id);
    });
}

#[test]
fn document_sequence() {
    with_db(|db| {
        let mut document_1 = Document::new();
        let mut document_2 = Document::new();
        assert_eq!(document_1.sequence(), 0);
        assert_eq!(document_2.sequence(), 0);

        db.save_document_with_concurency_control(
            &mut document_1,
            ConcurrencyControl::FailOnConflict,
        )
        .expect("save_document");
        db.save_document_with_concurency_control(
            &mut document_2,
            ConcurrencyControl::FailOnConflict,
        )
        .expect("save_document");
        assert_eq!(document_1.sequence(), 1);
        assert_eq!(document_2.sequence(), 2);
    });
}

#[test]
fn document_properties() {
    let mut document = Document::new();
    let mut properties = MutableDict::new();
    properties.at("foo").put_bool(false);
    properties.at("bar").put_bool(true);
    document.set_properties(&properties);
    let properties = document.mutable_properties();
    properties.at("baz").put_bool(true);
    properties.at("foo").put_bool(true);
    let properties = document.properties();
    assert_eq!(properties.count(), 3);
    assert_eq!(properties.get("foo").as_bool_or_false(), true);
    assert_eq!(properties.get("bar").as_bool_or_false(), true);
    assert_eq!(properties.get("baz").as_bool_or_false(), true);
}

#[test]
fn document_properties_as_json() {
    let mut document = Document::new();
    document
        .set_properties_as_json(r#"{"foo":true,"bar":true}"#)
        .expect("set_properties_as_json");
    let properties = document.properties();
    assert_eq!(properties.count(), 2);
    assert_eq!(properties.get("foo").as_bool_or_false(), true);
    assert_eq!(properties.get("bar").as_bool_or_false(), true);
    let properties_as_json = document.properties_as_json();
    assert!(properties_as_json.contains(r#""foo":true"#));
    assert!(properties_as_json.contains(r#""bar":true"#));
}

#[test]
fn document_properties_from_bad_json() {
    let mut document = Document::new_with_id("d");
    document.mutable_properties().at("kept").put_i64(1);
    let e = document.set_properties_as_json("{\"foo\":").unwrap_err();
    assert_eq!(e.code, ErrorCode::Fleece(couchbase_lite::FleeceError::JSONError));
    let e = document.set_properties_as_json("[1,2]").unwrap_err();
    assert_eq!(e.code, ErrorCode::Fleece(couchbase_lite::FleeceError::InvalidData));
    assert_eq!(document.properties_as_json(), r#"{"kept":1}"#);
}

#[test]
fn database_get_document() {
    with_db(|db| {
        let mut document = Document::new_with_id("foo");
        db.save_document_with_concurency_control(&mut document, ConcurrencyControl::FailOnConflict)
            .expect("save_document");
        let document = db.get_document(document.id());
        assert!(document.is_ok());
        assert_eq!(document.unwrap().id(), "foo");
        let document = db.get_document("");
        assert!(document.is_err());
        assert_eq!(
            document.unwrap_err().code,
            ErrorCode::CouchbaseLite(CouchbaseLiteError::NotFound)
        );
    });
}

#[test]
fn database_save_document() {
    with_db(|db| {
        let mut document = Document::new_with_id("foo");
        db.save_document_with_concurency_control(&mut document, ConcurrencyControl::FailOnConflict)
            .expect("save_document");
        let mut document = db.get_document("foo").expect("get_document");
        {
            let mut document = db.get_document("foo").expect("get_document");
            document.mutable_properties().at("foo").put_i64(1);
            db.save_document_with_concurency_control(
                &mut document,
                ConcurrencyControl::FailOnConflict,
            )
            .expect("save_document");
        }
        document.mutable_properties().at("foo").put_i64(2);
        let conflict_error = db.save_document_with_concurency_control(
            &mut document,
            ConcurrencyControl::FailOnConflict,
        );
        assert!(conflict_error.is_err());
        assert_eq!(
            conflict_error.unwrap_err().code,
            ErrorCode::CouchbaseLite(CouchbaseLiteError::Conflict)
        );
        assert_eq!(
            db.get_document("foo").unwrap().properties().get("foo").as_i64_or_0(),
            1
        );
        db.save_document_with_concurency_control(&mut document, ConcurrencyControl::LastWriteWins)
            .expect("save_document");
        let document = db.get_document("foo").expect("get_document");
        assert_eq!(document.properties().get("foo").as_i64_or_0(), 2);
    });
}

#[test]
fn database_save_document_resolving() {
    with_db(|db| {
        let mut document = Document::new_with_id("foo");
        db.save_document_with_concurency_control(&mut document, ConcurrencyControl::FailOnConflict)
            .expect("save_document");
        {
            let mut document = db.get_document("foo").unwrap();
            document.mutable_properties().at("foo").put_i64(1);
            db.save_document_with_concurency_control(
                &mut document,
                ConcurrencyControl::FailOnConflict,
            )
            .expect("save_document");
        }
        document.mutable_properties().at("foo").put_i64(2);
        document = db
            .save_document_resolving(&mut document, |document_a: &mut Document, document_b: &Document| {
                let property_a = document_a.properties().get("foo").as_i64_or_0();
                let property_b = document_b.properties().get("foo").as_i64_or_0();
                document_a
                    .mutable_properties()
                    .at("foo")
                    .put_i64(property_a + property_b);
                true
            })
            .expect("save_document_resolving");
        assert_eq!(document.properties().get("foo").as_i64_or_0(), 3);
        document = db.get_document("foo").unwrap();
        assert_eq!(document.properties().get("foo").as_i64_or_0(), 3);
    });
}

#[test]
fn save_resolving_without_conflict_does_not_ask() {
    with_db(|db| {
        let asked = RefCell::new(0);
        let mut document = Document::new_with_id("foo");
        let saved = db
            .save_document_resolving(&mut document, |_: &mut Document, _: &Document| {
                *asked.borrow_mut() += 1;
                false
            })
            .unwrap();
        assert_eq!(*asked.borrow(), 0);
        assert_eq!(saved.sequence(), 1);
        assert_eq!(document.sequence(), 1);
    });
}

#[test]
fn database_purge_document() {
    with_db(|db| {
        let mut document = Document::new();
        {
            db.save_document_with_concurency_control(
                &mut document,
                ConcurrencyControl::FailOnConflict,
            )
            .expect("save_document");
            let mut document = Document::new_with_id("foo");
            db.save_document_with_concurency_control(
                &mut document,
                ConcurrencyControl::FailOnConflict,
            )
            .expect("save_document");
        }
        db.purge_document(&document).expect("purge_document");
        db.purge_document_by_id("foo")
            .expect("purge_document_by_id");
        let document = db.get_document(document.id());
        assert!(document.is_err());
        let document = db.get_document("foo");
        assert!(document.is_err());
        assert!(db.purge_document_by_id("foo").is_err());
        assert_eq!(db.last_sequence(), 2);
    });
}

// The listener of one document hears of that document's changes only. Here
// the test plays the listener: it takes the due notifications and looks for
// the document's id.
#[test]
fn database_add_document_change_listener() {
    with_db(|db| {
        let mut document = Document::new_with_id("foo");
        db.save_document_with_concurency_control(&mut document, ConcurrencyControl::FailOnConflict)
            .expect("save_document");
        db.take_notifications();
        let heard = |ids: Vec<String>| ids.iter().any(|id| id == "foo");

        document.mutable_properties().at("foo").put_i64(1);
        db.save_document_with_concurency_control(&mut document, ConcurrencyControl::FailOnConflict)
            .expect("save_document");
        assert!(heard(db.take_notifications()));

        let mut document = Document::new_with_id("bar");
        db.save_document_with_concurency_control(&mut document, ConcurrencyControl::FailOnConflict)
            .expect("save_document");
        assert!(!heard(db.take_notifications()));
    });
}

#[test]
fn database_delete_document() {
    let seen_deleted = RefCell::new(false);
    let push_filter = Some(|document: &Document, is_deleted: bool, _is_access_removed: bool| {
        if is_deleted && document.id() == "foo" {
            *seen_deleted.borrow_mut() = true;
        }
        true
    });

    let mut local_db = Database::open("local", None).unwrap();
    let mut central_db = Database::open("central", None).unwrap();
    let mut replicator = Replicator::new(ReplicatorConfiguration {
        database: "local".to_string(),
        endpoint: Endpoint::new_with_local_db(&central_db),
        replicator_type: ReplicatorType::PushAndPull,
        continuous: true,
        disable_auto_purge: true,
        max_attempts: 4,
        max_attempt_wait_time: 100,
        heartbeat: 120,
        authenticator: None,
        proxy: None,
        headers: Vec::new(),
        pinned_server_certificate: None,
        trusted_root_certificates: None,
        channels: MutableArray::default(),
        document_ids: MutableArray::default(),
    })
    .unwrap();
    replicator.start(false);
    replicator.handle(ReplicatorEvent::Connected { work_pending: false });

    // Save doc 'foo'
    let mut doc = Document::new_with_id("foo");
    doc.mutable_properties().at("i").put_i64(1234);
    doc.mutable_properties().at("s").put_string("Hello World!");
    local_db
        .save_document_with_concurency_control(&mut doc, ConcurrencyControl::FailOnConflict)
        .expect("save");

    // Check 'foo' is replicated to central
    replicator.push(&push_filter, &local_db, &mut central_db);
    assert!(central_db.get_document("foo").is_ok());
    assert!(!*seen_deleted.borrow());

    // Delete document in DB 1
    let document = local_db.get_document("foo").unwrap();
    local_db
        .delete_document_with_concurency_control(&document, ConcurrencyControl::FailOnConflict)
        .expect("delete_document");

    let document = local_db.get_document("foo").unwrap();
    assert!(document.is_deleted());
    assert_eq!(local_db.count(), 0);

    // Check document is replicated with deleted flag
    let reports = replicator.push(&push_filter, &local_db, &mut central_db);
    assert!(*seen_deleted.borrow());
    assert_eq!(reports.len(), 1);
    assert_eq!(reports[0].flags & DELETED, DELETED);
    assert!(central_db.get_document("foo").unwrap().is_deleted());
}

#[test]
fn deleting_what_is_not_there_fails() {
    with_db(|db| {
        let document = Document::new_with_id("ghost");
        let e = db.delete_document(&document).unwrap_err();
        assert_eq!(e.code, ErrorCode::CouchbaseLite(CouchbaseLiteError::NotFound));
        assert_eq!(db.last_sequence(), 0);
    });
}

#[test]
fn database_document_expiration() {
    with_db(|db| {
        let mut document = Document::new_with_id("foo");
        db.save_document_with_concurency_control(&mut document, ConcurrencyControl::FailOnConflict)
            .expect("save_document");
        let expiration = db.document_expiration("foo").expect("document_expiration");
        assert!(expiration.is_none());
        db.set_document_expiration("foo", Some(Timestamp(1000000000)))
            .expect("set_document_expiration");
        let expiration = db.document_expiration("foo").expect("document_expiration");
        assert!(expiration.is_some());
        assert_eq!(expiration.unwrap().0, 1000000000);
    });
}

#[test]
fn expiration_is_cleared_and_kept() {
    with_db(|db| {
        let mut document = Document::new_with_id("foo");
        db.save_document(&mut document).unwrap();
        db.set_document_expiration("foo", Some(Timestamp(5))).unwrap();
        // a save keeps the expiration
        document.mutable_properties().at("x").put_i64(1);
        db.save_document(&mut document).unwrap();
        assert_eq!(db.document_expiration("foo").unwrap().map(|t| t.0), Some(5));
        db.set_document_expiration("foo", None).unwrap();
        assert!(db.document_expiration("foo").unwrap().is_none());
        db.set_document_expiration("foo", Some(Timestamp(7))).unwrap();
        db.set_document_expiration("foo", Some(Timestamp(0))).unwrap();
        assert!(db.document_expiration("foo").unwrap().is_none());
        let e = db.set_document_expiration("nope", Some(Timestamp(5))).unwrap_err();
        assert_eq!(e.code, ErrorCode::CouchbaseLite(CouchbaseLiteError::NotFound));
        assert!(db.document_expiration("nope").unwrap().is_none());
    });
}

#[test]
fn sequences_count_up_without_gaps() {
    with_db(|db| {
        for n in 1..=20u64 {
            let mut d = Document::new_with_id(&format!("doc-{}", n));
            db.save_document(&mut d).unwrap();
            assert_eq!(d.sequence(), n);
            assert_eq!(db.last_sequence(), n);
        }
        for n in 1..=20u64 {
            assert_eq!(db.get_document(&format!("doc-{}", n)).unwrap().sequence(), n);
        }
        assert_eq!(db.count(), 20);
    });
}

#[test]
fn made_up_id_is_a_tilde_and_hex_digits() {
    let document = Document::new();
    let id: Vec<char> = document.id().chars().collect();
    assert_eq!(id.len(), 33);
    assert_eq!(id[0], '~');
    assert!(id[1..].iter().all(|c| matches!(c, '0'..='9' | 'a'..='f')));
    assert_eq!(Document::default().id().len(), 33);
}
