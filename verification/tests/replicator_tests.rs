// Replication between databases: what is pushed and pulled, what the filters
// hold back, and how conflicts are settled.

use couchbase_lite::replicator::{ReplicatorAction, ReplicatorEvent};
use couchbase_lite::{
    ConcurrencyControl, CouchbaseLiteError, Database, Document, Endpoint, ErrorCode, MutableArray,
    ReplicatedDocument, Replicator, ReplicatorActivityLevel, ReplicatorConfiguration,
    ReplicatorType,
};
use std::cell::RefCell;

type Filter = fn(&Document, bool, bool) -> bool;
type Resolver = fn(&str, Option<Document>, Option<Document>) -> Option<Document>;

const NO_FILTER: Option<Filter> = None;
const NO_RESOLVER: Option<Resolver> = None;

struct TestConfiguration {
    replicator_type: ReplicatorType,
    continuous: bool,
    document_ids: MutableArray,
}

fn default_configuration() -> TestConfiguration {
    TestConfiguration {
        replicator_type: ReplicatorType::PushAndPull,
        continuous: true,
        document_ids: MutableArray::default(),
    }
}

fn replicator(local: &Database, central: &Database, config: TestConfiguration) -> Replicator {
    let continuous = config.continuous;
    let mut replicator = Replicator::new(ReplicatorConfiguration {
        database: local.name().to_string(),
        endpoint: Endpoint::new_with_local_db(central),
        replicator_type: config.replicator_type,
        continuous,
        disable_auto_purge: true,
        max_attempts: 4,
        max_attempt_wait_time: 100,
        heartbeat: 120,
        authenticator: None,
        proxy: None,
        headers: Vec::new(),
        pinned_server_certificate: None,
        trusted_root_certificates: None,
        channels: MutableArray::default(),
        document_ids: config.document_ids,
    })
    .unwrap();
    if continuous {
        connect(&mut replicator);
    }
    replicator
}

// Plays the transport: the connection stands at once.
fn connect(replicator: &mut Replicator) {
    assert_eq!(replicator.start(false), ReplicatorAction::Connect);
    replicator.handle(ReplicatorEvent::Connected { work_pending: true });
}

// Plays the transport: the connection closes when asked.
fn disconnect(replicator: &mut Replicator) {
    if replicator.stop() == ReplicatorAction::Disconnect {
        replicator.handle(ReplicatorEvent::Closed);
    }
    assert_eq!(replicator.status().activity, ReplicatorActivityLevel::Stopped);
}

// One round: push, then pull.
fn sync<P, L, R>(
    replicator: &mut Replicator,
    local: &mut Database,
    central: &mut Database,
    push_filter: &Option<P>,
    pull_filter: &Option<L>,
    resolver: &Option<R>,
) -> Vec<ReplicatedDocument>
where
    P: Fn(&Document, bool, bool) -> bool,
    L: Fn(&Document, bool, bool) -> bool,
    R: Fn(&str, Option<Document>, Option<Document>) -> Option<Document>,
{
    let mut reports = replicator.push(push_filter, local, central);
    reports.extend(replicator.pull(pull_filter, resolver, local, central));
    reports
}

fn sync_plain(replicator: &mut Replicator, local: &mut Database, central: &mut Database) {
    sync(replicator, local, central, &NO_FILTER, &NO_FILTER, &NO_RESOLVER);
}

fn add_doc(db: &mut Database, id: &str, i: i64, s: &str) {
    let mut doc = Document::new_with_id(id);
    let props = doc.mutable_properties();
    props.at("i").put_i64(i);
    props.at("s").put_string(s);
    db.save_document_with_concurency_control(&mut doc, ConcurrencyControl::FailOnConflict)
        .expect("save");
}

fn value_of_i(db: &Database, id: &str) -> i64 {
    db.get_document(id)
        .expect("foo exists")
        .properties()
        .get("i")
        .as_i64_or_0()
}

#[test]
fn push_replication() {
    let mut local_db = Database::open("local", None).unwrap();
    let mut central_db = Database::open("central", None).unwrap();
    let mut repl = replicator(&local_db, &central_db, default_configuration());

    // Save doc
    add_doc(&mut local_db, "foo", 1234, "Hello World!");

    // Check document is replicated to central
    sync_plain(&mut repl, &mut local_db, &mut central_db);
    assert!(central_db.get_document("foo").is_ok());
    assert_eq!(
        central_db.get_document("foo").unwrap().properties().to_json(),
        r#"{"i":1234,"s":"Hello World!"}"#
    );
    assert_eq!(repl.status().progress.document_count, 1);
}

#[test]
fn pull_replication() {
    let mut local_db = Database::open("local", None).unwrap();
    let mut central_db = Database::open("central", None).unwrap();
    let mut repl = replicator(&local_db, &central_db, default_configuration());

    // Save doc
    add_doc(&mut central_db, "foo", 1234, "Hello World!");

    // Check document replicated to local
    sync_plain(&mut repl, &mut local_db, &mut central_db);
    assert!(local_db.get_document("foo").is_ok());
}

#[test]
fn push_pull_replication() {
    let mut local_db1 = Database::open("local1", None).unwrap();
    let mut local_db2 = Database::open("local2", None).unwrap();
    let mut central_db = Database::open("central", None).unwrap();
    let mut repl1 = replicator(&local_db1, &central_db, default_configuration());
    let mut repl2 = replicator(&local_db2, &central_db, default_configuration());

    // Save doc
    add_doc(&mut local_db1, "foo", 1234, "Hello World!");

    // Check document replicated to central
    sync_plain(&mut repl1, &mut local_db1, &mut central_db);
    assert!(central_db.get_document("foo").is_ok());

    // Check document replicated to local DB 2
    sync_plain(&mut repl2, &mut local_db2, &mut central_db);
    assert!(local_db2.get_document("foo").is_ok());

    // Nothing goes round in circles: a further round moves nothing.
    let central_before = central_db.last_sequence();
    let local_before = local_db2.last_sequence();
    sync_plain(&mut repl2, &mut local_db2, &mut central_db);
    sync_plain(&mut repl1, &mut local_db1, &mut central_db);
    assert_eq!(central_db.last_sequence(), central_before);
    assert_eq!(local_db2.last_sequence(), local_before);
}

#[test]
fn pull_type_not_pushing() {
    let config = TestConfiguration {
        replicator_type: ReplicatorType::Pull,
        ..default_configuration()
    };
    let mut local_db = Database::open("local", None).unwrap();
    let mut central_db = Database::open("central", None).unwrap();
    let mut repl = replicator(&local_db, &central_db, config);

    // Save doc in DB 1
    add_doc(&mut local_db, "foo", 1234, "Hello World!");

    // Check the replication process is not pushing to central
    sync_plain(&mut repl, &mut local_db, &mut central_db);
    assert!(!central_db.get_document("foo").is_ok());
}

#[test]
fn push_type_not_pulling() {
    let config = TestConfiguration {
        replicator_type: ReplicatorType::Push,
        ..default_configuration()
    };
    let mut local_db = Database::open("local", None).unwrap();
    let mut central_db = Database::open("central", None).unwrap();
    let mut repl = replicator(&local_db, &central_db, config);

    // Save doc in central
    add_doc(&mut central_db, "foo", 1234, "Hello World!");

    // Check document not replicated in local
    sync_plain(&mut repl, &mut local_db, &mut central_db);
    assert!(!local_db.get_document("foo").is_ok());
}

#[test]
fn document_ids() {
    let mut document_ids = MutableArray::new();
    document_ids.append().put_string("foo");
    document_ids.append().put_string("foo3");

    let config = TestConfiguration {
        document_ids,
        ..default_configuration()
    };
    let mut local_db = Database::open("local", None).unwrap();
    let mut central_db = Database::open("central", None).unwrap();
    let mut repl = replicator(&local_db, &central_db, config);

    // Save doc 'foo' and 'foo2'
    add_doc(&mut local_db, "foo", 1234, "Hello World!");
    add_doc(&mut local_db, "foo2", 1234, "Hello World!");

    // Check only 'foo' is replicated
    sync_plain(&mut repl, &mut local_db, &mut central_db);
    assert!(central_db.get_document("foo").is_ok());
    assert!(!central_db.get_document("foo2").is_ok());
}

#[test]
fn push_and_pull_filter() {
    let push_filter1 = Some(|document: &Document, _is_deleted: bool, _is_access_removed: bool| {
        document.id() == "foo" || document.id() == "foo2"
    });
    let pull_filter2 = Some(|document: &Document, _is_deleted: bool, _is_access_removed: bool| {
        document.id() == "foo2" || document.id() == "foo3"
    });

    let mut local_db1 = Database::open("local1", None).unwrap();
    let mut local_db2 = Database::open("local2", None).unwrap();
    let mut central_db = Database::open("central", None).unwrap();
    let mut repl1 = replicator(&local_db1, &central_db, default_configuration());
    let mut repl2 = replicator(&local_db2, &central_db, default_configuration());

    // Save doc 'foo', 'foo2' & 'foo3'
    add_doc(&mut local_db1, "foo", 1234, "Hello World!");
    add_doc(&mut local_db1, "foo2", 1234, "Hello World!");
    add_doc(&mut local_db1, "foo3", 1234, "Hello World!");

    sync(&mut repl1, &mut local_db1, &mut central_db, &push_filter1, &NO_FILTER, &NO_RESOLVER);
    sync(&mut repl2, &mut local_db2, &mut central_db, &NO_FILTER, &pull_filter2, &NO_RESOLVER);

    // Check only 'foo' and 'foo2' were replicated to central
    assert!(central_db.get_document("foo").is_ok());
    assert!(central_db.get_document("foo2").is_ok());
    assert!(!central_db.get_document("foo3").is_ok());

    // Check only foo2' were replicated to DB 2
    assert!(!local_db2.get_document("foo").is_ok());
    assert!(local_db2.get_document("foo2").is_ok());
}

#[test]
fn conflict_resolver() {
    let asked = RefCell::new(false);
    let resolver1 = Some(
        |_document_id: &str, _local_document: Option<Document>, remote_document: Option<Document>| {
            *asked.borrow_mut() = true;
            remote_document
        },
    );

    let mut local_db1 = Database::open("local1", None).unwrap();
    let mut local_db2 = Database::open("local2", None).unwrap();
    let mut central_db = Database::open("central", None).unwrap();
    let mut repl1 = replicator(&local_db1, &central_db, default_configuration());
    let mut repl2 = replicator(&local_db2, &central_db, default_configuration());

    let i = 1234;
    let i1 = 1;
    let i2 = 2;

    // Save doc 'foo'
    add_doc(&mut local_db1, "foo", i, "Hello World!");

    // Check 'foo' is replicated to central and DB 2
    sync(&mut repl1, &mut local_db1, &mut central_db, &NO_FILTER, &NO_FILTER, &resolver1);
    assert!(central_db.get_document("foo").is_ok());
    sync_plain(&mut repl2, &mut local_db2, &mut central_db);
    assert!(local_db2.get_document("foo").is_ok());

    // Stop replication on DB 1
    disconnect(&mut repl1);

    // Modify 'foo' in DB 1
    let mut foo = local_db1.get_document("foo").unwrap();
    foo.mutable_properties().at("i").put_i64(i1);
    local_db1
        .save_document_with_concurency_control(&mut foo, ConcurrencyControl::FailOnConflict)
        .expect("save");

    // Modify 'foo' in DB 2
    let mut foo = local_db2.get_document("foo").unwrap();
    foo.mutable_properties().at("i").put_i64(i2);
    local_db2
        .save_document_with_concurency_control(&mut foo, ConcurrencyControl::FailOnConflict)
        .expect("save");

    // A stopped replicator moves nothing
    sync(&mut repl1, &mut local_db1, &mut central_db, &NO_FILTER, &NO_FILTER, &resolver1);
    assert_eq!(value_of_i(&central_db, "foo"), i);

    // Check DB 2 version is in central
    sync_plain(&mut repl2, &mut local_db2, &mut central_db);
    assert_eq!(value_of_i(&central_db, "foo"), i2);

    // Restart DB 1 replication
    connect(&mut repl1);
    let reports =
        sync(&mut repl1, &mut local_db1, &mut central_db, &NO_FILTER, &NO_FILTER, &resolver1);

    // Check conflict was detected
    assert!(*asked.borrow());
    assert_eq!(
        reports[0].error,
        Err(couchbase_lite::Error {
            code: ErrorCode::CouchbaseLite(CouchbaseLiteError::Conflict),
            internal_info: None
        })
    );

    // Check DB 2 version is in DB 1
    assert_eq!(value_of_i(&local_db1, "foo"), i2);

    // The settled revision goes out in the next round, and then all is quiet.
    sync(&mut repl1, &mut local_db1, &mut central_db, &NO_FILTER, &NO_FILTER, &resolver1);
    assert_eq!(value_of_i(&central_db, "foo"), i2);
    assert!(repl1.pending_document_ids(&local_db1).unwrap().is_empty());
}

#[test]
fn conflict_without_resolver_stays() {
    let mut local_db = Database::open("local", None).unwrap();
    let mut central_db = Database::open("central", None).unwrap();
    let mut repl = replicator(&local_db, &central_db, default_configuration());
    add_doc(&mut local_db, "foo", 1, "mine");
    add_doc(&mut central_db, "foo", 2, "theirs");
    let reports = sync(&mut repl, &mut local_db, &mut central_db, &NO_FILTER, &NO_FILTER, &NO_RESOLVER);
    assert_eq!(reports.len(), 2);
    assert!(reports.iter().all(|r| r.error.is_err()));
    assert_eq!(value_of_i(&local_db, "foo"), 1);
    assert_eq!(value_of_i(&central_db, "foo"), 2);

    // With a resolver that answers "no document" the local document is deleted.
    // The conflict has been looked at; it is looked at again when the replicator
    // starts anew and forgets how far it had looked.
    let drop_it = Some(|_: &str, _: Option<Document>, _: Option<Document>| -> Option<Document> { None });
    assert!(repl.pull(&NO_FILTER, &drop_it, &mut local_db, &central_db).is_empty());
    disconnect(&mut repl);
    repl.start(true);
    repl.handle(ReplicatorEvent::Connected { work_pending: true });
    let reports = repl.pull(&NO_FILTER, &drop_it, &mut local_db, &central_db);
    assert_eq!(reports.len(), 1);
    assert!(reports[0].error.is_ok());
    assert!(local_db.get_document("foo").unwrap().is_deleted());
}

#[test]
fn conflict_resolver_save_keep_local() {
    let mut local_db = Database::open("local", None).unwrap();
    let mut central_db = Database::open("central", None).unwrap();
    let mut repl = replicator(&local_db, &central_db, default_configuration());

    let i = 1234;
    let i1 = 1;
    let i2 = 2;

    // Save doc 'foo'
    add_doc(&mut local_db, "foo", i, "Hello World!");

    // Check 'foo' is replicated to central
    sync_plain(&mut repl, &mut local_db, &mut central_db);
    assert!(central_db.get_document("foo").is_ok());

    // Stop replication on DB 1
    disconnect(&mut repl);

    // Modify 'foo' in central
    let mut foo = central_db.get_document("foo").unwrap();
    foo.mutable_properties().at("i").put_i64(i2);
    central_db
        .save_document_with_concurency_control(&mut foo, ConcurrencyControl::FailOnConflict)
        .expect("save");

    // Fetch 'foo' in DB 1
    let mut foo = local_db.get_document("foo").unwrap();

    // Restart replication
    connect(&mut repl);
    sync_plain(&mut repl, &mut local_db, &mut central_db);

    // Check central version of 'foo' is replicated to DB 1
    assert_eq!(value_of_i(&local_db, "foo"), i2);

    // Modify 'foo' in DB1 from outdated document
    foo.mutable_properties().at("i").put_i64(i1);
    assert!(local_db
        .save_document_resolving(&mut foo, move |_: &mut Document, _: &Document| true)
        .is_ok());

    // Assert conflict was resolved by keeping latest version
    assert_eq!(value_of_i(&local_db, "foo"), i1);

    // Check 'foo' new version replicated to central
    sync_plain(&mut repl, &mut local_db, &mut central_db);
    assert_eq!(value_of_i(&central_db, "foo"), i1);
}

#[test]
fn conflict_resolver_save_keep_remote() {
    let mut local_db = Database::open("local", None).unwrap();
    let mut central_db = Database::open("central", None).unwrap();
    let mut repl = replicator(&local_db, &central_db, default_configuration());

    let i = 1234;
    let i1 = 1;
    let i2 = 2;

    // Save doc 'foo'
    add_doc(&mut local_db, "foo", i, "Hello World!");

    // Check 'foo' is replicated to central
    sync_plain(&mut repl, &mut local_db, &mut central_db);
    assert!(central_db.get_document("foo").is_ok());

    // Stop replication on DB 1
    disconnect(&mut repl);

    // Modify 'foo' in central
    let mut foo = central_db.get_document("foo").unwrap();
    foo.mutable_properties().at("i").put_i64(i2);
    central_db
        .save_document_with_concurency_control(&mut foo, ConcurrencyControl::FailOnConflict)
        .expect("save");

    // Fetch 'foo' in DB 1
    let mut foo = local_db.get_document("foo").unwrap();

    // Restart replication
    connect(&mut repl);
    sync_plain(&mut repl, &mut local_db, &mut central_db);

    // Check central version of 'foo' is replicated to DB 1
    assert_eq!(value_of_i(&local_db, "foo"), i2);

    // Modify 'foo' in DB1 from outdated document
    foo.mutable_properties().at("i").put_i64(i1);
    assert!(local_db
        .save_document_resolving(&mut foo, move |_: &mut Document, _: &Document| false)
        .is_err());

    // Assert conflict was resolved by keeping central's version
    assert_eq!(value_of_i(&local_db, "foo"), i2);

    // Check 'foo' was unchanged in central
    sync_plain(&mut repl, &mut local_db, &mut central_db);
    assert_eq!(value_of_i(&central_db, "foo"), i2);
}

// A replicator that is not continuous moves nothing before it is started.
#[test]
fn continuous() {
    let config = TestConfiguration {
        continuous: false,
        ..default_configuration()
    };
    let mut local_db = Database::open("local", None).unwrap();
    let mut central_db = Database::open("central", None).unwrap();
    let mut repl = replicator(&local_db, &central_db, config);

    // Save doc
    add_doc(&mut local_db, "foo", 1234, "Hello World!");

    // Check the replication process is not running automatically
    sync_plain(&mut repl, &mut local_db, &mut central_db);
    assert!(!central_db.get_document("foo").is_ok());

    // Manually trigger the replication
    connect(&mut repl);
    sync_plain(&mut repl, &mut local_db, &mut central_db);

    // Check the replication was successful
    assert!(central_db.get_document("foo").is_ok());

    // Its run being done, it stops.
    assert_eq!(repl.handle(ReplicatorEvent::CaughtUp), ReplicatorAction::Disconnect);
    assert_eq!(repl.status().activity, ReplicatorActivityLevel::Stopped);
}

#[test]
fn pending_documents() {
    let mut local_db = Database::open("local", None).unwrap();
    let mut central_db = Database::open("central", None).unwrap();
    let mut repl = replicator(&local_db, &central_db, default_configuration());
    add_doc(&mut local_db, "a", 1, "x");
    add_doc(&mut local_db, "b", 2, "y");
    assert_eq!(repl.pending_document_ids(&local_db).unwrap(), vec!["a", "b"]);
    for id in ["a", "b", "c"] {
        assert_eq!(
            repl.is_document_pending(&local_db, id).unwrap(),
            repl.pending_document_ids(&local_db).unwrap().iter().any(|p| p == id)
        );
    }
    let only_a = Some(|d: &Document, _: bool, _: bool| d.id() == "a");
    repl.push(&only_a, &local_db, &mut central_db);
    // what the filter held back is looked at no more
    assert!(repl.pending_document_ids(&local_db).unwrap().is_empty());
    assert!(!repl.is_document_pending(&local_db, "b").unwrap());
    assert!(central_db.get_document("b").is_err());
    // until the replicator starts anew and forgets how far it had looked
    disconnect(&mut repl);
    assert_eq!(repl.start(true), ReplicatorAction::Connect);
    repl.handle(ReplicatorEvent::Connected { work_pending: true });
    assert_eq!(repl.pending_document_ids(&local_db).unwrap(), vec!["b"]);
    assert_eq!(repl.mark("a"), (1, 1));
    assert_eq!(repl.mark("b"), (0, 0));
}

#[test]
fn access_removed_purges_unless_disabled() {
    let mut local_db = Database::open("local", None).unwrap();
    let central_db = Database::open("central", None).unwrap();
    add_doc(&mut local_db, "foo", 1, "x");
    let keeps = replicator(&local_db, &central_db, default_configuration());
    let report = keeps.access_removed("foo", &mut local_db);
    assert_eq!(report.flags, couchbase_lite::replicator::ACCESS_REMOVED);
    assert!(local_db.get_document("foo").is_ok());

    let mut purges = Replicator::new(ReplicatorConfiguration {
        database: "local".to_string(),
        endpoint: Endpoint::new_with_local_db(&central_db),
        replicator_type: ReplicatorType::Pull,
        continuous: true,
        disable_auto_purge: false,
        max_attempts: 0,
        max_attempt_wait_time: 0,
        heartbeat: 0,
        authenticator: None,
        proxy: None,
        headers: vec![("X-Token".to_string(), "abc".to_string())],
        pinned_server_certificate: None,
        trusted_root_certificates: None,
        channels: MutableArray::default(),
        document_ids: MutableArray::default(),
    })
    .unwrap();
    assert_eq!(purges.headers().get("X-Token").as_string(), Some("abc"));
    assert_eq!(purges.config().heartbeat_seconds(), 300);
    purges.start(false);
    let report = purges.access_removed("foo", &mut local_db);
    assert_eq!(report.id, "foo");
    assert!(local_db.get_document("foo").is_err());
}
