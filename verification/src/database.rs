//! The document store: documents by id, each with the sequence of its latest
//! revision, and the rules of saving, deleting, purging and expiring them.

use crate::document::{ConcurrencyControl, Document, DocumentModel};
use crate::error::{CouchbaseLiteError, Error, ErrorCode};
use crate::fleece::{Entries, ValueModel};
use crate::fleece_mutable::{MutableArray, MutableDict};
use crate::index::ValueIndexConfiguration;
use crate::text::same_text;
use crate::Timestamp;
use vstd::prelude::*;

verus! {

/// What the store holds of one document, as mathematics.
pub ghost struct RecordModel {
    /// The sequence of the document's latest revision.
    pub sequence: u64,
    /// True for a deleted document, of which only a tombstone is left.
    pub deleted: bool,
    /// The properties of the latest revision; none for a tombstone.
    pub properties: Entries,
    /// When the document expires, in milliseconds since the Unix epoch; 0 for
    /// a document that does not expire.
    pub expiration: i64,
}

/// The documents of a store, as mathematics: pairs of an id and a record, no id
/// twice.
pub type Store = Seq<(Seq<char>, RecordModel)>;

/// True when the store holds a record under `id`.
pub open spec fn store_has(store: Store, id: Seq<char>) -> bool {
    exists|i: int| 0 <= i < store.len() && (#[trigger] store[i]).0 == id
}

/// A position of `id` in the store.
pub open spec fn store_index(store: Store, id: Seq<char>) -> int {
    choose|i: int| 0 <= i < store.len() && (#[trigger] store[i]).0 == id
}

/// The record under `id`.
pub open spec fn store_get(store: Store, id: Seq<char>) -> RecordModel {
    store[store_index(store, id)].1
}

/// The store with `record` under `id`, in place of the old record or as a new
/// one.
pub open spec fn store_put(store: Store, id: Seq<char>, record: RecordModel) -> Store {
    if store_has(store, id) {
        store.update(store_index(store, id), (id, record))
    } else {
        store.push((id, record))
    }
}

/// The store without `id`.
pub open spec fn store_remove(store: Store, id: Seq<char>) -> Store {
    if store_has(store, id) {
        store.remove(store_index(store, id))
    } else {
        store
    }
}

/// No id occurs twice in the store.
pub open spec fn store_ids_unique(store: Store) -> bool {
    forall|i: int, j: int|
        0 <= i < store.len() && 0 <= j < store.len() && i != j ==> (#[trigger] store[i]).0 != (
        #[trigger] store[j]).0
}

/// The number of documents in the store that are not deleted.
pub open spec fn store_live_count(store: Store) -> nat
    decreases store.len(),
{
    if store.len() == 0 {
        0
    } else {
        store_live_count(store.drop_last()) + (if store.last().1.deleted {
            0nat
        } else {
            1nat
        })
    }
}

/// The validity of a store with the latest sequence `last`: no id twice; every
/// sequence between 1 and `last`; no sequence twice; a tombstone without
/// properties; and valid properties throughout.
pub open spec fn store_wf(store: Store, last: u64) -> bool {
    &&& store_ids_unique(store)
    &&& forall|i: int| 0 <= i < store.len() ==> 1 <= (#[trigger] store[i]).1.sequence <= last
    &&& forall|i: int, j: int|
        0 <= i < store.len() && 0 <= j < store.len() && i != j ==> (#[trigger] store[i]).1.sequence
            != (#[trigger] store[j]).1.sequence
    &&& forall|i: int|
        0 <= i < store.len() ==> ((#[trigger] store[i]).1.deleted ==> store[i].1.properties.len()
            == 0)
    &&& forall|i: int|
        0 <= i < store.len() ==> crate::fleece::model_wf(
            ValueModel::Dict((#[trigger] store[i]).1.properties),
        )
}

/// In a store without repeated ids, the record at position `i` is the record
/// under its id.
pub proof fn lemma_store_at(store: Store, i: int)
    requires
        store_ids_unique(store),
        0 <= i < store.len(),
    ensures
        store_has(store, store[i].0),
        store_index(store, store[i].0) == i,
        store_get(store, store[i].0) == store[i].1,
{
    assert(store_has(store, store[i].0));
    let j = store_index(store, store[i].0);
    assert(store[j].0 == store[i].0);
}

/// After a put, the id holds the record and every other id is as it was.
pub proof fn lemma_store_put(store: Store, id: Seq<char>, record: RecordModel)
    requires
        store_ids_unique(store),
    ensures
        store_ids_unique(store_put(store, id, record)),
        store_has(store_put(store, id, record), id),
        store_get(store_put(store, id, record), id) == record,
        forall|other: Seq<char>|
            other != id ==> store_has(store_put(store, id, record), other) == store_has(
                store,
                other,
            ) && (store_has(store, other) ==> store_get(store_put(store, id, record), other)
                == store_get(store, other)),
{
    let after = store_put(store, id, record);
    if store_has(store, id) {
        let i = store_index(store, id);
        assert forall|a: int, b: int|
            0 <= a < after.len() && 0 <= b < after.len() && a != b implies (#[trigger] after[a]).0
            != (#[trigger] after[b]).0 by {
            assert(after[a].0 == store[a].0 && after[b].0 == store[b].0);
        }
        assert(after[i] == (id, record));
        lemma_store_at(after, i);
        assert forall|other: Seq<char>| other != id implies store_has(after, other) == store_has(
            store,
            other,
        ) && (store_has(store, other) ==> store_get(after, other) == store_get(store, other)) by {
            if store_has(store, other) {
                let j = store_index(store, other);
                assert(after[j] == store[j]);
                lemma_store_at(after, j);
            }
            if store_has(after, other) {
                let j = store_index(after, other);
                assert(after[j].0 == store[j].0);
            }
        }
    } else {
        let i = store.len() as int;
        assert forall|a: int, b: int|
            0 <= a < after.len() && 0 <= b < after.len() && a != b implies (#[trigger] after[a]).0
            != (#[trigger] after[b]).0 by {
            if a < i {
                assert(after[a] == store[a]);
            }
            if b < i {
                assert(after[b] == store[b]);
            }
        }
        assert(after[i] == (id, record));
        lemma_store_at(after, i);
        assert forall|other: Seq<char>| other != id implies store_has(after, other) == store_has(
            store,
            other,
        ) && (store_has(store, other) ==> store_get(after, other) == store_get(store, other)) by {
            if store_has(store, other) {
                let j = store_index(store, other);
                assert(after[j] == store[j]);
                lemma_store_at(after, j);
            }
            if store_has(after, other) {
                let j = store_index(after, other);
                assert(j < i);
                assert(after[j] == store[j]);
            }
        }
    }
}

/// After a removal, the id is gone and every other id is as it was.
pub proof fn lemma_store_remove(store: Store, id: Seq<char>)
    requires
        store_ids_unique(store),
    ensures
        store_ids_unique(store_remove(store, id)),
        !store_has(store_remove(store, id), id),
        forall|other: Seq<char>|
            other != id ==> store_has(store_remove(store, id), other) == store_has(store, other)
                && (store_has(store, other) ==> store_get(store_remove(store, id), other)
                == store_get(store, other)),
{
    let after = store_remove(store, id);
    if store_has(store, id) {
        let i = store_index(store, id);
        assert forall|a: int| 0 <= a < after.len() implies #[trigger] after[a] == store[if a < i {
            a
        } else {
            a + 1
        }] by {}
        assert forall|a: int, b: int|
            0 <= a < after.len() && 0 <= b < after.len() && a != b implies (#[trigger] after[a]).0
            != (#[trigger] after[b]).0 by {
            let pa = if a < i { a } else { a + 1 };
            let pb = if b < i { b } else { b + 1 };
            assert(store[pa].0 != store[pb].0);
        }
        if store_has(after, id) {
            let j = store_index(after, id);
            let pj = if j < i { j } else { j + 1 };
            assert(store[pj].0 == store[i].0);
        }
        assert forall|other: Seq<char>| other != id implies store_has(after, other) == store_has(
            store,
            other,
        ) && (store_has(store, other) ==> store_get(after, other) == store_get(store, other)) by {
            if store_has(store, other) {
                let j = store_index(store, other);
                let q = if j < i { j } else { j - 1 };
                assert(after[q] == store[j]);
                lemma_store_at(after, q);
            }
            if store_has(after, other) {
                let j = store_index(after, other);
                let pj = if j < i { j } else { j + 1 };
                assert(store[pj].0 == other);
            }
        }
    }
}


/// What a database is, as mathematics.
pub ghost struct DatabaseModel {
    /// The stored documents.
    pub documents: Store,
    /// The sequence of the latest change; 0 for a database without changes.
    pub last_sequence: u64,
    /// How many transactions are open, one inside the other.
    pub transaction_depth: u64,
    /// What the outermost open transaction found: the documents and the latest
    /// sequence to go back to. `None` outside transactions.
    pub snapshot: Option<(Store, u64)>,
    /// True while notifications are held back.
    pub buffering: bool,
    /// The ids whose change notifications are held back, oldest first.
    pub pending: Seq<Seq<char>>,
    /// The ids whose change notifications are due to the listeners, oldest
    /// first.
    pub ready: Seq<Seq<char>>,
}

/// The error of a store that has used up its sequence numbers: the storage
/// layer's "database is full".
pub open spec fn spec_full_error() -> Error {
    Error { code: ErrorCode::SQLite(13), internal_info: None }
}

/// The database with a change notification for `id` added: held back while the
/// database buffers, else due at once.
pub open spec fn noted(db: DatabaseModel, id: Seq<char>) -> DatabaseModel {
    if db.buffering {
        DatabaseModel { pending: db.pending.push(id), ..db }
    } else {
        DatabaseModel { ready: db.ready.push(id), ..db }
    }
}

/// A save of `doc` conflicts when the store holds a revision of the document
/// other than the one that `doc` was loaded with.
pub open spec fn conflicts(db: DatabaseModel, doc: DocumentModel) -> bool {
    store_has(db.documents, doc.id) && store_get(db.documents, doc.id).sequence != doc.sequence
}

/// When the document with `id` expires, as the store has it; 0 for a document
/// that the store does not hold.
pub open spec fn kept_expiration(db: DatabaseModel, id: Seq<char>) -> i64 {
    if store_has(db.documents, id) {
        store_get(db.documents, id).expiration
    } else {
        0
    }
}

/// Why a save fails, if it does: with a conflict where the caller asked to fail
/// on one, and with "database full" where no sequence number is left.
pub open spec fn save_error(
    db: DatabaseModel,
    doc: DocumentModel,
    concurrency: ConcurrencyControl,
) -> Option<Error> {
    if concurrency == ConcurrencyControl::FailOnConflict && conflicts(db, doc) {
        Some(Error::spec_cbl_error(CouchbaseLiteError::Conflict))
    } else if db.last_sequence == u64::MAX {
        Some(spec_full_error())
    } else {
        None
    }
}

/// The database after a save of `doc`: the document's record holds the next
/// sequence and the document's properties, keeps its expiration, and is no
/// tombstone; a change notification is added.
pub open spec fn after_save(db: DatabaseModel, doc: DocumentModel) -> DatabaseModel {
    noted(
        DatabaseModel {
            documents: store_put(
                db.documents,
                doc.id,
                RecordModel {
                    sequence: (db.last_sequence + 1) as u64,
                    deleted: false,
                    properties: doc.properties,
                    expiration: kept_expiration(db, doc.id),
                },
            ),
            last_sequence: (db.last_sequence + 1) as u64,
            ..db
        },
        doc.id,
    )
}

/// Why a deletion fails, if it does: the store does not hold the document; or
/// as a save.
pub open spec fn delete_error(
    db: DatabaseModel,
    doc: DocumentModel,
    concurrency: ConcurrencyControl,
) -> Option<Error> {
    if !store_has(db.documents, doc.id) {
        Some(Error::spec_cbl_error(CouchbaseLiteError::NotFound))
    } else {
        save_error(db, doc, concurrency)
    }
}

/// The database after a deletion: the document's record is a tombstone with the
/// next sequence; a change notification is added.
pub open spec fn after_delete(db: DatabaseModel, id: Seq<char>) -> DatabaseModel {
    noted(
        DatabaseModel {
            documents: store_put(
                db.documents,
                id,
                RecordModel {
                    sequence: (db.last_sequence + 1) as u64,
                    deleted: true,
                    properties: Seq::empty(),
                    expiration: kept_expiration(db, id),
                },
            ),
            last_sequence: (db.last_sequence + 1) as u64,
            ..db
        },
        id,
    )
}

/// The database after a purge: the record is gone, without a tombstone and
/// without a new sequence; a change notification is added.
pub open spec fn after_purge(db: DatabaseModel, id: Seq<char>) -> DatabaseModel {
    noted(DatabaseModel { documents: store_remove(db.documents, id), ..db }, id)
}

/// The database with the expiration of the document `id` set to `when`.
pub open spec fn after_expiration(db: DatabaseModel, id: Seq<char>, when: i64) -> DatabaseModel {
    DatabaseModel {
        documents: store_put(
            db.documents,
            id,
            RecordModel { expiration: when, ..store_get(db.documents, id) },
        ),
        ..db
    }
}

/// The expiration that a request stands for: the time asked for, and 0, "does
/// not expire", for none.
pub open spec fn requested_expiration(when: Option<Timestamp>) -> i64 {
    match when {
        Some(t) => t.0,
        None => 0,
    }
}

/// The expiration that the store reports for `id`: none for a document without
/// one, and none for a document that the store does not hold.
pub open spec fn reported_expiration(db: DatabaseModel, id: Seq<char>) -> Option<i64> {
    if kept_expiration(db, id) == 0 {
        None
    } else {
        Some(kept_expiration(db, id))
    }
}

/// The validity of a database: a valid store; inside transactions, and only
/// there, a valid snapshot.
pub open spec fn database_wf(db: DatabaseModel) -> bool {
    &&& store_wf(db.documents, db.last_sequence)
    &&& db.transaction_depth > 0 <==> db.snapshot is Some
    &&& db.snapshot matches Some(s) ==> store_wf(s.0, s.1)
}

/// What the store holds of one document.
#[derive(Debug)]
pub struct Record {
    pub(crate) id: String,
    pub(crate) sequence: u64,
    pub(crate) deleted: bool,
    pub(crate) properties: MutableDict,
    pub(crate) expiration: i64,
}

/// A database: documents by id.
#[derive(Debug)]
pub struct Database {
    pub(crate) name: String,
    pub(crate) records: Vec<Record>,
    pub(crate) last_sequence: u64,
    pub(crate) depth: u64,
    pub(crate) snapshot: Option<(Vec<Record>, u64)>,
    pub(crate) buffering: bool,
    pub(crate) pending: Vec<String>,
    pub(crate) ready: Vec<String>,
    pub(crate) indexes: Vec<(String, ValueIndexConfiguration)>,
}

/// The model of a record.
pub closed spec fn record_model(r: Record) -> RecordModel {
    RecordModel {
        sequence: r.sequence,
        deleted: r.deleted,
        properties: r.properties.spec_entries(),
        expiration: r.expiration,
    }
}

/// The model of the records of a store.
pub closed spec fn records_model(s: Seq<Record>) -> Store {
    Seq::new(s.len(), |i: int| (s[i].id@, record_model(s[i])))
}

/// The characters of each string.
pub open spec fn texts(s: Seq<String>) -> Seq<Seq<char>> {
    Seq::new(s.len(), |i: int| s[i]@)
}

impl View for Database {
    type V = DatabaseModel;

    closed spec fn view(&self) -> DatabaseModel {
        DatabaseModel {
            documents: records_model(self.records@),
            last_sequence: self.last_sequence,
            transaction_depth: self.depth,
            snapshot: match self.snapshot {
                Some(s) => Some((records_model(s.0@), s.1)),
                None => None,
            },
            buffering: self.buffering,
            pending: texts(self.pending@),
            ready: texts(self.ready@),
        }
    }
}

/// Finds the record of `id`.
fn find_record(records: &Vec<Record>, id: &str) -> (r: Option<usize>)
    ensures
        r matches Some(i) ==> i < records.len() && records@[i as int].id@ == id@,
        r is None ==> forall|j: int| 0 <= j < records.len() ==> records@[j].id@ != id@,
        r is Some <==> store_has(records_model(records@), id@),
        r matches Some(i) ==> records_model(records@)[i as int].0 == id@,
{
    let mut i: usize = 0;
    while i < records.len()
        invariant
            i <= records.len(),
            forall|j: int| 0 <= j < i ==> records@[j].id@ != id@,
        decreases records.len() - i,
    {
        if same_text(records[i].id.as_str(), id) {
            assert(records_model(records@)[i as int].0 == id@);
            return Some(i);
        }
        i += 1;
    }
    proof {
        let store = records_model(records@);
        if store_has(store, id@) {
            let j = store_index(store, id@);
            assert(store[j].0 == records@[j].id@);
        }
    }
    None
}

/// A copy of the records that shares nothing with them.
fn copy_records(records: &Vec<Record>) -> (r: Vec<Record>)
    ensures
        records_model(r@) == records_model(records@),
{
    let mut out: Vec<Record> = Vec::new();
    let mut i: usize = 0;
    while i < records.len()
        invariant
            i <= records.len(),
            out@.len() == i,
            forall|j: int|
                0 <= j < i ==> out@[j].id@ == records@[j].id@ && record_model(out@[j])
                    == record_model(records@[j]),
        decreases records.len() - i,
    {
        let r = &records[i];
        let copy = Record {
            id: r.id.clone(),
            sequence: r.sequence,
            deleted: r.deleted,
            properties: r.properties.duplicate(),
            expiration: r.expiration,
        };
        out.push(copy);
        i += 1;
    }
    assert(records_model(out@) =~= records_model(records@));
    out
}

impl Database {
    /// The validity of the database: that of its model.
    pub open spec fn wf(&self) -> bool {
        database_wf(self@)
    }

    /// The name that the database was opened under.
    pub closed spec fn spec_name(&self) -> Seq<char> {
        self.name@
    }

    /// The names of the indexes, in the order in which the indexes were made.
    pub closed spec fn spec_index_names(&self) -> Seq<Seq<char>> {
        Seq::new(self.indexes@.len(), |i: int| self.indexes@[i].0@)
    }

    /// A new, empty database under `name`. It holds no document and no index,
    /// is in no transaction, and delivers notifications as changes happen.
    pub fn new(name: &str) -> (db: Database)
        ensures
            db.spec_index_names() == Seq::<Seq<char>>::empty(),
            db@ == (DatabaseModel {
                documents: Seq::empty(),
                last_sequence: 0,
                transaction_depth: 0,
                snapshot: None,
                buffering: false,
                pending: Seq::empty(),
                ready: Seq::empty(),
            }),
            db.spec_name() == name@,
            db.wf(),
    {
        let db = Database {
            name: name.to_owned(),
            records: Vec::new(),
            last_sequence: 0,
            depth: 0,
            snapshot: None,
            buffering: false,
            pending: Vec::new(),
            ready: Vec::new(),
            indexes: Vec::new(),
        };
        assert(records_model(db.records@) =~= Seq::empty());
        assert(db.spec_index_names() =~= Seq::empty());
        assert(texts(db.pending@) =~= Seq::empty());
        assert(texts(db.ready@) =~= Seq::empty());
        db
    }

    /// The database's name.
    pub fn name(&self) -> (r: &str)
        ensures
            r@ == self.spec_name(),
    {
        self.name.as_str()
    }

    /// The sequence of the latest change; 0 for a database without changes.
    pub fn last_sequence(&self) -> (r: u64)
        ensures
            r == self@.last_sequence,
    {
        self.last_sequence
    }

    /// The number of documents, not counting deleted ones.
    pub fn count(&self) -> (n: u64)
        ensures
            n == store_live_count(self@.documents),
    {
        let mut n: u64 = 0;
        let mut i: usize = 0;
        let ghost store = records_model(self.records@);
        assert(store.subrange(0, 0) =~= Seq::empty());
        while i < self.records.len()
            invariant
                i <= self.records.len(),
                store == records_model(self.records@),
                n == store_live_count(store.subrange(0, i as int)),
                n <= i,
            decreases self.records.len() - i,
        {
            proof {
                let next = store.subrange(0, i + 1);
                assert(next.drop_last() =~= store.subrange(0, i as int));
                assert(next.last() == store[i as int]);
            }
            if !self.records[i].deleted {
                n = n + 1;
            }
            i += 1;
        }
        assert(store.subrange(0, i as int) =~= store);
        n
    }

    /// Reads a document: a fresh copy of what the store holds under `id`, a
    /// tombstone included. Fails with `NotFound` where the store holds nothing
    /// under `id`.
    pub fn get_document(&self, id: &str) -> (r: Result<Document, Error>)
        requires
            self.wf(),
        ensures
            store_has(self@.documents, id@) ==> (r matches Ok(doc) && doc.wf() && doc@ == (
            DocumentModel {
                id: id@,
                sequence: store_get(self@.documents, id@).sequence,
                properties: store_get(self@.documents, id@).properties,
            })),
            !store_has(self@.documents, id@) ==> r == Err::<Document, Error>(
                Error::spec_cbl_error(CouchbaseLiteError::NotFound),
            ),
    {
        match find_record(&self.records, id) {
            Some(i) => {
                proof {
                    lemma_store_at(records_model(self.records@), i as int);
                    self.records@[i as int].properties.lemma_view_is_dict();
                }
                let rec = &self.records[i];
                Ok(Document::wrap(rec.id.clone(), rec.sequence, rec.properties.duplicate()))
            },
            None => Err(Error::cbl_error(CouchbaseLiteError::NotFound)),
        }
    }

    /// Adds a change notification for `id`.
    fn note(&mut self, id: &str)
        ensures
            final(self)@ == noted(old(self)@, id@),
            final(self).spec_name() == old(self).spec_name(),
            final(self).spec_index_names() == old(self).spec_index_names(),
    {
        if self.buffering {
            self.pending.push(id.to_owned());
            assert(texts(self.pending@) =~= texts(old(self).pending@).push(id@));
        } else {
            self.ready.push(id.to_owned());
            assert(texts(self.ready@) =~= texts(old(self).ready@).push(id@));
        }
    }

    /// Puts a record with the next sequence under `id`.
    fn write(&mut self, id: &str, deleted: bool, properties: MutableDict)
        requires
            old(self).wf(),
            properties.wf(),
            old(self)@.last_sequence < u64::MAX,
            deleted ==> properties.spec_entries().len() == 0,
        ensures
            final(self).wf(),
            final(self)@ == (DatabaseModel {
                documents: store_put(
                    old(self)@.documents,
                    id@,
                    RecordModel {
                        sequence: (old(self)@.last_sequence + 1) as u64,
                        deleted,
                        properties: properties.spec_entries(),
                        expiration: kept_expiration(old(self)@, id@),
                    },
                ),
                last_sequence: (old(self)@.last_sequence + 1) as u64,
                ..old(self)@
            }),
            final(self).spec_name() == old(self).spec_name(),
            final(self).spec_index_names() == old(self).spec_index_names(),
    {
        let ghost before = records_model(self.records@);
        let sequence = self.last_sequence + 1;
        proof {
            properties.lemma_view_is_dict();
        }
        match find_record(&self.records, id) {
            Some(i) => {
                proof {
                    lemma_store_at(before, i as int);
                }
                let expiration = self.records[i].expiration;
                let record = Record { id: id.to_owned(), sequence, deleted, properties, expiration };
                let ghost model = record_model(record);
                self.records.set(i, record);
                proof {
                    let after = records_model(self.records@);
                    assert(after =~= before.update(i as int, (id@, model)));
                    lemma_store_put(before, id@, model);
                    assert forall|a: int, b: int|
                        0 <= a < after.len() && 0 <= b < after.len() && a != b implies (
                    #[trigger] after[a]).1.sequence != (#[trigger] after[b]).1.sequence by {
                        if a != i {
                            assert(after[a] == before[a]);
                        }
                        if b != i {
                            assert(after[b] == before[b]);
                        }
                    }
                    assert forall|a: int| 0 <= a < after.len() implies 1 <= (
                    #[trigger] after[a]).1.sequence <= sequence && (after[a].1.deleted
                        ==> after[a].1.properties.len() == 0) && crate::fleece::model_wf(
                        ValueModel::Dict(after[a].1.properties),
                    ) by {
                        if a != i {
                            assert(after[a] == before[a]);
                        }
                    }
                }
            },
            None => {
                let record = Record {
                    id: id.to_owned(),
                    sequence,
                    deleted,
                    properties,
                    expiration: 0,
                };
                let ghost model = record_model(record);
                self.records.push(record);
                proof {
                    let after = records_model(self.records@);
                    assert(after =~= before.push((id@, model)));
                    lemma_store_put(before, id@, model);
                    assert forall|a: int, b: int|
                        0 <= a < after.len() && 0 <= b < after.len() && a != b implies (
                    #[trigger] after[a]).1.sequence != (#[trigger] after[b]).1.sequence by {
                        if a < before.len() {
                            assert(after[a] == before[a]);
                        }
                        if b < before.len() {
                            assert(after[b] == before[b]);
                        }
                    }
                    assert forall|a: int| 0 <= a < after.len() implies 1 <= (
                    #[trigger] after[a]).1.sequence <= sequence && (after[a].1.deleted
                        ==> after[a].1.properties.len() == 0) && crate::fleece::model_wf(
                        ValueModel::Dict(after[a].1.properties),
                    ) by {
                        if a < before.len() {
                            assert(after[a] == before[a]);
                        }
                    }
                }
            },
        }
        self.last_sequence = sequence;
    }

    /// True when a save of `doc` would conflict: the store holds a revision of
    /// the document other than the one that `doc` was loaded with.
    pub fn is_conflict(&self, doc: &Document) -> (r: bool)
        requires
            self.wf(),
        ensures
            r == conflicts(self@, doc@),
    {
        match find_record(&self.records, doc.id()) {
            Some(i) => {
                proof {
                    lemma_store_at(records_model(self.records@), i as int);
                }
                self.records[i].sequence != doc.sequence()
            },
            None => false,
        }
    }

    /// Saves a new or changed document. A revision that someone else has saved
    /// since `doc` was loaded is overwritten.
    pub fn save_document(&mut self, doc: &mut Document) -> (r: Result<(), Error>)
        requires
            old(self).wf(),
            old(doc).wf(),
        ensures
            final(self).wf(),
            final(doc).wf(),
            final(self).spec_name() == old(self).spec_name(),
            final(self).spec_index_names() == old(self).spec_index_names(),
            match save_error(old(self)@, old(doc)@, ConcurrencyControl::LastWriteWins) {
                Some(e) => r == Err::<(), Error>(e) && final(self)@ == old(self)@ && final(doc)@
                    == old(doc)@,
                None => r is Ok && final(self)@ == after_save(old(self)@, old(doc)@) && final(doc)@ == (DocumentModel {
                    sequence: (old(self)@.last_sequence + 1) as u64,
                    ..old(doc)@
                }),
            },
    {
        self.save_document_with_concurency_control(doc, ConcurrencyControl::LastWriteWins)
    }

    /// Saves a new or changed document. Where someone else has saved a revision
    /// since `doc` was loaded, `concurrency` decides: the save fails with
    /// `Conflict` and changes nothing, or it overwrites that revision. A saved
    /// document holds the new sequence, one above the database's latest.
    pub fn save_document_with_concurency_control(
        &mut self,
        doc: &mut Document,
        concurrency: ConcurrencyControl,
    ) -> (r: Result<(), Error>)
        requires
            old(self).wf(),
            old(doc).wf(),
        ensures
            final(self).wf(),
            final(doc).wf(),
            final(self).spec_name() == old(self).spec_name(),
            final(self).spec_index_names() == old(self).spec_index_names(),
            match save_error(old(self)@, old(doc)@, concurrency) {
                Some(e) => r == Err::<(), Error>(e) && final(self)@ == old(self)@ && final(doc)@
                    == old(doc)@,
                None => r is Ok && final(self)@ == after_save(old(self)@, old(doc)@) && final(doc)@ == (DocumentModel {
                    sequence: (old(self)@.last_sequence + 1) as u64,
                    ..old(doc)@
                }),
            },
    {
        proof {
            doc.lemma_properties();
        }
        let fail = match concurrency {
            ConcurrencyControl::FailOnConflict => true,
            ConcurrencyControl::LastWriteWins => false,
        };
        if fail && self.is_conflict(doc) {
            return Err(Error::cbl_error(CouchbaseLiteError::Conflict));
        }
        if self.last_sequence == u64::MAX {
            return Err(Error { code: ErrorCode::SQLite(13), internal_info: None });
        }
        let properties = doc.properties().mutable_copy();
        proof {
            properties.lemma_view_is_dict();
        }
        let id = doc.id().to_owned();
        self.write(id.as_str(), false, properties);
        self.note(id.as_str());
        doc.set_sequence(self.last_sequence);
        Ok(())
    }
}


/// The database after a transaction has been begun: one deeper, and where it
/// was in none, with a snapshot of its documents to go back to.
pub open spec fn after_begin(db: DatabaseModel) -> DatabaseModel {
    DatabaseModel {
        transaction_depth: (db.transaction_depth + 1) as u64,
        snapshot: if db.transaction_depth == 0 {
            Some((db.documents, db.last_sequence))
        } else {
            db.snapshot
        },
        ..db
    }
}

/// The database after a transaction has been ended: one less deep. Only the end
/// of the outermost transaction takes effect: committed, it keeps what was done;
/// not committed, it goes back to the snapshot.
pub open spec fn after_end(db: DatabaseModel, commit: bool) -> DatabaseModel {
    if db.transaction_depth > 1 {
        DatabaseModel { transaction_depth: (db.transaction_depth - 1) as u64, ..db }
    } else if commit {
        DatabaseModel { transaction_depth: 0, snapshot: None, ..db }
    } else {
        let found = db.snapshot.unwrap();
        DatabaseModel {
            documents: found.0,
            last_sequence: found.1,
            transaction_depth: 0,
            snapshot: None,
            ..db
        }
    }
}

impl Database {
    /// Deletes a document: its record becomes a tombstone, which replication
    /// carries on. A revision that someone else has saved since `doc` was loaded
    /// is overwritten.
    pub fn delete_document(&mut self, doc: &Document) -> (r: Result<(), Error>)
        requires
            old(self).wf(),
        ensures
            final(self).wf(),
            final(self).spec_name() == old(self).spec_name(),
            final(self).spec_index_names() == old(self).spec_index_names(),
            match delete_error(old(self)@, doc@, ConcurrencyControl::LastWriteWins) {
                Some(e) => r == Err::<(), Error>(e) && final(self)@ == old(self)@,
                None => r is Ok && final(self)@ == after_delete(old(self)@, doc@.id),
            },
    {
        self.delete_document_with_concurency_control(doc, ConcurrencyControl::LastWriteWins)
    }

    /// Deletes a document, as `delete_document`; where someone else has saved a
    /// revision since `doc` was loaded, `concurrency` decides. Fails with
    /// `NotFound` where the store does not hold the document.
    pub fn delete_document_with_concurency_control(
        &mut self,
        doc: &Document,
        concurrency: ConcurrencyControl,
    ) -> (r: Result<(), Error>)
        requires
            old(self).wf(),
        ensures
            final(self).wf(),
            final(self).spec_name() == old(self).spec_name(),
            final(self).spec_index_names() == old(self).spec_index_names(),
            match delete_error(old(self)@, doc@, concurrency) {
                Some(e) => r == Err::<(), Error>(e) && final(self)@ == old(self)@,
                None => r is Ok && final(self)@ == after_delete(old(self)@, doc@.id),
            },
    {
        if find_record(&self.records, doc.id()).is_none() {
            return Err(Error::cbl_error(CouchbaseLiteError::NotFound));
        }
        let fail = match concurrency {
            ConcurrencyControl::FailOnConflict => true,
            ConcurrencyControl::LastWriteWins => false,
        };
        if fail && self.is_conflict(doc) {
            return Err(Error::cbl_error(CouchbaseLiteError::Conflict));
        }
        if self.last_sequence == u64::MAX {
            return Err(Error { code: ErrorCode::SQLite(13), internal_info: None });
        }
        let properties = MutableDict::new();
        proof {
            properties.lemma_view_is_dict();
        }
        self.write(doc.id(), true, properties);
        self.note(doc.id());
        Ok(())
    }

    /// Purges a document: every trace of it leaves the store, and no tombstone
    /// stays for replication to carry on. Fails with `NotFound` where the store
    /// does not hold the document.
    pub fn purge_document(&mut self, doc: &Document) -> (r: Result<(), Error>)
        requires
            old(self).wf(),
        ensures
            final(self).wf(),
            final(self).spec_name() == old(self).spec_name(),
            final(self).spec_index_names() == old(self).spec_index_names(),
            store_has(old(self)@.documents, doc@.id) ==> r is Ok && final(self)@ == after_purge(
                old(self)@,
                doc@.id,
            ),
            !store_has(old(self)@.documents, doc@.id) ==> r == Err::<(), Error>(
                Error::spec_cbl_error(CouchbaseLiteError::NotFound),
            ) && final(self)@ == old(self)@,
    {
        self.purge_document_by_id(doc.id())
    }

    /// Purges a document, given only its id; as `purge_document`.
    pub fn purge_document_by_id(&mut self, id: &str) -> (r: Result<(), Error>)
        requires
            old(self).wf(),
        ensures
            final(self).wf(),
            final(self).spec_name() == old(self).spec_name(),
            final(self).spec_index_names() == old(self).spec_index_names(),
            store_has(old(self)@.documents, id@) ==> r is Ok && final(self)@ == after_purge(
                old(self)@,
                id@,
            ),
            !store_has(old(self)@.documents, id@) ==> r == Err::<(), Error>(
                Error::spec_cbl_error(CouchbaseLiteError::NotFound),
            ) && final(self)@ == old(self)@,
    {
        let ghost before = records_model(self.records@);
        match find_record(&self.records, id) {
            Some(i) => {
                proof {
                    lemma_store_at(before, i as int);
                    lemma_store_remove(before, id@);
                }
                self.records.remove(i);
                proof {
                    let after = records_model(self.records@);
                    assert(after =~= before.remove(i as int));
                    assert forall|a: int| 0 <= a < after.len() implies #[trigger] after[a]
                        == before[if a < i {
                        a
                    } else {
                        a + 1
                    }] by {}
                    assert forall|a: int, b: int|
                        0 <= a < after.len() && 0 <= b < after.len() && a != b implies (
                    #[trigger] after[a]).1.sequence != (#[trigger] after[b]).1.sequence by {
                        let pa = if a < i { a } else { a + 1 };
                        let pb = if b < i { b } else { b + 1 };
                        assert(before[pa].1.sequence != before[pb].1.sequence);
                    }
                }
                self.note(id);
                Ok(())
            },
            None => Err(Error::cbl_error(CouchbaseLiteError::NotFound)),
        }
    }

    /// When the document with `id` expires; `None` for a document that does not
    /// expire, and for one that the store does not hold.
    pub fn document_expiration(&self, doc_id: &str) -> (r: Result<Option<Timestamp>, Error>)
        requires
            self.wf(),
        ensures
            r matches Ok(when) && (match when {
                Some(t) => Some(t.0),
                None => None,
            }) == reported_expiration(self@, doc_id@),
    {
        match find_record(&self.records, doc_id) {
            Some(i) => {
                proof {
                    lemma_store_at(records_model(self.records@), i as int);
                }
                let e = self.records[i].expiration;
                if e == 0 {
                    Ok(None)
                } else {
                    Ok(Some(Timestamp(e)))
                }
            },
            None => Ok(None),
        }
    }

    /// Sets the time at which the document with `id` expires, or with `None` or
    /// the time 0 makes it expire no more. Fails with `NotFound` where the store
    /// does not hold the document.
    pub fn set_document_expiration(&mut self, doc_id: &str, when: Option<Timestamp>) -> (r: Result<
        (),
        Error,
    >)
        requires
            old(self).wf(),
        ensures
            final(self).wf(),
            final(self).spec_name() == old(self).spec_name(),
            final(self).spec_index_names() == old(self).spec_index_names(),
            store_has(old(self)@.documents, doc_id@) ==> r is Ok && final(self)@
                == after_expiration(old(self)@, doc_id@, requested_expiration(when)),
            !store_has(old(self)@.documents, doc_id@) ==> r == Err::<(), Error>(
                Error::spec_cbl_error(CouchbaseLiteError::NotFound),
            ) && final(self)@ == old(self)@,
    {
        let exp: i64 = match when {
            Some(Timestamp(n)) => n,
            None => 0,
        };
        let ghost before = records_model(self.records@);
        match find_record(&self.records, doc_id) {
            Some(i) => {
                proof {
                    lemma_store_at(before, i as int);
                }
                let old_record = &self.records[i];
                let record = Record {
                    id: old_record.id.clone(),
                    sequence: old_record.sequence,
                    deleted: old_record.deleted,
                    properties: old_record.properties.duplicate(),
                    expiration: exp,
                };
                let ghost model = record_model(record);
                self.records.set(i, record);
                proof {
                    let after = records_model(self.records@);
                    assert(model == (RecordModel { expiration: exp, ..before[i as int].1 }));
                    assert(after =~= before.update(i as int, (doc_id@, model)));
                    lemma_store_put(before, doc_id@, model);
                    assert forall|a: int, b: int|
                        0 <= a < after.len() && 0 <= b < after.len() && a != b implies (
                    #[trigger] after[a]).1.sequence != (#[trigger] after[b]).1.sequence by {
                        assert(after[a].1.sequence == before[a].1.sequence);
                        assert(after[b].1.sequence == before[b].1.sequence);
                    }
                    assert forall|a: int| 0 <= a < after.len() implies 1 <= (
                    #[trigger] after[a]).1.sequence <= self.last_sequence && (after[a].1.deleted
                        ==> after[a].1.properties.len() == 0) && crate::fleece::model_wf(
                        ValueModel::Dict(after[a].1.properties),
                    ) by {
                        assert(after[a].1.sequence == before[a].1.sequence);
                        assert(after[a].1.properties == before[a].1.properties);
                        assert(after[a].1.deleted == before[a].1.deleted);
                    }
                }
                Ok(())
            },
            None => Err(Error::cbl_error(CouchbaseLiteError::NotFound)),
        }
    }

    /// Begins a transaction, inside the open one if there is any. Fails with
    /// `Busy`, and changes nothing, where no deeper transaction can be counted.
    pub fn begin_transaction(&mut self) -> (r: Result<(), Error>)
        requires
            old(self).wf(),
        ensures
            final(self).wf(),
            final(self).spec_name() == old(self).spec_name(),
            final(self).spec_index_names() == old(self).spec_index_names(),
            old(self)@.transaction_depth < u64::MAX ==> r is Ok && final(self)@ == after_begin(
                old(self)@,
            ),
            old(self)@.transaction_depth == u64::MAX ==> r == Err::<(), Error>(
                Error::spec_cbl_error(CouchbaseLiteError::Busy),
            ) && final(self)@ == old(self)@,
    {
        if self.depth == u64::MAX {
            return Err(Error::cbl_error(CouchbaseLiteError::Busy));
        }
        if self.depth == 0 {
            let copy = copy_records(&self.records);
            self.snapshot = Some((copy, self.last_sequence));
        }
        self.depth = self.depth + 1;
        Ok(())
    }

    /// Ends the innermost open transaction. Only the end of the outermost one
    /// takes effect: with `commit` what was done stays, without it the database
    /// goes back to what it held when that transaction began. Fails with
    /// `NotInTransaction`, and changes nothing, where no transaction is open.
    pub fn end_transaction(&mut self, commit: bool) -> (r: Result<(), Error>)
        requires
            old(self).wf(),
        ensures
            final(self).wf(),
            final(self).spec_name() == old(self).spec_name(),
            final(self).spec_index_names() == old(self).spec_index_names(),
            old(self)@.transaction_depth > 0 ==> r is Ok && final(self)@ == after_end(
                old(self)@,
                commit,
            ),
            old(self)@.transaction_depth == 0 ==> r == Err::<(), Error>(
                Error::spec_cbl_error(CouchbaseLiteError::NotInTransaction),
            ) && final(self)@ == old(self)@,
    {
        if self.depth == 0 {
            return Err(Error::cbl_error(CouchbaseLiteError::NotInTransaction));
        }
        if self.depth > 1 {
            self.depth = self.depth - 1;
            return Ok(());
        }
        let snapshot = self.snapshot.take();
        self.depth = 0;
        if !commit {
            match snapshot {
                Some((records, last)) => {
                    self.records = records;
                    self.last_sequence = last;
                },
                None => {},
            }
        }
        Ok(())
    }

    /// True while a transaction is open.
    pub fn in_open_transaction(&self) -> (r: bool)
        ensures
            r == (self@.transaction_depth > 0),
    {
        self.depth > 0
    }

    /// Runs `callback` inside a transaction. The transaction is committed where
    /// the callback returns `Ok`, and not committed where it returns an error;
    /// inside another transaction neither takes effect before that one ends.
    /// The callback's result is returned, unless the transaction cannot be begun
    /// or ended: then that error is.
    pub fn in_transaction<T, F>(&mut self, callback: F) -> (r: Result<T, Error>) where
        F: FnOnce(&mut Database) -> Result<T, Error>,

        requires
            old(self).wf(),
            forall|db: &mut Database| db.wf() ==> call_requires(callback, (db,)),
            forall|db: &mut Database, out: Result<T, Error>|
                db.wf() && call_ensures(callback, (db,), out) ==> final(db).wf() && final(db)@.transaction_depth == db@.transaction_depth && final(db)@.snapshot
                    == db@.snapshot,
        ensures
            final(self).wf(),
            old(self)@.transaction_depth == u64::MAX ==> r == Err::<T, Error>(
                Error::spec_cbl_error(CouchbaseLiteError::Busy),
            ) && final(self)@ == old(self)@,
            old(self)@.transaction_depth < u64::MAX ==> exists|db: &mut Database|
                #![trigger call_ensures(callback, (db,), r)]
                {
                    &&& db@ == after_begin(old(self)@)
                    &&& call_ensures(callback, (db,), r)
                    &&& final(self)@ == after_end(final(db)@, r is Ok)
                },
    {
        match self.begin_transaction() {
            Err(e) => {
                return Err(e);
            },
            Ok(()) => {},
        }
        let result = callback(self);
        let committed = result.is_ok();
        match self.end_transaction(committed) {
            Err(e) => Err(e),
            Ok(()) => result,
        }
    }

    /// Holds change notifications back from now on, until `send_notifications`.
    pub fn buffer_notifications(&mut self)
        ensures
            final(self)@ == (DatabaseModel { buffering: true, ..old(self)@ }),
            final(self).spec_name() == old(self).spec_name(),
            final(self).spec_index_names() == old(self).spec_index_names(),
    {
        self.buffering = true;
    }

    /// Makes every notification that was held back due, in the order of the
    /// changes, behind those that were due already.
    pub fn send_notifications(&mut self)
        ensures
            final(self)@ == (DatabaseModel {
                pending: Seq::empty(),
                ready: old(self)@.ready + old(self)@.pending,
                ..old(self)@
            }),
            final(self).spec_name() == old(self).spec_name(),
            final(self).spec_index_names() == old(self).spec_index_names(),
    {
        let ghost ready0 = texts(self.ready@);
        let ghost pending0 = texts(self.pending@);
        let mut held: Vec<String> = Vec::new();
        std::mem::swap(&mut held, &mut self.pending);
        assert(texts(self.pending@) =~= Seq::empty());
        let mut i: usize = 0;
        while i < held.len()
            invariant
                i <= held.len(),
                texts(held@) == pending0,
                texts(self.ready@) == ready0 + pending0.subrange(0, i as int),
                self.records == old(self).records,
                self.last_sequence == old(self).last_sequence,
                self.depth == old(self).depth,
                self.snapshot == old(self).snapshot,
                self.buffering == old(self).buffering,
                self.name == old(self).name,
                self.indexes == old(self).indexes,
                texts(self.pending@) == Seq::<Seq<char>>::empty(),
            decreases held.len() - i,
        {
            let ghost before = texts(self.ready@);
            self.ready.push(held[i].clone());
            assert(texts(self.ready@) =~= before.push(pending0[i as int]));
            assert(ready0 + pending0.subrange(0, i + 1) =~= (ready0 + pending0.subrange(
                0,
                i as int,
            )).push(pending0[i as int]));
            i += 1;
        }
        assert(pending0.subrange(0, i as int) =~= pending0);
    }

    /// Hands out the ids whose change notifications are due, oldest first, for
    /// the caller to tell its listeners; none is due afterwards.
    pub fn take_notifications(&mut self) -> (ids: Vec<String>)
        ensures
            texts(ids@) == old(self)@.ready,
            final(self)@ == (DatabaseModel { ready: Seq::empty(), ..old(self)@ }),
            final(self).spec_name() == old(self).spec_name(),
            final(self).spec_index_names() == old(self).spec_index_names(),
    {
        let mut due: Vec<String> = Vec::new();
        std::mem::swap(&mut due, &mut self.ready);
        assert(texts(self.ready@) =~= Seq::empty());
        due
    }

    /// Closes the database. Fails with `TransactionNotClosed` while a
    /// transaction is open.
    pub fn close(self) -> (r: Result<(), Error>)
        ensures
            self@.transaction_depth == 0 ==> r is Ok,
            self@.transaction_depth > 0 ==> r == Err::<(), Error>(
                Error::spec_cbl_error(CouchbaseLiteError::TransactionNotClosed),
            ),
    {
        if self.depth > 0 {
            Err(Error::cbl_error(CouchbaseLiteError::TransactionNotClosed))
        } else {
            Ok(())
        }
    }
}


/// What the store holds under `id`, as the document that `get_document` reads.
pub open spec fn stored_document(db: DatabaseModel, id: Seq<char>) -> DocumentModel {
    DocumentModel {
        id,
        sequence: store_get(db.documents, id).sequence,
        properties: store_get(db.documents, id).properties,
    }
}

impl Database {
    /// Saves a new or changed document, and lets `conflict_handler` decide on
    /// a conflict. Without a conflict this is a plain save, and the handler is
    /// not called. On a conflict the handler is called once, with the document
    /// being saved, which it may edit, and the stored document: where it
    /// returns `true` the document as the handler left it is saved over the
    /// stored revision; where it returns `false` the save fails with `Conflict`
    /// and the store stays as it is. On success a copy of the saved document is
    /// returned.
    pub fn save_document_resolving<F>(&mut self, doc: &mut Document, conflict_handler: F) -> (r:
        Result<Document, Error>) where F: Fn(&mut Document, &Document) -> bool
        requires
            old(self).wf(),
            old(doc).wf(),
            forall|mine: &mut Document, theirs: &Document|
                mine.wf() && theirs.wf() ==> call_requires(conflict_handler, (mine, theirs)),
            forall|mine: &mut Document, theirs: &Document, go: bool|
                mine.wf() && call_ensures(conflict_handler, (mine, theirs), go) ==> final(mine).wf() && final(mine)@.id == mine@.id && final(mine)@.sequence == mine@.sequence,
        ensures
            final(self).wf(),
            final(doc).wf(),
            final(self).spec_name() == old(self).spec_name(),
            final(self).spec_index_names() == old(self).spec_index_names(),
            !conflicts(old(self)@, old(doc)@) ==> (match save_error(
                old(self)@,
                old(doc)@,
                ConcurrencyControl::LastWriteWins,
            ) {
                Some(e) => r == Err::<Document, Error>(e) && final(self)@ == old(self)@ && final(doc)@ == old(doc)@,
                None => (r matches Ok(saved) && saved@ == final(doc)@) && final(self)@
                    == after_save(old(self)@, old(doc)@) && final(doc)@ == (DocumentModel {
                    sequence: (old(self)@.last_sequence + 1) as u64,
                    ..old(doc)@
                }),
            }),
            conflicts(old(self)@, old(doc)@) ==> exists|
                mine: &mut Document,
                theirs: &Document,
                go: bool,
            |
                #![trigger call_ensures(conflict_handler, (mine, theirs), go)]
                {
                    &&& *mine == *old(doc)
                    &&& theirs@ == stored_document(old(self)@, old(doc)@.id)
                    &&& call_ensures(conflict_handler, (mine, theirs), go)
                    &&& !go ==> r == Err::<Document, Error>(
                        Error::spec_cbl_error(CouchbaseLiteError::Conflict),
                    ) && final(self)@ == old(self)@ && *final(doc) == *final(mine)
                    &&& go ==> (match save_error(
                        old(self)@,
                        final(mine)@,
                        ConcurrencyControl::LastWriteWins,
                    ) {
                        Some(e) => r == Err::<Document, Error>(e) && final(self)@ == old(self)@
                            && final(doc)@ == final(mine)@,
                        None => (r matches Ok(saved) && saved@ == final(doc)@) && final(self)@
                            == after_save(old(self)@, final(mine)@) && final(doc)@ == (
                        DocumentModel {
                            sequence: (old(self)@.last_sequence + 1) as u64,
                            ..final(mine)@
                        }),
                    })
                },
    {
        if !self.is_conflict(doc) {
            return match self.save_document(doc) {
                Ok(()) => Ok(doc.duplicate()),
                Err(e) => Err(e),
            };
        }
        let found = self.get_document(doc.id());
        match found {
            Ok(conflicting) => {
                let go = conflict_handler(doc, &conflicting);
                if !go {
                    return Err(Error::cbl_error(CouchbaseLiteError::Conflict));
                }
                match self.save_document(doc) {
                    Ok(()) => Ok(doc.duplicate()),
                    Err(e) => Err(e),
                }
            },
            Err(e) => Err(e),
        }
    }
}


/// Saving keeps a database valid.
pub proof fn lemma_after_save_wf(db: DatabaseModel, doc: DocumentModel)
    requires
        database_wf(db),
        db.last_sequence < u64::MAX,
        crate::fleece::model_wf(ValueModel::Dict(doc.properties)),
    ensures
        database_wf(after_save(db, doc)),
        after_save(db, doc).last_sequence == db.last_sequence + 1,
        store_has(after_save(db, doc).documents, doc.id),
        store_get(after_save(db, doc).documents, doc.id).sequence == db.last_sequence + 1,
        store_get(after_save(db, doc).documents, doc.id).properties == doc.properties,
        forall|other: Seq<char>|
            other != doc.id ==> store_has(after_save(db, doc).documents, other) == store_has(
                db.documents,
                other,
            ) && (store_has(db.documents, other) ==> store_get(
                after_save(db, doc).documents,
                other,
            ) == store_get(db.documents, other)),
{
    let record = RecordModel {
        sequence: (db.last_sequence + 1) as u64,
        deleted: false,
        properties: doc.properties,
        expiration: kept_expiration(db, doc.id),
    };
    let before = db.documents;
    let after = store_put(before, doc.id, record);
    lemma_store_put(before, doc.id, record);
    assert(after_save(db, doc).documents == after);
    if store_has(before, doc.id) {
        let i = store_index(before, doc.id);
        assert forall|a: int| 0 <= a < after.len() && a != i implies #[trigger] after[a]
            == before[a] by {}
        assert(after[i] == (doc.id, record));
        assert forall|a: int, b: int|
            0 <= a < after.len() && 0 <= b < after.len() && a != b implies (
        #[trigger] after[a]).1.sequence != (#[trigger] after[b]).1.sequence by {
            if a != i {
                assert(after[a] == before[a]);
            }
            if b != i {
                assert(after[b] == before[b]);
            }
        }
        assert forall|a: int| 0 <= a < after.len() implies 1 <= (
        #[trigger] after[a]).1.sequence <= db.last_sequence + 1 && (after[a].1.deleted
            ==> after[a].1.properties.len() == 0) && crate::fleece::model_wf(
            ValueModel::Dict(after[a].1.properties),
        ) by {
            if a != i {
                assert(after[a] == before[a]);
            }
        }
    } else {
        let i = before.len() as int;
        assert forall|a: int, b: int|
            0 <= a < after.len() && 0 <= b < after.len() && a != b implies (
        #[trigger] after[a]).1.sequence != (#[trigger] after[b]).1.sequence by {
            if a < i {
                assert(after[a] == before[a]);
            }
            if b < i {
                assert(after[b] == before[b]);
            }
        }
        assert forall|a: int| 0 <= a < after.len() implies 1 <= (
        #[trigger] after[a]).1.sequence <= db.last_sequence + 1 && (after[a].1.deleted
            ==> after[a].1.properties.len() == 0) && crate::fleece::model_wf(
            ValueModel::Dict(after[a].1.properties),
        ) by {
            if a < i {
                assert(after[a] == before[a]);
            }
        }
    }
}

/// Two writers and one document. Both hold the stored revision; the first saves.
/// Then the second writer's save fails with a conflict where it asked to fail on
/// one, and the first writer's revision stays; and where it asked for the last
/// write to win, its save goes through and its properties replace the first
/// writer's. This holds as long as two sequence numbers are left.
pub proof fn lemma_second_writer(db: DatabaseModel, first: DocumentModel, second: DocumentModel)
    requires
        database_wf(db),
        crate::fleece::model_wf(ValueModel::Dict(first.properties)),
        crate::fleece::model_wf(ValueModel::Dict(second.properties)),
        store_has(db.documents, first.id),
        first.id == second.id,
        first.sequence == store_get(db.documents, first.id).sequence,
        second.sequence == first.sequence,
        db.last_sequence + 2 <= u64::MAX,
    ensures
        save_error(db, first, ConcurrencyControl::FailOnConflict) is None,
        save_error(after_save(db, first), second, ConcurrencyControl::FailOnConflict) == Some(
            Error::spec_cbl_error(CouchbaseLiteError::Conflict),
        ),
        store_get(after_save(db, first).documents, first.id).properties == first.properties,
        save_error(after_save(db, first), second, ConcurrencyControl::LastWriteWins) is None,
        store_get(after_save(after_save(db, first), second).documents, first.id).properties
            == second.properties,
        store_get(after_save(after_save(db, first), second).documents, first.id).sequence
            == db.last_sequence + 2,
{
    lemma_after_save_wf(db, first);
    let db1 = after_save(db, first);
    lemma_store_at(db.documents, store_index(db.documents, first.id));
    assert(store_get(db.documents, first.id).sequence <= db.last_sequence);
    lemma_after_save_wf(db1, second);
}

/// The database after each document of `docs` has been saved in turn.
pub open spec fn after_saves(db: DatabaseModel, docs: Seq<DocumentModel>) -> DatabaseModel
    decreases docs.len(),
{
    if docs.len() == 0 {
        db
    } else {
        after_save(after_saves(db, docs.drop_last()), docs.last())
    }
}

/// Sequences count up without gaps. Saving `docs` in turn moves the latest
/// sequence up by their number, and the document saved at position `k` holds
/// the sequence `k + 1` above the one the database began with, right after its
/// save.
pub proof fn lemma_sequences_count_up(db: DatabaseModel, docs: Seq<DocumentModel>)
    requires
        database_wf(db),
        db.last_sequence + docs.len() <= u64::MAX,
        forall|k: int|
            0 <= k < docs.len() ==> crate::fleece::model_wf(
                ValueModel::Dict((#[trigger] docs[k]).properties),
            ),
    ensures
        database_wf(after_saves(db, docs)),
        after_saves(db, docs).last_sequence == db.last_sequence + docs.len(),
        forall|k: int|
            0 <= k < docs.len() ==> store_get(
                #[trigger] after_saves(db, docs.take(k + 1)).documents,
                docs[k].id,
            ).sequence == db.last_sequence + k + 1,
    decreases docs.len(),
{
    if docs.len() > 0 {
        let front = docs.drop_last();
        lemma_sequences_count_up(db, front);
        lemma_after_save_wf(after_saves(db, front), docs.last());
        assert forall|k: int| 0 <= k < docs.len() implies store_get(
            #[trigger] after_saves(db, docs.take(k + 1)).documents,
            docs[k].id,
        ).sequence == db.last_sequence + k + 1 by {
            if k < docs.len() - 1 {
                assert(docs.take(k + 1) =~= front.take(k + 1));
                assert(docs[k] == front[k]);
            } else {
                assert(docs.take(k + 1) =~= docs);
            }
        }
    }
}

/// In an empty database, documents with different ids that are saved in turn
/// hold the sequences 1, 2, 3 and so on in the order of their saves, and keep
/// them while the others are saved.
pub proof fn lemma_sequences_from_empty(db: DatabaseModel, docs: Seq<DocumentModel>)
    requires
        database_wf(db),
        db.documents.len() == 0,
        db.last_sequence == 0,
        docs.len() <= u64::MAX,
        forall|k: int|
            0 <= k < docs.len() ==> crate::fleece::model_wf(
                ValueModel::Dict((#[trigger] docs[k]).properties),
            ),
        forall|j: int, k: int|
            0 <= j < docs.len() && 0 <= k < docs.len() && j != k ==> (#[trigger] docs[j]).id != (
            #[trigger] docs[k]).id,
    ensures
        after_saves(db, docs).last_sequence == docs.len(),
        forall|k: int|
            0 <= k < docs.len() ==> store_has(
                after_saves(db, docs).documents,
                (#[trigger] docs[k]).id,
            ) && store_get(after_saves(db, docs).documents, docs[k].id).sequence == k + 1,
    decreases docs.len(),
{
    if docs.len() > 0 {
        let front = docs.drop_last();
        let last = docs.last();
        lemma_sequences_from_empty(db, front);
        lemma_sequences_count_up(db, front);
        lemma_after_save_wf(after_saves(db, front), last);
        assert forall|k: int| 0 <= k < docs.len() implies store_has(
            after_saves(db, docs).documents,
            (#[trigger] docs[k]).id,
        ) && store_get(after_saves(db, docs).documents, docs[k].id).sequence == k + 1 by {
            if k < docs.len() - 1 {
                assert(docs[k] == front[k]);
                assert(docs[k].id != last.id);
            }
        }
    }
}

/// An expiration that was set is the one reported; one that was cleared is
/// reported as none. The time 0 stands for "does not expire", so setting it
/// clears.
pub proof fn lemma_expiration_round_trip(db: DatabaseModel, id: Seq<char>, time: Option<Timestamp>)
    requires
        database_wf(db),
        store_has(db.documents, id),
    ensures
        time matches Some(t) ==> (t.0 != 0 ==> reported_expiration(
            after_expiration(db, id, requested_expiration(time)),
            id,
        ) == Some(t.0)),
        time is None ==> reported_expiration(
            after_expiration(db, id, requested_expiration(time)),
            id,
        ) is None,
        time == Some(Timestamp(0)) ==> reported_expiration(
            after_expiration(db, id, requested_expiration(time)),
            id,
        ) is None,
{
    let record = RecordModel {
        expiration: requested_expiration(time),
        ..store_get(db.documents, id)
    };
    lemma_store_put(db.documents, id, record);
}

/// A transaction that is not committed leaves no trace in the documents: what
/// was saved inside the outermost transaction is gone when that one ends
/// without commit.
pub proof fn lemma_rollback(db: DatabaseModel, doc: DocumentModel)
    requires
        database_wf(db),
        db.transaction_depth == 0,
    ensures
        after_end(after_save(after_begin(db), doc), false).documents == db.documents,
        after_end(after_save(after_begin(db), doc), false).last_sequence == db.last_sequence,
        after_end(after_save(after_begin(db), doc), true).documents == after_save(
            db,
            doc,
        ).documents,
{
}


/// A change of a document, as mathematics: the document as the store holds it,
/// and whether it is a tombstone.
pub ghost struct ChangeModel {
    pub document: DocumentModel,
    pub deleted: bool,
}

/// A change of a document: a fresh copy of the document as the store holds it,
/// and whether it is a tombstone.
#[derive(Debug)]
pub struct Change {
    pub document: Document,
    pub deleted: bool,
}

impl View for Change {
    type V = ChangeModel;

    open spec fn view(&self) -> ChangeModel {
        ChangeModel { document: self.document@, deleted: self.deleted }
    }
}

/// The models of a sequence of changes.
pub open spec fn changes_model(s: Seq<Change>) -> Seq<ChangeModel> {
    Seq::new(s.len(), |i: int| s[i]@)
}

/// The change that the record at position `i` of the store stands for.
pub open spec fn change_at(store: Store, i: int) -> ChangeModel {
    ChangeModel {
        document: DocumentModel {
            id: store[i].0,
            sequence: store[i].1.sequence,
            properties: store[i].1.properties,
        },
        deleted: store[i].1.deleted,
    }
}

/// The changes after the sequence `since`: every record with a later sequence,
/// in the order in which the store holds them.
pub open spec fn store_changes(store: Store, since: u64) -> Seq<ChangeModel>
    decreases store.len(),
{
    if store.len() == 0 {
        Seq::empty()
    } else if store.last().1.sequence > since {
        store_changes(store.drop_last(), since).push(change_at(store, store.len() - 1))
    } else {
        store_changes(store.drop_last(), since)
    }
}

/// Every change after `since` is of a document that the store holds, with the
/// sequence, the properties and the tombstone flag that the store holds, and its
/// sequence is later than `since`.
pub proof fn lemma_store_changes(store: Store, since: u64)
    requires
        store_ids_unique(store),
    ensures
        forall|k: int|
            0 <= k < store_changes(store, since).len() ==> {
                let c = #[trigger] store_changes(store, since)[k];
                &&& store_has(store, c.document.id)
                &&& store_get(store, c.document.id).sequence == c.document.sequence
                &&& store_get(store, c.document.id).properties == c.document.properties
                &&& store_get(store, c.document.id).deleted == c.deleted
                &&& c.document.sequence > since
            },
        forall|i: int|
            0 <= i < store.len() && (#[trigger] store[i]).1.sequence > since ==> exists|k: int|
                0 <= k < store_changes(store, since).len() && #[trigger] store_changes(
                    store,
                    since,
                )[k] == change_at(store, i),
    decreases store.len(),
{
    if store.len() > 0 {
        let front = store.drop_last();
        let last = store.len() - 1;
        assert forall|a: int, b: int|
            0 <= a < front.len() && 0 <= b < front.len() && a != b implies (#[trigger] front[a]).0
            != (#[trigger] front[b]).0 by {
            assert(front[a] == store[a] && front[b] == store[b]);
        }
        lemma_store_changes(front, since);
        let all = store_changes(store, since);
        let before = store_changes(front, since);
        assert forall|k: int| 0 <= k < all.len() implies {
            let c = #[trigger] all[k];
            &&& store_has(store, c.document.id)
            &&& store_get(store, c.document.id).sequence == c.document.sequence
            &&& store_get(store, c.document.id).properties == c.document.properties
            &&& store_get(store, c.document.id).deleted == c.deleted
            &&& c.document.sequence > since
        } by {
            if k < before.len() {
                let c = before[k];
                assert(all[k] == c);
                let i = store_index(front, c.document.id);
                assert(front[i] == store[i]);
                lemma_store_at(front, i);
                lemma_store_at(store, i);
            } else {
                lemma_store_at(store, last);
            }
        }
        assert forall|i: int|
            0 <= i < store.len() && (#[trigger] store[i]).1.sequence > since implies exists|k: int|
            0 <= k < all.len() && #[trigger] all[k] == change_at(store, i) by {
            if i < last {
                assert(front[i] == store[i]);
                let k = choose|k: int|
                    0 <= k < before.len() && #[trigger] before[k] == change_at(front, i);
                assert(all[k] == change_at(store, i));
            } else {
                assert(all[all.len() - 1] == change_at(store, i));
            }
        }
    }
}

/// The database after a revision has come in from elsewhere: as after a save of
/// its properties, or for a tombstone as after a deletion.
pub open spec fn after_revision(
    db: DatabaseModel,
    id: Seq<char>,
    deleted: bool,
    properties: Entries,
) -> DatabaseModel {
    if deleted {
        after_delete(db, id)
    } else {
        after_save(db, DocumentModel { id, sequence: 0, properties })
    }
}

impl Database {
    /// The changes after the sequence `since`: a fresh copy of every document
    /// with a later sequence, tombstones included, in the order in which the
    /// store holds them.
    pub fn changes_since(&self, since: u64) -> (r: Vec<Change>)
        requires
            self.wf(),
        ensures
            changes_model(r@) == store_changes(self@.documents, since),
            forall|k: int| 0 <= k < r@.len() ==> (#[trigger] r@[k]).document.wf(),
    {
        let mut out: Vec<Change> = Vec::new();
        let mut i: usize = 0;
        let ghost store = records_model(self.records@);
        assert(store.subrange(0, 0) =~= Seq::empty());
        assert(changes_model(out@) =~= Seq::empty());
        while i < self.records.len()
            invariant
                i <= self.records.len(),
                self.wf(),
                store == records_model(self.records@),
                changes_model(out@) == store_changes(store.subrange(0, i as int), since),
                forall|k: int| 0 <= k < out@.len() ==> (#[trigger] out@[k]).document.wf(),
            decreases self.records.len() - i,
        {
            proof {
                let next = store.subrange(0, i + 1);
                assert(next.drop_last() =~= store.subrange(0, i as int));
                assert(next.last() == store[i as int]);
                assert(change_at(next, i as int) == change_at(store, i as int));
            }
            let rec = &self.records[i];
            if rec.sequence > since {
                proof {
                    rec.properties.lemma_view_is_dict();
                }
                let document = Document::wrap(
                    rec.id.clone(),
                    rec.sequence,
                    rec.properties.duplicate(),
                );
                let ghost before = changes_model(out@);
                let change = Change { document, deleted: rec.deleted };
                out.push(change);
                assert(changes_model(out@) =~= before.push(change_at(store, i as int)));
            }
            i += 1;
        }
        assert(store.subrange(0, i as int) =~= store);
        out
    }

    /// Takes in a revision that comes from elsewhere: the properties, or a
    /// tombstone, become the latest revision of the document `id`, whatever the
    /// store held. On success the new sequence is returned. Fails with
    /// "database full", and changes nothing, where no sequence number is left.
    pub fn store_revision(&mut self, id: &str, deleted: bool, properties: &MutableDict) -> (r:
        Result<u64, Error>)
        requires
            old(self).wf(),
            properties.wf(),
        ensures
            final(self).wf(),
            final(self).spec_name() == old(self).spec_name(),
            final(self).spec_index_names() == old(self).spec_index_names(),
            old(self)@.last_sequence == u64::MAX ==> r == Err::<u64, Error>(spec_full_error())
                && final(self)@ == old(self)@,
            old(self)@.last_sequence < u64::MAX ==> r == Ok::<u64, Error>(
                (old(self)@.last_sequence + 1) as u64,
            ) && final(self)@ == after_revision(
                old(self)@,
                id@,
                deleted,
                properties.spec_entries(),
            ),
    {
        if self.last_sequence == u64::MAX {
            return Err(Error { code: ErrorCode::SQLite(13), internal_info: None });
        }
        let content = if deleted {
            MutableDict::new()
        } else {
            properties.duplicate()
        };
        proof {
            content.lemma_view_is_dict();
            properties.lemma_view_is_dict();
        }
        self.write(id, deleted, content);
        self.note(id);
        Ok(self.last_sequence)
    }

    /// The sequence of the latest revision of the document `id`; `None` where
    /// the store holds nothing under `id`.
    pub fn sequence_of(&self, id: &str) -> (r: Option<u64>)
        requires
            self.wf(),
        ensures
            store_has(self@.documents, id@) ==> r == Some(
                store_get(self@.documents, id@).sequence,
            ),
            !store_has(self@.documents, id@) ==> r is None,
    {
        match find_record(&self.records, id) {
            Some(i) => {
                proof {
                    lemma_store_at(records_model(self.records@), i as int);
                }
                Some(self.records[i].sequence)
            },
            None => None,
        }
    }

    /// True when the store holds a tombstone under `id`.
    pub fn is_tombstone(&self, id: &str) -> (r: bool)
        requires
            self.wf(),
        ensures
            r == (store_has(self@.documents, id@) && store_get(self@.documents, id@).deleted),
    {
        match find_record(&self.records, id) {
            Some(i) => {
                proof {
                    lemma_store_at(records_model(self.records@), i as int);
                }
                self.records[i].deleted
            },
            None => false,
        }
    }
}


/// A key to encrypt a database with: 32 bytes.
#[derive(Debug)]
pub struct EncryptionKey {
    pub(crate) bytes: Vec<u8>,
}

impl EncryptionKey {
    /// The bytes of the key.
    pub closed spec fn spec_bytes(&self) -> Seq<u8> {
        self.bytes@
    }

    /// The key with the given bytes; `None` unless they are 32.
    pub fn new(bytes: &[u8]) -> (r: Option<EncryptionKey>)
        ensures
            bytes@.len() == 32 ==> (r matches Some(key) && key.spec_bytes() == bytes@),
            bytes@.len() != 32 ==> r is None,
    {
        if bytes.len() == 32 {
            Some(EncryptionKey { bytes: vstd::slice::slice_to_vec(bytes) })
        } else {
            None
        }
    }

    /// The bytes of the key.
    pub fn bytes(&self) -> (r: &[u8])
        ensures
            r@ == self.spec_bytes(),
            r@.len() == self.spec_bytes().len(),
    {
        self.bytes.as_slice()
    }
}

/// Database configuration options.
#[derive(Debug)]
pub struct DatabaseConfiguration {
    /// The directory that holds the database.
    pub directory: String,
    /// The key that the database is encrypted with, if it is.
    pub encryption_key: Option<EncryptionKey>,
}

impl Database {
    /// Opens a database under `name`: a new, empty one. Fails with
    /// `InvalidParameter` for the empty name.
    pub fn open(name: &str, config: Option<DatabaseConfiguration>) -> (r: Result<Database, Error>)
        ensures
            name@.len() > 0 ==> (r matches Ok(db) && db.wf() && db.spec_name() == name@
                && db.spec_index_names() == Seq::<Seq<char>>::empty() && db@ == (
            DatabaseModel {
                documents: Seq::empty(),
                last_sequence: 0,
                transaction_depth: 0,
                snapshot: None,
                buffering: false,
                pending: Seq::empty(),
                ready: Seq::empty(),
            })),
            name@.len() == 0 ==> r == Err::<Database, Error>(
                Error::spec_cbl_error(CouchbaseLiteError::InvalidParameter),
            ),
    {
        if name.unicode_len() == 0 {
            Err(Error::cbl_error(CouchbaseLiteError::InvalidParameter))
        } else {
            Ok(Database::new(name))
        }
    }
}


/// The strings of `names` as the items of an array.
pub open spec fn name_items(names: Seq<Seq<char>>) -> Seq<ValueModel> {
    Seq::new(names.len(), |i: int| ValueModel::String(names[i]))
}

impl Database {
    fn find_index(&self, name: &str) -> (r: Option<usize>)
        ensures
            r matches Some(i) ==> i < self.spec_index_names().len() && self.spec_index_names()[i as int]
                == name@ && self.spec_index_names().index_of_first(name@) == Some(i as int),
            r is None ==> !self.spec_index_names().contains(name@),
            r is Some <==> self.spec_index_names().contains(name@),
    {
        let ghost names = self.spec_index_names();
        proof {
            names.index_of_first_ensures(name@);
        }
        let mut i: usize = 0;
        while i < self.indexes.len()
            invariant
                i <= self.indexes.len(),
                names == self.spec_index_names(),
                forall|j: int| 0 <= j < i ==> names[j] != name@,
            decreases self.indexes.len() - i,
        {
            if same_text(self.indexes[i].0.as_str(), name) {
                proof {
                    assert(names[i as int] == name@);
                    names.index_of_first_ensures(name@);
                    let f = names.index_of_first(name@)->0;
                    if f < i {
                        assert(names[f] != name@);
                    }
                }
                return Some(i);
            }
            i += 1;
        }
        None
    }

    /// Makes the index `name`, or makes it anew where there is one of that
    /// name. The documents are not touched.
    pub fn create_index(&mut self, name: &str, config: ValueIndexConfiguration) -> (r: Result<
        bool,
        Error,
    >)
        ensures
            r == Ok::<bool, Error>(true),
            final(self)@ == old(self)@,
            final(self).spec_name() == old(self).spec_name(),
            old(self).spec_index_names().contains(name@) ==> final(self).spec_index_names() == old(self).spec_index_names(),
            !old(self).spec_index_names().contains(name@) ==> final(self).spec_index_names()
                == old(self).spec_index_names().push(name@),
    {
        let ghost before = self.spec_index_names();
        match self.find_index(name) {
            Some(i) => {
                self.indexes.set(i, (name.to_owned(), config));
                assert(self.spec_index_names() =~= before);
            },
            None => {
                self.indexes.push((name.to_owned(), config));
                assert(self.spec_index_names() =~= before.push(name@));
            },
        }
        Ok(true)
    }

    /// Deletes the index `name`, if there is one: the first of that name. The
    /// result tells whether there was one. The documents are not touched.
    pub fn delete_index(&mut self, name: &str) -> (r: Result<bool, Error>)
        ensures
            r == Ok::<bool, Error>(old(self).spec_index_names().contains(name@)),
            final(self)@ == old(self)@,
            final(self).spec_name() == old(self).spec_name(),
            !old(self).spec_index_names().contains(name@) ==> final(self).spec_index_names()
                == old(self).spec_index_names(),
            old(self).spec_index_names().contains(name@) ==> final(self).spec_index_names() == old(self).spec_index_names().remove(old(self).spec_index_names().index_of_first(name@)->0),
    {
        let ghost before = self.spec_index_names();
        match self.find_index(name) {
            Some(i) => {
                self.indexes.remove(i);
                assert(self.spec_index_names() =~= before.remove(i as int));
                Ok(true)
            },
            None => Ok(false),
        }
    }

    /// The names of the indexes, as an array of strings in the order in which
    /// the indexes were made.
    pub fn get_index_names(&self) -> (names: MutableArray)
        ensures
            names@ == ValueModel::Array(name_items(self.spec_index_names())),
            names.wf(),
    {
        let mut names = MutableArray::new();
        let mut i: usize = 0;
        let ghost all = self.spec_index_names();
        proof {
            names.lemma_view_is_array();
            assert(name_items(all.subrange(0, 0)) =~= Seq::empty());
        }
        while i < self.indexes.len()
            invariant
                i <= self.indexes.len(),
                all == self.spec_index_names(),
                names@ == ValueModel::Array(name_items(all.subrange(0, i as int))),
                names.wf(),
            decreases self.indexes.len() - i,
        {
            proof {
                names.lemma_view_is_array();
            }
            names.append().put_string(self.indexes[i].0.as_str());
            proof {
                names.lemma_view_is_array();
                assert(name_items(all.subrange(0, i + 1)) =~= name_items(
                    all.subrange(0, i as int),
                ).push(ValueModel::String(all[i as int])));
            }
            i += 1;
        }
        assert(all.subrange(0, i as int) =~= all);
        names
    }
}


/// In a valid database every document has a sequence between 1 and the latest.
pub proof fn lemma_wf_sequences(db: DatabaseModel)
    requires
        database_wf(db),
    ensures
        forall|id: Seq<char>|
            store_has(db.documents, id) ==> 1 <= #[trigger] store_get(db.documents, id).sequence
                <= db.last_sequence,
{
    assert forall|id: Seq<char>| store_has(db.documents, id) implies 1 <= #[trigger] store_get(
        db.documents,
        id,
    ).sequence <= db.last_sequence by {
        let i = store_index(db.documents, id);
        assert(store_get(db.documents, id) == db.documents[i].1);
    }
}

} // verus!
