//! The bookkeeping of a replicator: which revision of each document the two
//! sides have in common, which documents wait to be transferred, and what a
//! transfer does to the databases.

use crate::database::{
    after_revision, change_at, lemma_store_at, lemma_store_changes, spec_full_error, store_changes,
    store_get, store_has, store_ids_unique, store_index, ChangeModel, DatabaseModel,
};
use crate::encryption::EncryptionError;
use crate::error::{CouchbaseLiteError, Error};
use crate::fleece::ValueModel;
use crate::replicator::{spec_document_flags, ReplicatedModel};
use vstd::prelude::*;

verus! {

/// What the replicator knows of one document, as mathematics: the sequence of
/// the local revision that the other side has, and the sequence of the other
/// side's revision that the local side has taken in. 0 stands for "none".
pub ghost struct MarkModel {
    pub local_sequence: u64,
    pub remote_sequence: u64,
}

/// The marks of a replicator, as mathematics: pairs of an id and a mark. Of two
/// pairs with one id the first counts.
pub type Marks = Seq<(Seq<char>, MarkModel)>;

/// `i` is the position of the first pair of `id`, or the length where there is
/// none.
pub open spec fn is_first(marks: Marks, id: Seq<char>, i: int) -> bool {
    &&& 0 <= i <= marks.len()
    &&& forall|j: int| 0 <= j < i ==> (#[trigger] marks[j]).0 != id
    &&& i < marks.len() ==> marks[i].0 == id
}

/// The position of the first pair of `id`, or the length where there is none.
pub open spec fn marks_index(marks: Marks, id: Seq<char>) -> int {
    choose|i: int| is_first(marks, id, i)
}

/// The mark of `id`; the mark of a document that was never transferred where
/// there is none.
pub open spec fn mark_of(marks: Marks, id: Seq<char>) -> MarkModel {
    let i = marks_index(marks, id);
    if i < marks.len() {
        marks[i].1
    } else {
        MarkModel { local_sequence: 0, remote_sequence: 0 }
    }
}

/// The marks with `mark` for `id`.
pub open spec fn marks_set(marks: Marks, id: Seq<char>, mark: MarkModel) -> Marks {
    let i = marks_index(marks, id);
    if i < marks.len() {
        marks.update(i, (id, mark))
    } else {
        marks.push((id, mark))
    }
}

/// Every id has a first position.
pub proof fn lemma_first_exists(marks: Marks, id: Seq<char>)
    ensures
        is_first(marks, id, marks_index(marks, id)),
    decreases marks.len(),
{
    if marks.len() == 0 {
        assert(is_first(marks, id, 0));
    } else {
        let front = marks.drop_last();
        lemma_first_exists(front, id);
        let i = marks_index(front, id);
        if i < front.len() {
            assert(is_first(marks, id, i)) by {
                assert forall|j: int| 0 <= j < i implies (#[trigger] marks[j]).0 != id by {
                    assert(front[j] == marks[j]);
                }
                assert(front[i] == marks[i]);
            }
        } else if marks.last().0 == id {
            assert(is_first(marks, id, marks.len() - 1)) by {
                assert forall|j: int| 0 <= j < marks.len() - 1 implies (#[trigger] marks[j]).0
                    != id by {
                    assert(front[j] == marks[j]);
                }
            }
        } else {
            assert(is_first(marks, id, marks.len() as int)) by {
                assert forall|j: int| 0 <= j < marks.len() implies (#[trigger] marks[j]).0
                    != id by {
                    if j < marks.len() - 1 {
                        assert(front[j] == marks[j]);
                    }
                }
            }
        }
    }
}

/// A position that meets `is_first` is the first position.
pub proof fn lemma_first_unique(marks: Marks, id: Seq<char>, i: int)
    requires
        is_first(marks, id, i),
    ensures
        marks_index(marks, id) == i,
{
    let r = marks_index(marks, id);
    assert(is_first(marks, id, r));
    if r < i {
        assert(marks[r].0 != id);
    } else if i < r {
        assert(marks[i].0 != id);
    }
}

/// After a mark is set, the id has that mark and every other id has the mark
/// it had.
pub proof fn lemma_marks_set(marks: Marks, id: Seq<char>, mark: MarkModel)
    ensures
        mark_of(marks_set(marks, id, mark), id) == mark,
        forall|other: Seq<char>|
            other != id ==> mark_of(marks_set(marks, id, mark), other) == mark_of(marks, other),
{
    lemma_first_exists(marks, id);
    let i = marks_index(marks, id);
    let after = marks_set(marks, id, mark);
    assert(is_first(after, id, i)) by {
        assert forall|j: int| 0 <= j < i implies (#[trigger] after[j]).0 != id by {
            assert(after[j] == marks[j]);
        }
    }
    lemma_first_unique(after, id, i);
    assert forall|other: Seq<char>| other != id implies mark_of(after, other) == mark_of(
        marks,
        other,
    ) by {
        lemma_first_exists(marks, other);
        let r = marks_index(marks, other);
        if r < marks.len() {
            assert(r != i);
            assert(is_first(after, other, r)) by {
                assert forall|j: int| 0 <= j < r implies (#[trigger] after[j]).0 != other by {
                    if j != i {
                        assert(after[j] == marks[j]);
                    }
                }
                assert(after[r] == marks[r]);
            }
            lemma_first_unique(after, other, r);
        } else {
            assert(is_first(after, other, after.len() as int)) by {
                assert forall|j: int| 0 <= j < after.len() implies (#[trigger] after[j]).0
                    != other by {
                    if j < marks.len() && j != i {
                        assert(after[j] == marks[j]);
                    }
                }
            }
            lemma_first_unique(after, other, after.len() as int);
        }
    }
}

/// What a replicator keeps of its transfers, as mathematics.
pub ghost struct TransferModel {
    /// The marks of the documents.
    pub marks: Marks,
    /// The local sequence up to which changes have been looked at for pushing.
    pub push_checkpoint: u64,
    /// The other side's sequence up to which changes have been looked at for
    /// pulling.
    pub pull_checkpoint: u64,
    /// The number of documents transferred so far.
    pub document_count: u64,
}

/// True when the configuration lets the document `id` be replicated: it names
/// no ids at all, or it names this one.
pub open spec fn id_allowed(ids: Seq<ValueModel>, id: Seq<char>) -> bool {
    ids.len() == 0 || exists|k: int| 0 <= k < ids.len() && #[trigger] ids[k] == ValueModel::String(id)
}

/// True when a local change is still to be pushed: the other side does not have
/// this revision, and the configuration lets the document be replicated.
pub open spec fn needs_push(t: TransferModel, ids: Seq<ValueModel>, c: ChangeModel) -> bool {
    c.document.sequence != mark_of(t.marks, c.document.id).local_sequence && id_allowed(
        ids,
        c.document.id,
    )
}

/// True when a change of the other side is still to be pulled: the local side
/// has not taken this revision in, and the configuration lets the document be
/// replicated.
pub open spec fn needs_pull(t: TransferModel, ids: Seq<ValueModel>, c: ChangeModel) -> bool {
    c.document.sequence != mark_of(t.marks, c.document.id).remote_sequence && id_allowed(
        ids,
        c.document.id,
    )
}

/// Those of `changes` that are still to be pushed, in their order.
pub open spec fn push_candidates(
    changes: Seq<ChangeModel>,
    t: TransferModel,
    ids: Seq<ValueModel>,
) -> Seq<ChangeModel>
    decreases changes.len(),
{
    if changes.len() == 0 {
        Seq::empty()
    } else if needs_push(t, ids, changes.last()) {
        push_candidates(changes.drop_last(), t, ids).push(changes.last())
    } else {
        push_candidates(changes.drop_last(), t, ids)
    }
}

/// Those of `changes` that are still to be pulled, in their order.
pub open spec fn pull_candidates(
    changes: Seq<ChangeModel>,
    t: TransferModel,
    ids: Seq<ValueModel>,
) -> Seq<ChangeModel>
    decreases changes.len(),
{
    if changes.len() == 0 {
        Seq::empty()
    } else if needs_pull(t, ids, changes.last()) {
        pull_candidates(changes.drop_last(), t, ids).push(changes.last())
    } else {
        pull_candidates(changes.drop_last(), t, ids)
    }
}

/// True when `target` holds a revision of the document that the source of a
/// transfer has not seen: one other than the revision with the sequence `seen`.
pub open spec fn target_moved(target: DatabaseModel, id: Seq<char>, seen: u64) -> bool {
    store_has(target.documents, id) && store_get(target.documents, id).sequence != seen
}

/// One more than `n`, but never past the greatest number.
pub open spec fn count_up(n: u64) -> u64 {
    if n < u64::MAX {
        (n + 1) as u64
    } else {
        n
    }
}

/// The report of a transferred change with the error `error`.
pub open spec fn report_of(c: ChangeModel, error: Option<Error>) -> ReplicatedModel {
    ReplicatedModel { id: c.document.id, flags: spec_document_flags(c.deleted, false), error }
}

/// What pushing one change does to the bookkeeping and to the other side's
/// database, and what is reported.
///
/// Where the other side holds a revision that this side has not taken in, the
/// push fails with `Conflict` and nothing changes: the conflict is for a pull to
/// settle. Where the other side has no sequence number left, the push fails with
/// "database full". Else the change becomes the other side's latest revision of
/// the document, the mark records that the two revisions are one, and the count
/// of documents goes up.
pub open spec fn push_one(t: TransferModel, remote: DatabaseModel, c: ChangeModel) -> (
    TransferModel,
    DatabaseModel,
    ReplicatedModel,
) {
    let id = c.document.id;
    if target_moved(remote, id, mark_of(t.marks, id).remote_sequence) {
        (t, remote, report_of(c, Some(Error::spec_cbl_error(CouchbaseLiteError::Conflict))))
    } else if remote.last_sequence == u64::MAX {
        (t, remote, report_of(c, Some(spec_full_error())))
    } else {
        (
            TransferModel {
                marks: marks_set(
                    t.marks,
                    id,
                    MarkModel {
                        local_sequence: c.document.sequence,
                        remote_sequence: (remote.last_sequence + 1) as u64,
                    },
                ),
                document_count: count_up(t.document_count),
                ..t
            },
            after_revision(remote, id, c.deleted, c.document.properties),
            report_of(c, None),
        )
    }
}

/// What pulling one change does to the bookkeeping and to the local database,
/// and what is reported, where the local side has no revision of its own in the
/// way.
///
/// Where the local database has no sequence number left, the pull fails with
/// "database full". Else the change becomes the local database's latest
/// revision of the document, the mark records that the two revisions are one,
/// and the count of documents goes up.
pub open spec fn pull_one(t: TransferModel, local: DatabaseModel, c: ChangeModel) -> (
    TransferModel,
    DatabaseModel,
    ReplicatedModel,
) {
    let id = c.document.id;
    if local.last_sequence == u64::MAX {
        (t, local, report_of(c, Some(spec_full_error())))
    } else {
        (
            TransferModel {
                marks: marks_set(
                    t.marks,
                    id,
                    MarkModel {
                        local_sequence: (local.last_sequence + 1) as u64,
                        remote_sequence: c.document.sequence,
                    },
                ),
                document_count: count_up(t.document_count),
                ..t
            },
            after_revision(local, id, c.deleted, c.document.properties),
            report_of(c, None),
        )
    }
}

/// What a conflict that stays unsettled does: nothing changes, and the document
/// is reported with the error `Conflict`.
pub open spec fn pull_unsettled(t: TransferModel, local: DatabaseModel, c: ChangeModel) -> (
    TransferModel,
    DatabaseModel,
    ReplicatedModel,
) {
    (t, local, report_of(c, Some(Error::spec_cbl_error(CouchbaseLiteError::Conflict))))
}

/// What settling a conflict does, where `settled` is what the resolver made of
/// it: the properties of the document that is to stay, or `None` for "no
/// document".
///
/// Where the local database has no sequence number left, this fails with
/// "database full". Else the outcome becomes the local database's latest
/// revision of the document, a tombstone for "no document". The mark records
/// that the other side's revision has been taken in, and that the other side
/// does not have the new local revision, so that it is pushed in its turn. The
/// count of documents goes up.
pub open spec fn pull_settled(
    t: TransferModel,
    local: DatabaseModel,
    c: ChangeModel,
    settled: Option<crate::fleece::Entries>,
) -> (TransferModel, DatabaseModel, ReplicatedModel) {
    let id = c.document.id;
    if local.last_sequence == u64::MAX {
        (t, local, report_of(c, Some(spec_full_error())))
    } else {
        (
            TransferModel {
                marks: marks_set(
                    t.marks,
                    id,
                    MarkModel { local_sequence: 0, remote_sequence: c.document.sequence },
                ),
                document_count: count_up(t.document_count),
                ..t
            },
            match settled {
                Some(properties) => after_revision(local, id, false, properties),
                None => after_revision(local, id, true, Seq::empty()),
            },
            report_of(c, None),
        )
    }
}


/// The ids of the documents of `changes`, in their order.
pub open spec fn change_ids(changes: Seq<ChangeModel>) -> Seq<Seq<char>> {
    Seq::new(changes.len(), |i: int| changes[i].document.id)
}

/// A candidate for pushing is one of the changes, and is still to be pushed;
/// and every change that is still to be pushed is a candidate.
pub proof fn lemma_push_candidates(changes: Seq<ChangeModel>, t: TransferModel, ids: Seq<ValueModel>)
    ensures
        forall|k: int|
            0 <= k < push_candidates(changes, t, ids).len() ==> needs_push(
                t,
                ids,
                #[trigger] push_candidates(changes, t, ids)[k],
            ) && exists|i: int|
                0 <= i < changes.len() && #[trigger] changes[i] == push_candidates(
                    changes,
                    t,
                    ids,
                )[k],
        forall|i: int|
            0 <= i < changes.len() && needs_push(t, ids, #[trigger] changes[i]) ==> exists|k: int|
                0 <= k < push_candidates(changes, t, ids).len() && #[trigger] push_candidates(
                    changes,
                    t,
                    ids,
                )[k] == changes[i],
    decreases changes.len(),
{
    if changes.len() > 0 {
        let front = changes.drop_last();
        let last = changes.len() - 1;
        lemma_push_candidates(front, t, ids);
        let all = push_candidates(changes, t, ids);
        let before = push_candidates(front, t, ids);
        assert forall|k: int| 0 <= k < all.len() implies needs_push(t, ids, #[trigger] all[k])
            && exists|i: int| 0 <= i < changes.len() && #[trigger] changes[i] == all[k] by {
            if k < before.len() {
                assert(all[k] == before[k]);
                let i = choose|i: int| 0 <= i < front.len() && #[trigger] front[i] == before[k];
                assert(changes[i] == all[k]);
            } else {
                assert(changes[last] == all[k]);
            }
        }
        assert forall|i: int|
            0 <= i < changes.len() && needs_push(t, ids, #[trigger] changes[i]) implies exists|
            k: int,
        | 0 <= k < all.len() && #[trigger] all[k] == changes[i] by {
            if i < last {
                assert(front[i] == changes[i]);
                let k = choose|k: int| 0 <= k < before.len() && #[trigger] before[k] == front[i];
                assert(all[k] == changes[i]);
            } else {
                assert(all[all.len() - 1] == changes[i]);
            }
        }
    }
}

/// True when the document `id` has local changes that are still to be pushed:
/// the store holds it with a sequence after the checkpoint, the other side does
/// not have that revision, and the configuration lets the document be
/// replicated.
pub open spec fn document_pending(
    local: DatabaseModel,
    t: TransferModel,
    ids: Seq<ValueModel>,
    id: Seq<char>,
) -> bool {
    &&& store_has(local.documents, id)
    &&& store_get(local.documents, id).sequence > t.push_checkpoint
    &&& store_get(local.documents, id).sequence != mark_of(t.marks, id).local_sequence
    &&& id_allowed(ids, id)
}

/// The ids of the documents that wait to be pushed.
pub open spec fn pending_ids(local: DatabaseModel, t: TransferModel, ids: Seq<ValueModel>) -> Seq<
    Seq<char>,
> {
    change_ids(push_candidates(store_changes(local.documents, t.push_checkpoint), t, ids))
}

/// To ask whether one document is pending is to ask whether its id is among the
/// ids of the pending documents.
pub proof fn lemma_pending_is_membership(
    local: DatabaseModel,
    t: TransferModel,
    ids: Seq<ValueModel>,
    id: Seq<char>,
)
    requires
        store_ids_unique(local.documents),
    ensures
        document_pending(local, t, ids, id) <==> pending_ids(local, t, ids).contains(id),
{
    let store = local.documents;
    let changes = store_changes(store, t.push_checkpoint);
    let cands = push_candidates(changes, t, ids);
    let names = pending_ids(local, t, ids);
    lemma_store_changes(store, t.push_checkpoint);
    lemma_push_candidates(changes, t, ids);
    if document_pending(local, t, ids, id) {
        let i = store_index(store, id);
        lemma_store_at(store, i);
        let j = choose|j: int| 0 <= j < changes.len() && #[trigger] changes[j] == change_at(store, i);
        assert(needs_push(t, ids, changes[j]));
        let k = choose|k: int| 0 <= k < cands.len() && #[trigger] cands[k] == changes[j];
        assert(names[k] == id);
    }
    if names.contains(id) {
        let k = choose|k: int| 0 <= k < names.len() && names[k] == id;
        assert(needs_push(t, ids, cands[k]));
        let j = choose|j: int| 0 <= j < changes.len() && #[trigger] changes[j] == cands[k];
        assert(store_has(store, changes[j].document.id));
    }
}


/// What a round of pushing does, given for each candidate whether the filter
/// let it pass: the candidates are pushed in their order, each as `push_one`
/// says, but for those that the filter held back, which change nothing and are
/// not reported.
pub open spec fn push_all(
    t: TransferModel,
    remote: DatabaseModel,
    candidates: Seq<ChangeModel>,
    verdicts: Seq<bool>,
) -> (TransferModel, DatabaseModel, Seq<ReplicatedModel>)
    decreases candidates.len(),
{
    if candidates.len() == 0 || verdicts.len() != candidates.len() {
        (t, remote, Seq::empty())
    } else {
        let before = push_all(t, remote, candidates.drop_last(), verdicts.drop_last());
        if verdicts.last() {
            let step = push_one(before.0, before.1, candidates.last());
            (step.0, step.1, before.2.push(step.2))
        } else {
            before
        }
    }
}

/// What the resolver made of a conflict, where it was asked: the properties of
/// the document that is to stay, or `None` for "no document".
pub type Answer = Option<Option<crate::fleece::Entries>>;

/// What pulling one candidate does, given whether the filter let it pass and
/// what the resolver answered where it was asked. A candidate that the filter
/// held back changes nothing and is not reported. One without a conflict is
/// taken in as `pull_one` says. One with a conflict is settled as
/// `pull_settled` says where there is an answer, and stays unsettled where
/// there is none.
pub open spec fn pull_step(
    t: TransferModel,
    local: DatabaseModel,
    c: ChangeModel,
    verdict: bool,
    answer: Answer,
) -> (TransferModel, DatabaseModel, Option<ReplicatedModel>) {
    if !verdict {
        (t, local, None)
    } else if !target_moved(local, c.document.id, mark_of(t.marks, c.document.id).local_sequence) {
        let step = pull_one(t, local, c);
        (step.0, step.1, Some(step.2))
    } else {
        match answer {
            Some(settled) => {
                let step = pull_settled(t, local, c, settled);
                (step.0, step.1, Some(step.2))
            },
            None => {
                let step = pull_unsettled(t, local, c);
                (step.0, step.1, Some(step.2))
            },
        }
    }
}

/// What a round of pulling does: the candidates are pulled in their order, each
/// as `pull_step` says.
pub open spec fn pull_all(
    t: TransferModel,
    local: DatabaseModel,
    candidates: Seq<ChangeModel>,
    verdicts: Seq<bool>,
    answers: Seq<Answer>,
) -> (TransferModel, DatabaseModel, Seq<ReplicatedModel>)
    decreases candidates.len(),
{
    if candidates.len() == 0 || verdicts.len() != candidates.len() || answers.len()
        != candidates.len() {
        (t, local, Seq::empty())
    } else {
        let before = pull_all(
            t,
            local,
            candidates.drop_last(),
            verdicts.drop_last(),
            answers.drop_last(),
        );
        let step = pull_step(
            before.0,
            before.1,
            candidates.last(),
            verdicts.last(),
            answers.last(),
        );
        (
            step.0,
            step.1,
            match step.2 {
                Some(report) => before.2.push(report),
                None => before.2,
            },
        )
    }
}


/// A candidate for pulling is one of the changes, and is still to be pulled.
pub proof fn lemma_pull_candidates(changes: Seq<ChangeModel>, t: TransferModel, ids: Seq<ValueModel>)
    ensures
        pull_candidates(changes, t, ids).len() <= changes.len(),
        forall|k: int|
            0 <= k < pull_candidates(changes, t, ids).len() ==> needs_pull(
                t,
                ids,
                #[trigger] pull_candidates(changes, t, ids)[k],
            ) && exists|i: int|
                0 <= i < changes.len() && #[trigger] changes[i] == pull_candidates(
                    changes,
                    t,
                    ids,
                )[k],
    decreases changes.len(),
{
    if changes.len() > 0 {
        let front = changes.drop_last();
        let last = changes.len() - 1;
        lemma_pull_candidates(front, t, ids);
        let all = pull_candidates(changes, t, ids);
        let before = pull_candidates(front, t, ids);
        assert forall|k: int| 0 <= k < all.len() implies needs_pull(t, ids, #[trigger] all[k])
            && exists|i: int| 0 <= i < changes.len() && #[trigger] changes[i] == all[k] by {
            if k < before.len() {
                assert(all[k] == before[k]);
                let i = choose|i: int| 0 <= i < front.len() && #[trigger] front[i] == before[k];
                assert(changes[i] == all[k]);
            } else {
                assert(changes[last] == all[k]);
            }
        }
    }
}


/// What became of one candidate of a round with encryption: the filter held it
/// back; or it passed, and its properties came out of the encryption or the
/// decryption as the given ones; or it passed, and its properties could not be
/// encrypted or decrypted.
pub ghost enum Passage {
    Held,
    Through(crate::fleece::Entries),
    Failed(EncryptionError),
}

/// The change with other properties.
pub open spec fn with_properties(c: ChangeModel, properties: crate::fleece::Entries) -> ChangeModel {
    ChangeModel {
        document: crate::document::DocumentModel { properties, ..c.document },
        deleted: c.deleted,
    }
}

/// The earlier of a sequence that is held back and a new one.
pub open spec fn earlier_of(held: Option<u64>, sequence: u64) -> Option<u64> {
    Some(
        match held {
            Some(h) => if h <= sequence {
                h
            } else {
                sequence
            },
            None => sequence,
        },
    )
}

/// The sequence to hold the checkpoint back to after the candidate `c` has had
/// the passage `passage`: that of the first candidate that failed for a while
/// only.
pub open spec fn held_after(held: Option<u64>, c: ChangeModel, passage: Passage) -> Option<u64> {
    match passage {
        Passage::Failed(EncryptionError::Temporary) => earlier_of(held, c.document.sequence),
        _ => held,
    }
}

/// The report of a document whose properties could not be encrypted or
/// decrypted.
pub open spec fn crypto_report(c: ChangeModel) -> ReplicatedModel {
    report_of(c, Some(Error::spec_cbl_error(CouchbaseLiteError::Crypto)))
}

/// What a round of pushing with encryption does, given the passage of each
/// candidate: what was held back changes nothing; what came through is pushed
/// with its properties as they came out of the encryption; what failed is
/// reported with the error `Crypto`. The last part of the result is the
/// sequence to hold the checkpoint back to, if any.
pub open spec fn push_sealed_all(
    t: TransferModel,
    remote: DatabaseModel,
    candidates: Seq<ChangeModel>,
    passages: Seq<Passage>,
) -> (TransferModel, DatabaseModel, Seq<ReplicatedModel>, Option<u64>)
    decreases candidates.len(),
{
    if candidates.len() == 0 || passages.len() != candidates.len() {
        (t, remote, Seq::empty(), None)
    } else {
        let before = push_sealed_all(t, remote, candidates.drop_last(), passages.drop_last());
        let held = held_after(before.3, candidates.last(), passages.last());
        match passages.last() {
            Passage::Held => (before.0, before.1, before.2, held),
            Passage::Through(properties) => {
                let step = push_one(
                    before.0,
                    before.1,
                    with_properties(candidates.last(), properties),
                );
                (step.0, step.1, before.2.push(step.2), held)
            },
            Passage::Failed(_) => (
                before.0,
                before.1,
                before.2.push(crypto_report(candidates.last())),
                held,
            ),
        }
    }
}

/// What a round of pulling with decryption does, given the passage of each
/// candidate and what the resolver answered where it was asked: what was held
/// back changes nothing; what came through is pulled with its properties as
/// they came out of the decryption, as `pull_step` says; what failed is
/// reported with the error `Crypto`. The last part of the result is the
/// sequence to hold the checkpoint back to, if any.
pub open spec fn pull_opened_all(
    t: TransferModel,
    local: DatabaseModel,
    candidates: Seq<ChangeModel>,
    passages: Seq<Passage>,
    answers: Seq<Answer>,
) -> (TransferModel, DatabaseModel, Seq<ReplicatedModel>, Option<u64>)
    decreases candidates.len(),
{
    if candidates.len() == 0 || passages.len() != candidates.len() || answers.len()
        != candidates.len() {
        (t, local, Seq::empty(), None)
    } else {
        let before = pull_opened_all(
            t,
            local,
            candidates.drop_last(),
            passages.drop_last(),
            answers.drop_last(),
        );
        let held = held_after(before.3, candidates.last(), passages.last());
        match passages.last() {
            Passage::Held => (before.0, before.1, before.2, held),
            Passage::Through(properties) => {
                let step = pull_step(
                    before.0,
                    before.1,
                    with_properties(candidates.last(), properties),
                    true,
                    answers.last(),
                );
                (step.0, step.1, before.2.push(step.2->0), held)
            },
            Passage::Failed(_) => (
                before.0,
                before.1,
                before.2.push(crypto_report(candidates.last())),
                held,
            ),
        }
    }
}

/// The checkpoint after a round: just before the sequence that is held back,
/// and at the latest change where none is.
pub open spec fn checkpoint_after(held: Option<u64>, latest: u64) -> u64 {
    match held {
        Some(h) => if h >= 1 {
            (h - 1) as u64
        } else {
            0
        },
        None => latest,
    }
}

} // verus!
