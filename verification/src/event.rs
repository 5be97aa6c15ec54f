//! Changes to the files under the data directory, and what each does to the
//! store.
//!
//! Whoever watches the directory reads a created or modified file before it
//! hands the event over, so that an event carries all that the store needs.

use crate::document::{indexed, Document};
use crate::model::Model;
use crate::store::{lemma_doc_freq_counts_holders, lemma_remove_one, ModelView, Op};
use crate::strmap::lemma_take_next;
use vstd::prelude::*;

verus! {

/// The kinds of change that the store reacts to, and one for all the others.
#[derive(Clone, Copy, Debug, PartialEq, Eq)]
pub enum ChangeKind {
    FileCreated,
    FileDataModified,
    FileRemoved,
    FolderRemoved,
    Other,
}

/// What was read of a file: its text, and all its bytes.
#[derive(Debug)]
pub struct FileContent {
    pub text: String,
    pub content: Vec<u8>,
}

/// One path of an event. `file` holds what the file at `path` held when the
/// event was taken up, or nothing if it could not be read; it matters only
/// to events that create or modify.
#[derive(Debug)]
pub struct Change {
    pub path: String,
    pub file: Option<FileContent>,
}

/// A change of one kind to one or more paths.
#[derive(Debug)]
pub struct ChangeEvent {
    pub kind: ChangeKind,
    pub changes: Vec<Change>,
}

/// Why a file was not indexed.
#[derive(Clone, Copy, Debug, PartialEq, Eq)]
pub enum IndexError {
    /// The file could not be opened, or not be read to its end.
    Unreadable,
}

/// The store after the file at `path` has been indexed from what was read of
/// it, which is the store as it was if nothing could be read.
pub open spec fn after_file(m: ModelView, path: Seq<char>, file: Option<FileContent>) -> ModelView {
    match file {
        Some(file) => m.add_document(indexed(file.text@, file.content@), path),
        None => m,
    }
}

/// Whether an event of this kind is reported as a change of the store. It is
/// for every kind that the store reacts to, whatever the event did.
pub open spec fn reports_change(kind: ChangeKind) -> bool {
    !(kind is Other)
}

/// The store after a change of kind `kind` to one path. A created or
/// modified file is indexed and added; one that could not be read is passed
/// over. A removed file leaves the store, and so does every document under a
/// removed folder.
pub open spec fn after_change(m: ModelView, kind: ChangeKind, change: Change) -> ModelView {
    match kind {
        ChangeKind::FileCreated | ChangeKind::FileDataModified => after_file(
            m,
            change.path@,
            change.file,
        ),
        ChangeKind::FileRemoved => m.remove_document(change.path@),
        ChangeKind::FolderRemoved => m.remove_directory(change.path@),
        ChangeKind::Other => m,
    }
}

/// The store after changes of one kind, the first one first.
pub open spec fn after_changes(m: ModelView, kind: ChangeKind, changes: Seq<Change>) -> ModelView
    decreases changes.len(),
{
    if changes.len() == 0 {
        m
    } else {
        after_change(after_changes(m, kind, changes.drop_last()), kind, changes.last())
    }
}

/// The store after an event.
pub open spec fn after_event(m: ModelView, event: ChangeEvent) -> ModelView {
    after_changes(m, event.kind, event.changes@)
}

/// The store after a list of events, the first one first.
pub open spec fn after_events(m: ModelView, events: Seq<ChangeEvent>) -> ModelView
    decreases events.len(),
{
    if events.len() == 0 {
        m
    } else {
        after_event(after_events(m, events.drop_last()), events.last())
    }
}

/// Whether one of the events is reported as a change.
pub open spec fn any_reports_change(events: Seq<ChangeEvent>) -> bool {
    exists|i: int| 0 <= i < events.len() && reports_change(#[trigger] events[i].kind)
}

/// The operations on the store that a change of kind `kind` to one path comes
/// to: one, or none where there is nothing to do.
pub open spec fn change_ops(kind: ChangeKind, change: Change) -> Seq<Op> {
    match kind {
        ChangeKind::FileCreated | ChangeKind::FileDataModified => match change.file {
            Some(file) => seq![
                Op::Add { doc: indexed(file.text@, file.content@), path: change.path@ },
            ],
            None => Seq::empty(),
        },
        ChangeKind::FileRemoved => seq![Op::Remove { path: change.path@ }],
        ChangeKind::FolderRemoved => seq![Op::RemoveDirectory { dir: change.path@ }],
        ChangeKind::Other => Seq::empty(),
    }
}

/// The operations on the store that changes of one kind come to.
pub open spec fn event_ops(kind: ChangeKind, changes: Seq<Change>) -> Seq<Op>
    decreases changes.len(),
{
    if changes.len() == 0 {
        Seq::empty()
    } else {
        event_ops(kind, changes.drop_last()) + change_ops(kind, changes.last())
    }
}

/// An event does to the store what its operations do, one after the other.
pub proof fn lemma_event_runs_ops(m: ModelView, kind: ChangeKind, changes: Seq<Change>)
    ensures
        after_changes(m, kind, changes) == m.run(event_ops(kind, changes)),
    decreases changes.len(),
{
    if changes.len() > 0 {
        lemma_event_runs_ops(m, kind, changes.drop_last());
        let before = event_ops(kind, changes.drop_last());
        let last = change_ops(kind, changes.last());
        if last.len() == 0 {
            assert(before + last =~= before);
        } else {
            assert((before + last).drop_last() =~= before);
        }
    }
}

/// An event keeps the record of every term equal to the number of documents
/// that hold it, provided that none of its operations adds a document where
/// the same content is already indexed.
pub proof fn lemma_event_keeps_counts(m: ModelView, kind: ChangeKind, changes: Seq<Change>)
    requires
        m.wf(),
        m.df_consistent(),
        forall|i: int|
            0 <= i < event_ops(kind, changes).len() ==> m.run(
                #[trigger] event_ops(kind, changes).take(i),
            ).counts_once(event_ops(kind, changes)[i]),
    ensures
        after_changes(m, kind, changes).wf(),
        after_changes(m, kind, changes).df_consistent(),
{
    lemma_event_runs_ops(m, kind, changes);
    lemma_doc_freq_counts_holders(m, event_ops(kind, changes));
}

/// An event that removes files of which none is indexed leaves the store as
/// it is. It is reported as a change all the same.
pub proof fn lemma_removing_unknown_files(m: ModelView, changes: Seq<Change>)
    requires
        m.wf(),
        forall|i: int| 0 <= i < changes.len() ==> !m.docs.contains_key(#[trigger] changes[i].path@),
    ensures
        after_changes(m, ChangeKind::FileRemoved, changes) == m,
        reports_change(ChangeKind::FileRemoved),
    decreases changes.len(),
{
    if changes.len() > 0 {
        lemma_removing_unknown_files(m, changes.drop_last());
        lemma_remove_one(m, changes.last().path@);
    }
}

impl Model {
    /// Indexes the file at `path` from what was read of it, and adds the
    /// document to the store. Fails, and leaves the store as it is, where the
    /// file could not be read.
    pub fn add_document_from_path(
        &mut self,
        path: String,
        file: Option<&FileContent>,
    ) -> (r: Result<(), IndexError>)
        requires
            old(self).wf(),
        ensures
            final(self).wf(),
            final(self)@ == after_file(
                old(self)@,
                path@,
                match file {
                    Some(f) => Some(*f),
                    None => None,
                },
            ),
            r is Ok <==> file is Some,
            r matches Err(e) ==> e == IndexError::Unreadable,
    {
        match file {
            Some(file) => {
                let doc = Document::new(file.text.as_str(), file.content.as_slice());
                self.add_document(doc, path);
                Ok(())
            },
            None => Err(IndexError::Unreadable),
        }
    }

    /// Applies one event to the store and tells whether the snapshot has to
    /// be written again. It has for every event of a kind that the store
    /// reacts to: also where a file could not be read and was passed over,
    /// and where nothing that was removed had been indexed.
    pub fn update(&mut self, event: &ChangeEvent) -> (changed: bool)
        requires
            old(self).wf(),
        ensures
            final(self).wf(),
            final(self)@ == after_event(old(self)@, *event),
            changed == reports_change(event.kind),
    {
        let mut i: usize = 0;
        assert(event.changes@.take(0) =~= Seq::<Change>::empty());
        while i < event.changes.len()
            invariant
                i <= event.changes@.len(),
                self.wf(),
                self@ == after_changes(old(self)@, event.kind, event.changes@.take(i as int)),
            decreases event.changes@.len() - i,
        {
            let change = &event.changes[i];
            proof {
                lemma_take_next(event.changes@, i as int);
                assert(event.changes@.take(i + 1).drop_last() =~= event.changes@.take(i as int));
            }
            match event.kind {
                ChangeKind::FileCreated | ChangeKind::FileDataModified => {
                    let _ = self.add_document_from_path(change.path.clone(), change.file.as_ref());
                },
                ChangeKind::FileRemoved => {
                    self.remove_document(change.path.as_str());
                },
                ChangeKind::FolderRemoved => {
                    self.remove_directory(change.path.as_str());
                },
                ChangeKind::Other => {},
            }
            i = i + 1;
        }
        assert(event.changes@.take(i as int) =~= event.changes@);
        match event.kind {
            ChangeKind::Other => false,
            _ => true,
        }
    }

    /// Applies the events that have come in since the last query, every one
    /// of them, in order. The result tells whether any of them was reported
    /// as a change, which is when the snapshot has to be written before the
    /// query is answered.
    pub fn update_all(&mut self, events: &Vec<ChangeEvent>) -> (changed: bool)
        requires
            old(self).wf(),
        ensures
            final(self).wf(),
            final(self)@ == after_events(old(self)@, events@),
            changed == any_reports_change(events@),
    {
        let mut changed = false;
        let mut i: usize = 0;
        assert(events@.take(0) =~= Seq::<ChangeEvent>::empty());
        while i < events.len()
            invariant
                i <= events@.len(),
                self.wf(),
                self@ == after_events(old(self)@, events@.take(i as int)),
                changed == any_reports_change(events@.take(i as int)),
            decreases events@.len() - i,
        {
            proof {
                lemma_take_next(events@, i as int);
                assert(events@.take(i + 1).drop_last() =~= events@.take(i as int));
            }
            let one = self.update(&events[i]);
            proof {
                let before = events@.take(i as int);
                let now = events@.take(i + 1);
                if one {
                    assert(reports_change(now[i as int].kind));
                }
                if changed {
                    let k = choose|k: int|
                        0 <= k < before.len() && reports_change(#[trigger] before[k].kind);
                    assert(reports_change(now[k].kind));
                }
                if any_reports_change(now) {
                    let k = choose|k: int|
                        0 <= k < now.len() && reports_change(#[trigger] now[k].kind);
                    if k < i {
                        assert(reports_change(before[k].kind));
                    }
                }
            }
            changed = changed || one;
            i = i + 1;
        }
        assert(events@.take(i as int) =~= events@);
        changed
    }
}

} // verus!
