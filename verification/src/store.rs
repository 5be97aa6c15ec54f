//! The store as a value: what every operation makes of it, and what holds of
//! it whatever operations it has gone through.
//!
//! [`ModelView`] is what a [`crate::model::Model`] stands for. The functions
//! here say what adding and removing documents means; the executable store is
//! verified against them.

use crate::document::{Document, DocumentView};
use crate::model::TermWeight;
use crate::path::path_starts_with;
use vstd::prelude::*;

verus! {

/// One more, held at the largest value that the counter can take.
pub open spec fn bumped(n: usize) -> usize {
    if n < usize::MAX {
        (n + 1) as usize
    } else {
        n
    }
}

/// `n` less `by`, held at zero.
pub open spec fn lowered(n: usize, by: nat) -> usize {
    if n >= by {
        (n - by) as usize
    } else {
        0
    }
}

/// The document frequencies `df` after one more document with the terms
/// `terms` has been counted: each of its terms goes up by one, whatever its
/// count inside the document, and a term that had no entry starts at one.
pub open spec fn counted(
    df: Map<Seq<char>, usize>,
    terms: Set<Seq<char>>,
) -> Map<Seq<char>, usize> {
    Map::new(
        |t: Seq<char>| df.contains_key(t) || terms.contains(t),
        |t: Seq<char>|
            if terms.contains(t) {
                bumped(
                    if df.contains_key(t) {
                        df[t]
                    } else {
                        0
                    },
                )
            } else {
                df[t]
            },
    )
}

/// The document frequencies `df` after a document with the terms `terms` has
/// left: each of its terms that has an entry goes down by one, never below
/// zero. No entry is taken out.
pub open spec fn uncounted(
    df: Map<Seq<char>, usize>,
    terms: Set<Seq<char>>,
) -> Map<Seq<char>, usize> {
    Map::new(
        |t: Seq<char>| df.contains_key(t),
        |t: Seq<char>|
            if terms.contains(t) {
                lowered(df[t], 1)
            } else {
                df[t]
            },
    )
}

/// What the index store is: its documents, its document frequencies, and the
/// place of its snapshot.
pub struct ModelView {
    pub docs: Map<Seq<char>, DocumentView>,
    pub df: Map<Seq<char>, usize>,
    pub index: Seq<char>,
}

impl ModelView {
    /// The documents are finitely many, and each is well formed.
    pub open spec fn wf(self) -> bool {
        &&& self.docs.dom().finite()
        &&& forall|p: Seq<char>| self.docs.contains_key(p) ==> (#[trigger] self.docs[p]).wf()
    }

    /// The store with no document, whose snapshot goes to `index`.
    pub open spec fn empty(index: Seq<char>) -> ModelView {
        ModelView { docs: Map::empty(), df: Map::empty(), index }
    }

    /// The document frequency on record for `term`; zero without an entry.
    pub open spec fn doc_freq(self, term: Seq<char>) -> usize {
        if self.df.contains_key(term) {
            self.df[term]
        } else {
            0
        }
    }

    /// The paths of the documents that hold `term`.
    pub open spec fn holders(self, term: Seq<char>) -> Set<Seq<char>> {
        self.docs.dom().filter(|p: Seq<char>| self.docs[p].tf.contains_key(term))
    }

    /// The record of every term equals the number of documents that hold it.
    pub open spec fn df_consistent(self) -> bool {
        forall|t: Seq<char>| #[trigger] self.doc_freq(t) == self.holders(t).len()
    }

    /// No term is on record with a count of zero.
    pub open spec fn df_positive(self) -> bool {
        forall|t: Seq<char>| self.df.contains_key(t) ==> #[trigger] self.df[t] >= 1
    }

    /// The store without the documents whose path is in `gone`. The record of
    /// a term goes down by one for each document that leaves and held it.
    pub open spec fn without(self, gone: Set<Seq<char>>) -> ModelView {
        ModelView {
            docs: self.docs.remove_keys(gone),
            df: Map::new(
                |t: Seq<char>| self.df.contains_key(t),
                |t: Seq<char>| lowered(self.df[t], self.holders(t).intersect(gone).len()),
            ),
            index: self.index,
        }
    }

    /// The store after the document at `path`, if there is one, has left.
    pub open spec fn remove_document(self, path: Seq<char>) -> ModelView {
        self.without(set![path])
    }

    /// The store after every document under the directory `dir` has left.
    pub open spec fn remove_directory(self, dir: Seq<char>) -> ModelView {
        self.without(Set::new(|p: Seq<char>| path_starts_with(p, dir)))
    }

    /// `path` is indexed with other content than `doc` has.
    pub open spec fn replaces(self, doc: DocumentView, path: Seq<char>) -> bool {
        self.docs.contains_key(path) && self.docs[path].hash != doc.hash
    }

    /// `path` is indexed with the very content that `doc` has. Adding `doc`
    /// then counts its terms a second time.
    pub open spec fn recounts(self, doc: DocumentView, path: Seq<char>) -> bool {
        self.docs.contains_key(path) && self.docs[path].hash == doc.hash
    }

    /// The store after `doc` has been added at `path`. A document at `path`
    /// with another hash leaves first. Then the terms of `doc` are counted,
    /// also when `path` already held the same content.
    pub open spec fn add_document(self, doc: DocumentView, path: Seq<char>) -> ModelView {
        let base = if self.replaces(doc, path) {
            self.remove_document(path)
        } else {
            self
        };
        ModelView {
            docs: base.docs.insert(path, doc),
            df: counted(base.df, doc.tf.dom()),
            index: self.index,
        }
    }

    /// What the score of `doc` for `term` is computed from.
    pub open spec fn weight(self, doc: DocumentView, term: Seq<char>) -> TermWeight {
        TermWeight {
            count: doc.count(term),
            vocabulary: doc.terms,
            documents: self.docs.len() as usize,
            doc_freq: if self.doc_freq(term) > 0 {
                self.doc_freq(term)
            } else {
                1
            },
        }
    }

    /// The weights of `doc` for the terms `terms`, one for each in order.
    pub open spec fn weights(self, doc: DocumentView, terms: Seq<Seq<char>>) -> Seq<TermWeight> {
        terms.map_values(|t: Seq<char>| self.weight(doc, t))
    }

    /// The store after the files of `files` have been added one after the
    /// other, each document at the path beside it.
    pub open spec fn add_all(self, files: Seq<(Document, String)>) -> ModelView
        decreases files.len(),
    {
        if files.len() == 0 {
            self
        } else {
            self.add_all(files.drop_last()).add_document(files.last().0@, files.last().1@)
        }
    }

    /// The store after one operation.
    pub open spec fn step(self, op: Op) -> ModelView {
        match op {
            Op::Add { doc, path } => self.add_document(doc, path),
            Op::Remove { path } => self.remove_document(path),
            Op::RemoveDirectory { dir } => self.remove_directory(dir),
        }
    }

    /// The store after the operations `ops`, the first one first.
    pub open spec fn run(self, ops: Seq<Op>) -> ModelView
        decreases ops.len(),
    {
        if ops.len() == 0 {
            self
        } else {
            self.run(ops.drop_last()).step(ops.last())
        }
    }

    /// `op` does not add a document at a path that holds the same content
    /// already, and leaves a store whose documents a counter can count.
    pub open spec fn counts_once(self, op: Op) -> bool {
        match op {
            Op::Add { doc, path } => doc.wf() && !self.recounts(doc, path) && self.add_document(
                doc,
                path,
            ).docs.len() <= usize::MAX,
            _ => true,
        }
    }
}

/// One change to the store.
pub enum Op {
    Add { doc: DocumentView, path: Seq<char> },
    Remove { path: Seq<char> },
    RemoveDirectory { dir: Seq<char> },
}

/// The documents that hold a term are among the documents.
pub proof fn lemma_holders(m: ModelView, term: Seq<char>)
    requires
        m.wf(),
    ensures
        m.holders(term).finite(),
        m.holders(term).len() <= m.docs.len(),
{
    vstd::set_lib::lemma_len_subset(m.holders(term), m.docs.dom());
}

/// Removing no document changes nothing.
pub proof fn lemma_without_nothing(m: ModelView)
    ensures
        m.without(Set::empty()) == m,
{
    let after = m.without(Set::empty());
    assert(after.docs =~= m.docs);
    assert forall|t: Seq<char>| m.df.contains_key(t) implies #[trigger] after.df[t] == m.df[t] by {
        assert(m.holders(t).intersect(Set::empty()) =~= Set::<Seq<char>>::empty());
    }
    assert(after.df =~= m.df);
}

/// Only the paths that are indexed matter to what a removal leaves.
pub proof fn lemma_without_indexed(m: ModelView, gone: Set<Seq<char>>)
    ensures
        m.without(gone) == m.without(gone.intersect(m.docs.dom())),
{
    let inner = gone.intersect(m.docs.dom());
    assert(m.without(gone).docs =~= m.without(inner).docs);
    assert forall|t: Seq<char>| m.df.contains_key(t) implies #[trigger] m.without(gone).df[t]
        == m.without(inner).df[t] by {
        assert(m.holders(t).intersect(gone) =~= m.holders(t).intersect(inner));
    }
    assert(m.without(gone).df =~= m.without(inner).df);
}

/// Removing first the documents in `a` and then those in `b` is removing
/// those in either.
pub proof fn lemma_without_twice(m: ModelView, a: Set<Seq<char>>, b: Set<Seq<char>>)
    requires
        m.wf(),
    ensures
        m.without(a).without(b) == m.without(a.union(b)),
{
    let first = m.without(a);
    let both = m.without(a.union(b));
    assert(first.without(b).docs =~= both.docs);
    assert forall|t: Seq<char>| m.df.contains_key(t) implies #[trigger] first.without(b).df[t]
        == both.df[t] by {
        let h = m.holders(t);
        let x = h.intersect(a);
        let y = first.holders(t).intersect(b);
        assert(y =~= h.difference(a).intersect(b));
        assert(x.union(y) =~= h.intersect(a.union(b)));
        assert(x.disjoint(y));
        vstd::set_lib::lemma_set_disjoint_lens(x, y);
    }
    assert(first.without(b).df =~= both.df);
}

/// Removing the one document at `path` lowers the record of each of its
/// terms by one.
pub proof fn lemma_remove_one(m: ModelView, path: Seq<char>)
    requires
        m.wf(),
    ensures
        m.docs.contains_key(path) ==> m.remove_document(path).df == uncounted(
            m.df,
            m.docs[path].tf.dom(),
        ),
        m.docs.contains_key(path) ==> m.remove_document(path).docs == m.docs.remove(path),
        !m.docs.contains_key(path) ==> m.remove_document(path) == m,
{
    let gone = set![path];
    let after = m.remove_document(path);
    let held = m.docs.contains_key(path);
    assert(after.docs =~= m.docs.remove(path));
    assert forall|t: Seq<char>| (#[trigger] m.holders(t)).intersect(gone).len() == (if held
        && m.docs[path].tf.contains_key(t) {
        1nat
    } else {
        0nat
    }) by {
        let hit = m.holders(t).intersect(gone);
        if held && m.docs[path].tf.contains_key(t) {
            assert(hit =~= set![path]);
        } else {
            assert(hit =~= Set::<Seq<char>>::empty());
        }
    }
    if held {
        assert(after.df =~= uncounted(m.df, m.docs[path].tf.dom()));
    } else {
        assert(after.df =~= m.df);
        assert(after.docs =~= m.docs);
    }
}

/// The store without documents has no term on record.
pub proof fn lemma_empty_counts(index: Seq<char>)
    ensures
        ModelView::empty(index).wf(),
        ModelView::empty(index).df_consistent(),
{
    let m = ModelView::empty(index);
    assert forall|t: Seq<char>| #[trigger] m.doc_freq(t) == m.holders(t).len() by {
        assert(m.holders(t) =~= Set::<Seq<char>>::empty());
    }
}

/// Removing documents keeps the record of every term equal to the number of
/// documents that hold it.
pub proof fn lemma_removal_keeps_counts(m: ModelView, gone: Set<Seq<char>>)
    requires
        m.wf(),
        m.df_consistent(),
    ensures
        m.without(gone).wf(),
        m.without(gone).df_consistent(),
        m.without(gone).docs.len() <= m.docs.len(),
{
    let after = m.without(gone);
    assert(after.docs.dom() =~= m.docs.dom().difference(gone));
    vstd::set_lib::lemma_len_subset(after.docs.dom(), m.docs.dom());
    assert forall|t: Seq<char>| #[trigger] after.doc_freq(t) == after.holders(t).len() by {
        let h = m.holders(t);
        let x = h.intersect(gone);
        let y = after.holders(t);
        lemma_holders(m, t);
        assert(y =~= h.difference(gone));
        assert(x.union(y) =~= h);
        assert(x.disjoint(y));
        vstd::set_lib::lemma_set_disjoint_lens(x, y);
        assert(m.doc_freq(t) == h.len());
    }
}

/// Adding a document keeps the record of every term equal to the number of
/// documents that hold it, unless the path already holds the same content.
pub proof fn lemma_addition_keeps_counts(m: ModelView, doc: DocumentView, path: Seq<char>)
    requires
        m.wf(),
        doc.wf(),
        m.df_consistent(),
        !m.recounts(doc, path),
        m.add_document(doc, path).docs.len() <= usize::MAX,
    ensures
        m.add_document(doc, path).wf(),
        m.add_document(doc, path).df_consistent(),
{
    let base = if m.replaces(doc, path) {
        m.remove_document(path)
    } else {
        m
    };
    lemma_removal_keeps_counts(m, set![path]);
    lemma_remove_one(m, path);
    let after = m.add_document(doc, path);
    assert(!base.docs.contains_key(path));
    assert(after.docs.dom() =~= base.docs.dom().insert(path));
    assert forall|t: Seq<char>| #[trigger] after.doc_freq(t) == after.holders(t).len() by {
        let h = base.holders(t);
        lemma_holders(base, t);
        assert(base.doc_freq(t) == h.len());
        if doc.tf.contains_key(t) {
            assert(after.holders(t) =~= h.insert(path));
        } else {
            assert(after.holders(t) =~= h);
        }
    }
}

/// After any sequence of additions and removals, the record of every term
/// equals the number of documents that hold it, provided that it did so
/// before and that no addition puts a document where the same content is
/// already indexed.
pub proof fn lemma_doc_freq_counts_holders(m: ModelView, ops: Seq<Op>)
    requires
        m.wf(),
        m.df_consistent(),
        forall|i: int| 0 <= i < ops.len() ==> m.run(#[trigger] ops.take(i)).counts_once(ops[i]),
    ensures
        m.run(ops).wf(),
        m.run(ops).df_consistent(),
    decreases ops.len(),
{
    if ops.len() > 0 {
        let before = ops.drop_last();
        assert forall|i: int| 0 <= i < before.len() implies m.run(
            #[trigger] before.take(i),
        ).counts_once(before[i]) by {
            assert(before.take(i) =~= ops.take(i));
        }
        lemma_doc_freq_counts_holders(m, before);
        assert(ops.take(ops.len() - 1) =~= before);
        let now = m.run(before);
        match ops.last() {
            Op::Add { doc, path } => {
                lemma_addition_keeps_counts(now, doc, path);
            },
            Op::Remove { path } => {
                lemma_removal_keeps_counts(now, set![path]);
            },
            Op::RemoveDirectory { dir } => {
                lemma_removal_keeps_counts(now, Set::new(|p: Seq<char>| path_starts_with(p, dir)));
            },
        }
    }
}

} // verus!
