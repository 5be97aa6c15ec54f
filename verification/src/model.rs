//! The index store: the documents by path, and for every term the number of
//! documents that hold it.

use crate::document::{Document, DocumentView};
use crate::path::{path_starts_with, starts_with};
use crate::store::{
    counted, lemma_addition_keeps_counts, lemma_empty_counts, lemma_remove_one,
    lemma_removal_keeps_counts, lemma_without_indexed, lemma_without_nothing,
    lemma_without_twice, uncounted, ModelView,
};
use crate::strmap::{lemma_take_next, StrMap};
use crate::text::{tokenize, tokens, views};
use vstd::prelude::*;

verus! {

/// What a term of the query contributes to the score of a document: the
/// term's frequency in the document is `count / vocabulary`, its inverse
/// document frequency the decimal logarithm of `documents / doc_freq`.
#[derive(Clone, Copy, Debug, PartialEq, Eq)]
pub struct TermWeight {
    /// The occurrences of the term in the document.
    pub count: usize,
    /// The number of different terms of the document.
    pub vocabulary: usize,
    /// The number of documents in the store.
    pub documents: usize,
    /// The document frequency on record for the term, and one where the
    /// record has none or zero.
    pub doc_freq: usize,
}

/// A document of the store with its weights for a query.
#[derive(Debug)]
pub struct Candidate {
    pub path: String,
    pub weights: Vec<TermWeight>,
}

/// The views of the documents of a map.
pub open spec fn doc_views(docs: Map<Seq<char>, Document>) -> Map<Seq<char>, DocumentView> {
    docs.map_values(|d: Document| d@)
}

/// The paths of a list of candidates.
pub open spec fn candidate_paths(candidates: Seq<Candidate>) -> Seq<Seq<char>> {
    candidates.map_values(|c: Candidate| c.path@)
}

/// The paths of a list of files.
pub open spec fn file_paths(files: Seq<(Document, String)>) -> Seq<Seq<char>> {
    files.map_values(|f: (Document, String)| f.1@)
}

/// No file of the list is added at a path that holds the same content by
/// then, so that no term is counted twice for one file.
pub open spec fn counts_each_once(index: Seq<char>, files: Seq<(Document, String)>) -> bool {
    forall|i: int|
        0 <= i < files.len() ==> !ModelView::empty(index).add_all(
            #[trigger] files.take(i),
        ).recounts(files[i].0@, files[i].1@)
}

/// The index store. It is changed through [`Model::add_document`],
/// [`Model::remove_document`] and [`Model::remove_directory`] alone, each of
/// which keeps the documents and the document frequencies in step.
#[derive(Debug, Clone)]
pub struct Model {
    docs: StrMap<Document>,
    df: StrMap<usize>,
    index: String,
}

impl View for Model {
    type V = ModelView;

    closed spec fn view(&self) -> ModelView {
        ModelView { docs: doc_views(self.docs@), df: self.df@, index: self.index@ }
    }
}

impl Default for Model {
    /// The store without documents and without a place for its snapshot.
    fn default() -> (m: Model)
        ensures
            m.wf(),
            m@ == ModelView::empty(Seq::empty()),
    {
        Model::new(String::new())
    }
}

/// Counts one more document with the terms of `tf`.
fn count_terms(df: &mut StrMap<usize>, tf: &StrMap<usize>)
    requires
        old(df).wf(),
        tf.wf(),
    ensures
        final(df).wf(),
        final(df)@ == counted(old(df)@, tf@.dom()),
{
    let mut i: usize = 0;
    proof {
        tf.lemma_view();
        assert(tf.keys().take(0).to_set() =~= Set::<Seq<char>>::empty());
        assert(df@ =~= counted(old(df)@, Set::<Seq<char>>::empty()));
    }
    while i < tf.len()
        invariant
            i <= tf.keys().len(),
            tf.wf(),
            df.wf(),
            df@ == counted(old(df)@, tf.keys().take(i as int).to_set()),
        decreases tf.keys().len() - i,
    {
        let term = tf.key_at(i);
        let ghost before = tf.keys().take(i as int).to_set();
        proof {
            lemma_take_next(tf.keys(), i as int);
        }
        match df.position(term.as_str()) {
            Some(j) => {
                let n = *df.value_at(j);
                df.set_value_at(
                    j,
                    if n < usize::MAX {
                        n + 1
                    } else {
                        n
                    },
                );
            },
            None => {
                df.insert(term.clone(), 1);
            },
        }
        assert(df@ =~= counted(old(df)@, before.insert(term@)));
        i = i + 1;
    }
    proof {
        tf.lemma_view();
        assert(tf.keys().take(i as int) =~= tf.keys());
    }
}

/// Takes one document with the terms of `tf` out of the count.
fn uncount_terms(df: &mut StrMap<usize>, tf: &StrMap<usize>)
    requires
        old(df).wf(),
        tf.wf(),
    ensures
        final(df).wf(),
        final(df)@ == uncounted(old(df)@, tf@.dom()),
{
    let mut i: usize = 0;
    proof {
        tf.lemma_view();
        assert(tf.keys().take(0).to_set() =~= Set::<Seq<char>>::empty());
        assert(df@ =~= uncounted(old(df)@, Set::<Seq<char>>::empty()));
    }
    while i < tf.len()
        invariant
            i <= tf.keys().len(),
            tf.wf(),
            df.wf(),
            df@ == uncounted(old(df)@, tf.keys().take(i as int).to_set()),
        decreases tf.keys().len() - i,
    {
        let term = tf.key_at(i);
        let ghost before = tf.keys().take(i as int).to_set();
        proof {
            lemma_take_next(tf.keys(), i as int);
        }
        match df.position(term.as_str()) {
            Some(j) => {
                let n = *df.value_at(j);
                df.set_value_at(
                    j,
                    if n > 0 {
                        n - 1
                    } else {
                        0
                    },
                );
            },
            None => {},
        }
        assert(df@ =~= uncounted(old(df)@, before.insert(term@)));
        i = i + 1;
    }
    proof {
        tf.lemma_view();
        assert(tf.keys().take(i as int) =~= tf.keys());
    }
}

impl Model {
    /// No path and no term is listed twice, and every document is well
    /// formed. This holds of every store that the library hands out.
    pub closed spec fn wf(&self) -> bool {
        &&& self.docs.wf()
        &&& self.df.wf()
        &&& forall|p: Seq<char>| self.docs@.contains_key(p) ==> (#[trigger] self.docs@[p]).wf()
    }

    /// A well-formed store has a well-formed view, with fewer documents than
    /// a counter can count.
    pub proof fn lemma_wf(&self)
        requires
            self.wf(),
        ensures
            self@.wf(),
            self@.docs.len() <= usize::MAX,
    {
        self.docs.lemma_view();
        assert(self@.docs.dom() =~= self.docs@.dom());
        assert forall|p: Seq<char>| self@.docs.contains_key(p) implies (#[trigger] self@.docs[
            p
        ]).wf() by {
            self.docs@[p].lemma_wf();
        }
    }

    /// A store without documents, whose snapshot goes to `index`.
    pub fn new(index: String) -> (m: Model)
        ensures
            m.wf(),
            m@ == ModelView::empty(index@),
            m@.df_consistent(),
    {
        let m = Model { docs: StrMap::new(), df: StrMap::new(), index };
        proof {
            assert(m@.docs =~= Map::<Seq<char>, DocumentView>::empty());
            lemma_empty_counts(index@);
        }
        m
    }

    /// Takes the document at `path` out of the store and lowers the record of
    /// each of its terms by one, never below zero. Nothing changes where
    /// `path` is not indexed.
    pub fn remove_document(&mut self, path: &str)
        requires
            old(self).wf(),
        ensures
            final(self).wf(),
            final(self)@ == old(self)@.remove_document(path@),
            old(self)@.df_consistent() ==> final(self)@.df_consistent(),
    {
        proof {
            self.lemma_wf();
            lemma_remove_one(self@, path@);
            if self@.df_consistent() {
                lemma_removal_keeps_counts(self@, set![path@]);
            }
        }
        match self.docs.remove(path) {
            Some(doc) => {
                uncount_terms(&mut self.df, doc.tf());
                proof {
                    assert(self@.docs =~= old(self)@.docs.remove(path@));
                    assert(self@ == old(self)@.remove_document(path@));
                }
            },
            None => {
                proof {
                    assert(self@.docs =~= old(self)@.docs);
                }
            },
        }
    }

    /// Puts `doc` into the store at `path`. If `path` holds a document with
    /// another hash, that one is removed first. Then each term of `doc` is
    /// counted once, and `doc` takes the place at `path`.
    ///
    /// Where `path` already holds a document with the same hash, nothing is
    /// removed and the terms are counted all the same, so they are counted
    /// twice for the one file.
    pub fn add_document(&mut self, doc: Document, path: String)
        requires
            old(self).wf(),
            doc.wf(),
        ensures
            final(self).wf(),
            final(self)@ == old(self)@.add_document(doc@, path@),
            old(self)@.df_consistent() && !old(self)@.recounts(doc@, path@)
                ==> final(self)@.df_consistent(),
    {
        let replaces = match self.docs.get(path.as_str()) {
            Some(held) => !(*held.hash() == *doc.hash()),
            None => false,
        };
        assert(replaces == old(self)@.replaces(doc@, path@));
        if replaces {
            self.remove_document(path.as_str());
        }
        let ghost base = self@;
        count_terms(&mut self.df, doc.tf());
        self.docs.insert(path, doc);
        proof {
            assert(self@.docs =~= base.docs.insert(path@, doc@));
            if old(self)@.df_consistent() && !old(self)@.recounts(doc@, path@) {
                old(self).lemma_wf();
                self.lemma_wf();
                doc.lemma_wf();
                lemma_addition_keeps_counts(old(self)@, doc@, path@);
            }
        }
    }

    /// The paths of the documents that lie under the directory `dir`, each
    /// once.
    pub fn documents_under(&self, dir: &str) -> (under: Vec<String>)
        requires
            self.wf(),
        ensures
            views(under@).no_duplicates(),
            views(under@).to_set() == self@.docs.dom().filter(
                |p: Seq<char>| path_starts_with(p, dir@),
            ),
    {
        let mut under: Vec<String> = Vec::new();
        let mut i: usize = 0;
        assert(self.docs.keys().take(0).to_set() =~= Set::<Seq<char>>::empty());
        assert(views(under@).to_set() =~= Set::<Seq<char>>::empty());
        while i < self.docs.len()
            invariant
                i <= self.docs.keys().len(),
                self.wf(),
                views(under@).no_duplicates(),
                views(under@).to_set() == self.docs.keys().take(i as int).to_set().filter(
                    |p: Seq<char>| path_starts_with(p, dir@),
                ),
            decreases self.docs.keys().len() - i,
        {
            let path = self.docs.key_at(i);
            let ghost seen = self.docs.keys().take(i as int).to_set();
            let ghost listed = views(under@);
            proof {
                lemma_take_next(self.docs.keys(), i as int);
            }
            if starts_with(path.as_str(), dir) {
                under.push(path.clone());
                proof {
                    assert(views(under@) =~= listed.push(path@));
                    listed.lemma_push_to_set_commute(path@);
                    assert(!listed.to_set().contains(path@));
                    assert forall|a: int, b: int|
                        0 <= a < b < views(under@).len() implies views(under@)[a] != views(
                        under@,
                    )[b] by {
                        if b == listed.len() {
                            assert(listed.contains(listed[a]));
                        }
                    }
                }
            }
            assert(views(under@).to_set() =~= seen.insert(path@).filter(
                |p: Seq<char>| path_starts_with(p, dir@),
            ));
            i = i + 1;
        }
        proof {
            self.docs.lemma_view();
            assert(self.docs.keys().take(i as int) =~= self.docs.keys());
            assert(self@.docs.dom() =~= self.docs@.dom());
        }
        under
    }

    /// Removes the documents at the paths `paths`, those of them that are
    /// indexed.
    pub fn remove_documents(&mut self, paths: &Vec<String>)
        requires
            old(self).wf(),
        ensures
            final(self).wf(),
            final(self)@ == old(self)@.without(views(paths@).to_set()),
            old(self)@.df_consistent() ==> final(self)@.df_consistent(),
    {
        proof {
            self.lemma_wf();
            lemma_without_nothing(self@);
            assert(views(paths@).take(0).to_set() =~= Set::<Seq<char>>::empty());
            if self@.df_consistent() {
                lemma_removal_keeps_counts(self@, views(paths@).to_set());
            }
        }
        let mut k: usize = 0;
        while k < paths.len()
            invariant
                k <= paths@.len(),
                self.wf(),
                old(self).wf(),
                self@ == old(self)@.without(views(paths@).take(k as int).to_set()),
            decreases paths@.len() - k,
        {
            self.remove_document(paths[k].as_str());
            proof {
                old(self).lemma_wf();
                lemma_take_next(views(paths@), k as int);
                let done = views(paths@).take(k as int).to_set();
                lemma_without_twice(old(self)@, done, set![paths@[k as int]@]);
                assert(done.insert(paths@[k as int]@) =~= done.union(set![paths@[k as int]@]));
            }
            k = k + 1;
        }
        assert(views(paths@).take(k as int) =~= views(paths@));
    }

    /// Removes every document whose path lies under the directory `dir`, and
    /// no other.
    pub fn remove_directory(&mut self, dir: &str)
        requires
            old(self).wf(),
        ensures
            final(self).wf(),
            final(self)@ == old(self)@.remove_directory(dir@),
            old(self)@.df_consistent() ==> final(self)@.df_consistent(),
    {
        let under = self.documents_under(dir);
        proof {
            let all = Set::new(|p: Seq<char>| path_starts_with(p, dir@));
            assert(views(under@).to_set() =~= all.intersect(self@.docs.dom()));
            lemma_without_indexed(self@, all);
        }
        self.remove_documents(&under);
    }

    /// The store that holds the given documents and document frequencies.
    pub(crate) fn from_parts(docs: StrMap<Document>, df: StrMap<usize>, index: String) -> (m: Model)
        requires
            docs.wf(),
            df.wf(),
            forall|p: Seq<char>| docs@.contains_key(p) ==> (#[trigger] docs@[p]).wf(),
        ensures
            m.wf(),
            m@ == (ModelView { docs: doc_views(docs@), df: df@, index: index@ }),
    {
        Model { docs, df, index }
    }

    /// The documents by path.
    pub(crate) fn docs(&self) -> (docs: &StrMap<Document>)
        requires
            self.wf(),
        ensures
            docs.wf(),
            doc_views(docs@) == self@.docs,
            forall|p: Seq<char>| docs@.contains_key(p) ==> (#[trigger] docs@[p]).wf(),
    {
        &self.docs
    }

    /// The document frequencies by term.
    pub(crate) fn df(&self) -> (df: &StrMap<usize>)
        requires
            self.wf(),
        ensures
            df.wf(),
            df@ == self@.df,
    {
        &self.df
    }

    /// The place of the snapshot.
    pub fn index(&self) -> (index: &str)
        ensures
            index@ == self@.index,
    {
        self.index.as_str()
    }

    /// The number of documents.
    pub fn len(&self) -> (n: usize)
        requires
            self.wf(),
        ensures
            n == self@.docs.len(),
    {
        proof {
            self.lemma_wf();
            assert(self@.docs.dom() =~= self.docs@.dom());
        }
        self.docs.len()
    }

    /// The document at `path`, if the store holds one.
    pub fn document(&self, path: &str) -> (doc: Option<&Document>)
        requires
            self.wf(),
        ensures
            doc is Some <==> self@.docs.contains_key(path@),
            doc matches Some(d) ==> d.wf() && d@ == self@.docs[path@],
    {
        self.docs.get(path)
    }

    /// The document frequency on record for `term`.
    pub fn doc_freq(&self, term: &str) -> (n: usize)
        requires
            self.wf(),
        ensures
            n == self@.doc_freq(term@),
    {
        match self.df.get(term) {
            Some(n) => *n,
            None => 0,
        }
    }

    /// The weights of `doc` for the terms `terms`.
    fn weigh(&self, doc: &Document, terms: &Vec<String>) -> (weights: Vec<TermWeight>)
        requires
            self.wf(),
            doc.wf(),
        ensures
            weights@ == self@.weights(doc@, views(terms@)),
    {
        let documents = self.len();
        let mut weights: Vec<TermWeight> = Vec::new();
        let mut i: usize = 0;
        while i < terms.len()
            invariant
                i <= terms@.len(),
                self.wf(),
                doc.wf(),
                documents == self@.docs.len(),
                weights@ == self@.weights(doc@, views(terms@).take(i as int)),
            decreases terms@.len() - i,
        {
            let term = terms[i].as_str();
            let recorded = self.doc_freq(term);
            let weight = TermWeight {
                count: doc.count(term),
                vocabulary: doc.terms(),
                documents,
                doc_freq: if recorded > 0 {
                    recorded
                } else {
                    1
                },
            };
            weights.push(weight);
            proof {
                lemma_take_next(views(terms@), i as int);
                assert(weights@ =~= self@.weights(doc@, views(terms@).take(i + 1)));
            }
            i = i + 1;
        }
        assert(views(terms@).take(i as int) =~= views(terms@));
        weights
    }

    /// Each document of the store, once, with its weights for the terms
    /// `terms` in their order. The order of the documents is that of the
    /// store and means nothing.
    pub fn candidates(&self, terms: &Vec<String>) -> (out: Vec<Candidate>)
        requires
            self.wf(),
        ensures
            candidate_paths(out@).no_duplicates(),
            candidate_paths(out@).to_set() == self@.docs.dom(),
            forall|i: int|
                0 <= i < out@.len() ==> (#[trigger] out@[i]).weights@ == self@.weights(
                    self@.docs[out@[i].path@],
                    views(terms@),
                ),
    {
        let mut out: Vec<Candidate> = Vec::new();
        let mut i: usize = 0;
        assert(candidate_paths(out@) =~= self.docs.keys().take(0));
        while i < self.docs.len()
            invariant
                i <= self.docs.keys().len(),
                self.wf(),
                candidate_paths(out@) == self.docs.keys().take(i as int),
                forall|k: int|
                    0 <= k < out@.len() ==> (#[trigger] out@[k]).weights@ == self@.weights(
                        self@.docs[out@[k].path@],
                        views(terms@),
                    ),
            decreases self.docs.keys().len() - i,
        {
            let path = self.docs.key_at(i);
            let doc = self.docs.value_at(i);
            let weights = self.weigh(doc, terms);
            let ghost before = out@;
            out.push(Candidate { path: path.clone(), weights });
            proof {
                lemma_take_next(self.docs.keys(), i as int);
                assert(candidate_paths(out@) =~= candidate_paths(before).push(path@));
            }
            i = i + 1;
        }
        proof {
            self.docs.lemma_view();
            assert(self.docs.keys().take(i as int) =~= self.docs.keys());
            assert(self@.docs.dom() =~= self.docs@.dom());
        }
        out
    }

    /// Prepares the ranking of the documents for the query `query`: each
    /// document of the store, once, with its weights for the tokens of the
    /// query in their order.
    ///
    /// The score of a document is the sum over its weights of
    /// `count / vocabulary * log10(documents / doc_freq)`.
    pub fn query(&self, query: &str) -> (out: Vec<Candidate>)
        requires
            self.wf(),
        ensures
            candidate_paths(out@).no_duplicates(),
            candidate_paths(out@).to_set() == self@.docs.dom(),
            forall|i: int|
                0 <= i < out@.len() ==> (#[trigger] out@[i]).weights@ == self@.weights(
                    self@.docs[out@[i].path@],
                    tokens(query@),
                ),
    {
        let terms = tokenize(query);
        self.candidates(&terms)
    }

    /// Builds the store from the files found under the data directory:
    /// starting without documents, adds each document of `files` at the path
    /// beside it, in order. `index` is where the snapshot will go.
    ///
    /// The record of every term is the number of documents that hold it,
    /// unless a file comes again with the content that its path holds by
    /// then. Where no path occurs twice among the files, as in a walk of a
    /// directory, no record is zero either.
    pub fn from_data_dir(index: String, files: Vec<(Document, String)>) -> (m: Model)
        requires
            forall|i: int| 0 <= i < files@.len() ==> (#[trigger] files@[i]).0.wf(),
        ensures
            m.wf(),
            m@ == ModelView::empty(index@).add_all(files@),
            counts_each_once(index@, files@) ==> m@.df_consistent(),
            file_paths(files@).no_duplicates() ==> m@.df_consistent() && m@.df_positive(),
    {
        let mut model = Model::new(index);
        let ghost start = model@;
        let ghost all = files@;
        assert(all.take(0) =~= Seq::<(Document, String)>::empty());
        assert(file_paths(all).take(0).to_set() =~= Set::<Seq<char>>::empty());
        for file in it: files
            invariant
                it.seq() == all,
                forall|i: int| 0 <= i < all.len() ==> (#[trigger] all[i]).0.wf(),
                model.wf(),
                start == ModelView::empty(index@),
                model@ == start.add_all(all.take(it.index() as int)),
                model@.docs.dom().subset_of(file_paths(all).take(it.index() as int).to_set()),
                counts_each_once(index@, all) ==> model@.df_consistent(),
                file_paths(all).no_duplicates() ==> model@.df_consistent() && model@.df_positive(),
        {
            let ghost n = it.index() as int;
            let ghost before = model@;
            proof {
                assert(all.take(n + 1).drop_last() =~= all.take(n));
                assert(file == all[n]);
                lemma_take_next(file_paths(all), n);
                model.lemma_wf();
            }
            let (doc, path) = file;
            model.add_document(doc, path);
            proof {
                assert(model@.docs.dom() =~= before.add_document(doc@, path@).docs.dom());
                if before.replaces(doc@, path@) {
                    lemma_remove_one(before, path@);
                }
                if file_paths(all).no_duplicates() {
                    assert(!before.docs.contains_key(path@));
                    assert(model@.df_positive());
                }
            }
        }
        assert(all.take(all.len() as int) =~= all);
        model
    }
}

} // verus!
