//! Snapshots: the whole store as plain values, on its way to the snapshot
//! file and back.
//!
//! What comes back from a file is not trusted. A snapshot becomes a store
//! only if every list in it names each key once and every document has as
//! many terms as it says.

use crate::document::{Document, DocumentView};
use crate::model::Model;
use crate::store::ModelView;
use crate::strmap::{keys_of, lemma_map_from, lemma_take_next, map_of, values_of, StrMap};
use vstd::prelude::*;

verus! {

/// A document as plain values.
#[derive(Debug)]
pub struct DocumentRecord {
    pub tf: Vec<(String, usize)>,
    pub terms: usize,
    pub hash: String,
}

/// A store as plain values.
#[derive(Debug)]
pub struct Snapshot {
    pub docs: Vec<(String, DocumentRecord)>,
    pub df: Vec<(String, usize)>,
    pub index: String,
}

impl DocumentRecord {
    /// No term occurs twice, and `terms` is the number of terms.
    pub open spec fn valid(&self) -> bool {
        &&& keys_of(self.tf@).no_duplicates()
        &&& self.terms == self.tf@.len()
    }
}

impl View for DocumentRecord {
    type V = DocumentView;

    open spec fn view(&self) -> DocumentView {
        DocumentView { tf: map_of(self.tf@), terms: self.terms, hash: self.hash@ }
    }
}

impl Snapshot {
    /// No path and no term occurs twice, and every document is valid.
    pub open spec fn valid(&self) -> bool {
        &&& keys_of(self.docs@).no_duplicates()
        &&& keys_of(self.df@).no_duplicates()
        &&& forall|i: int| 0 <= i < self.docs@.len() ==> (#[trigger] self.docs@[i]).1.valid()
    }
}

impl View for Snapshot {
    type V = ModelView;

    open spec fn view(&self) -> ModelView {
        ModelView {
            docs: map_of(self.docs@).map_values(|r: DocumentRecord| r@),
            df: map_of(self.df@),
            index: self.index@,
        }
    }
}

/// The store that a valid snapshot stands for is the store that was saved:
/// reading back what `save` gave reproduces the documents, the document
/// frequencies and the place of the snapshot.
pub proof fn lemma_save_then_load(m: Model, saved: Snapshot, loaded: Option<Model>)
    requires
        saved.valid() && saved@ == m@,
        loaded is Some <==> saved.valid(),
        loaded matches Some(l) ==> l@ == saved@,
    ensures
        loaded matches Some(l) && l@.docs == m@.docs && l@.df == m@.df && l@.index == m@.index,
{
}

impl Model {
    /// The store as plain values, for the snapshot file.
    pub fn save(&self) -> (snapshot: Snapshot)
        requires
            self.wf(),
        ensures
            snapshot.valid(),
            snapshot@ == self@,
    {
        let held = self.docs();
        let mut docs: Vec<(String, DocumentRecord)> = Vec::new();
        let mut i: usize = 0;
        assert(keys_of(docs@) =~= held.keys().take(0));
        while i < held.len()
            invariant
                i <= held.keys().len(),
                held.wf(),
                forall|p: Seq<char>| held@.contains_key(p) ==> (#[trigger] held@[p]).wf(),
                keys_of(docs@) == held.keys().take(i as int),
                forall|j: int|
                    0 <= j < docs@.len() ==> (#[trigger] docs@[j]).1.valid() && docs@[j].1@
                        == held.values()[j]@,
            decreases held.keys().len() - i,
        {
            let path = held.key_at(i);
            let doc = held.value_at(i);
            let ghost before = docs@;
            docs.push((path.clone(), doc.to_record()));
            proof {
                lemma_take_next(held.keys(), i as int);
                assert(keys_of(docs@) =~= keys_of(before).push(path@));
            }
            i = i + 1;
        }
        let counts = self.df();
        let df = counts.to_entries();
        let snapshot = Snapshot { docs, df, index: self.index().to_owned() };
        proof {
            held.lemma_view();
            counts.lemma_view();
            assert(held.keys().take(i as int) =~= held.keys());
            lemma_map_from(keys_of(docs@), values_of(docs@));
            assert(snapshot@.docs =~= self@.docs) by {
                assert forall|p: Seq<char>| #[trigger]
                    held@.contains_key(p) implies snapshot@.docs.contains_key(p)
                    && snapshot@.docs[p] == held@[p]@ by {
                    let j = held.keys().index_of(p);
                    assert(held.keys()[j] == p);
                    assert(keys_of(docs@)[j] == p);
                    assert(values_of(docs@)[j] == docs@[j].1);
                }
            }
        }
        snapshot
    }

    /// The store that a snapshot stands for. There is none where the
    /// snapshot is not valid.
    pub fn load_from_index(snapshot: Snapshot) -> (model: Option<Model>)
        ensures
            model is Some <==> snapshot.valid(),
            model matches Some(m) ==> m.wf() && m@ == snapshot@,
    {
        let ghost all = snapshot.docs@;
        let Snapshot { docs: records, df: counts, index } = snapshot;
        let df = match StrMap::from_entries(counts) {
            Some(df) => df,
            None => {
                return None;
            },
        };
        let mut docs: StrMap<Document> = StrMap::new();
        proof {
            assert(docs.keys() =~= keys_of(all.take(0)));
        }
        for entry in it: records
            invariant
                it.seq() == all,
                all == snapshot.docs@,
                docs.wf(),
                docs.keys() == keys_of(all.take(it.index() as int)),
                docs.keys().len() == docs.values().len(),
                forall|p: Seq<char>| docs@.contains_key(p) ==> (#[trigger] docs@[p]).wf(),
                forall|j: int|
                    0 <= j < it.index() ==> (#[trigger] all[j]).1.valid() && docs.values()[j]@
                        == all[j].1@,
        {
            let ghost n = it.index() as int;
            let (path, record) = entry;
            proof {
                lemma_take_next(all, n);
                docs.lemma_view();
                assert(keys_of(all.take(n + 1)) =~= keys_of(all.take(n)).push(path@));
            }
            let doc = match Document::from_record(record) {
                Some(doc) => doc,
                None => {
                    assert(!all[n].1.valid());
                    return None;
                },
            };
            if docs.contains_key(path.as_str()) {
                proof {
                    let j = docs.keys().index_of(path@);
                    assert(keys_of(all)[j] == keys_of(all.take(n))[j]);
                    assert(keys_of(all)[j] == keys_of(all)[n]);
                }
                return None;
            }
            docs.insert(path, doc);
        }
        proof {
            assert(all.take(all.len() as int) =~= all);
            docs.lemma_view();
            lemma_map_from(keys_of(all), values_of(all));
        }
        let ghost held = docs@;
        let ghost keys = docs.keys();
        let ghost values = docs.values();
        let model = Model::from_parts(docs, df, index);
        proof {
            assert(model@.docs =~= snapshot@.docs) by {
                assert forall|p: Seq<char>| #[trigger]
                    held.contains_key(p) implies snapshot@.docs.contains_key(p)
                    && snapshot@.docs[p] == held[p]@ by {
                    let j = keys.index_of(p);
                    assert(keys[j] == p);
                    assert(values_of(all)[j] == all[j].1);
                }
            }
        }
        Some(model)
    }
}

} // verus!
