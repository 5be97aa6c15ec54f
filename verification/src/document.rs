//! One indexed file: how often each term occurs in it, how many different
//! terms it has, and the hash of its bytes.

use crate::digest::{content_hash, hash_of};
use crate::snapshot::DocumentRecord;
use crate::strmap::StrMap;
use crate::text::{tokenize, tokens, views};
use vstd::prelude::*;

verus! {

/// What a document is to the index.
pub struct DocumentView {
    /// Each term of the file with its number of occurrences.
    pub tf: Map<Seq<char>, usize>,
    /// The number of different terms. Term frequencies are normalised by this
    /// number, not by the number of tokens.
    pub terms: usize,
    /// The content hash of the file's bytes.
    pub hash: Seq<char>,
}

impl DocumentView {
    /// The terms are finitely many, and `terms` is their number.
    pub open spec fn wf(self) -> bool {
        &&& self.tf.dom().finite()
        &&& self.terms == self.tf.len()
    }

    /// The occurrences of `term`, none for a term that the file lacks.
    pub open spec fn count(self, term: Seq<char>) -> usize {
        if self.tf.contains_key(term) {
            self.tf[term]
        } else {
            0
        }
    }
}

/// Each term of a token sequence with the number of times it occurs there.
pub open spec fn term_counts(toks: Seq<Seq<char>>) -> Map<Seq<char>, usize> {
    Map::new(
        |t: Seq<char>| toks.contains(t),
        |t: Seq<char>| toks.to_multiset().count(t) as usize,
    )
}

/// The document of a file with the tokens `toks` and the content hash `hash`.
pub open spec fn document_of(toks: Seq<Seq<char>>, hash: Seq<char>) -> DocumentView {
    let tf = term_counts(toks);
    DocumentView { tf, terms: tf.len() as usize, hash }
}

/// The document that a file with the given text and bytes yields.
pub open spec fn indexed(text: Seq<char>, content: Seq<u8>) -> DocumentView {
    document_of(tokens(text), hash_of(content))
}

/// Whether a document with hash `hash` is out of date, given the hash that
/// its file has now, or nothing where the file cannot be read.
pub open spec fn outdated(hash: Seq<char>, current: Option<Seq<char>>) -> bool {
    match current {
        Some(now) => now != hash,
        None => true,
    }
}

/// Whether a document with hash `hash` is stale, given what can be read of its
/// file now: its bytes, or nothing where the file cannot be read.
pub open spec fn stale(hash: Seq<char>, content: Option<Seq<u8>>) -> bool {
    outdated(
        hash,
        match content {
            Some(bytes) => Some(hash_of(bytes)),
            None => None,
        },
    )
}

/// An indexed file.
#[derive(Debug, Clone)]
pub struct Document {
    tf: StrMap<usize>,
    terms: usize,
    hash: String,
}

impl View for Document {
    type V = DocumentView;

    closed spec fn view(&self) -> DocumentView {
        DocumentView { tf: self.tf@, terms: self.terms, hash: self.hash@ }
    }
}

proof fn lemma_counts_of_longer(toks: Seq<Seq<char>>, tok: Seq<char>)
    ensures
        term_counts(toks.push(tok)) == term_counts(toks).insert(
            tok,
            (toks.to_multiset().count(tok) + 1) as usize,
        ),
        toks.to_multiset().count(tok) <= toks.len(),
        toks.contains(tok) <==> toks.to_multiset().count(tok) > 0,
{
    broadcast use vstd::multiset::group_multiset_axioms;

    toks.to_multiset_ensures();
    toks.push(tok).to_multiset_ensures();
    let longer = toks.push(tok);
    assert forall|t: Seq<char>| longer.contains(t) <==> (toks.contains(t) || t == tok) by {
        if toks.contains(t) {
            let i = toks.index_of(t);
            assert(longer[i] == t);
        }
        if t == tok {
            assert(longer[toks.len() as int] == t);
        }
    }
    assert(term_counts(longer) =~= term_counts(toks).insert(
        tok,
        (toks.to_multiset().count(tok) + 1) as usize,
    ));
}

impl Document {
    /// No term is listed twice, and `terms` is the number of terms. This
    /// holds of every document that the library hands out.
    pub closed spec fn wf(&self) -> bool {
        &&& self.tf.wf()
        &&& self.terms == self.tf@.len()
    }

    /// A well-formed document has a well-formed view.
    pub proof fn lemma_wf(&self)
        requires
            self.wf(),
        ensures
            self@.wf(),
    {
        self.tf.lemma_view();
    }

    /// Indexes a file: `text` is what the file holds as text, `content` its raw
    /// bytes. The terms are counted over the whole text, the hash is taken
    /// over all the bytes.
    pub fn new(text: &str, content: &[u8]) -> (doc: Document)
        ensures
            doc.wf(),
            doc@ == indexed(text@, content@),
    {
        let toks = tokenize(text);
        Document::from_tokens(&toks, content_hash(content))
    }

    /// The document of a file whose text has the tokens `toks` and whose bytes
    /// have the hash `hash`: each different token with the number of times it
    /// occurs.
    pub fn from_tokens(toks: &Vec<String>, hash: String) -> (doc: Document)
        ensures
            doc.wf(),
            doc@ == document_of(views(toks@), hash@),
    {
        let mut tf: StrMap<usize> = StrMap::new();
        let mut k: usize = 0;
        assert(views(toks@).take(0) =~= Seq::<Seq<char>>::empty());
        assert(tf@ =~= term_counts(Seq::<Seq<char>>::empty()));
        while k < toks.len()
            invariant
                k <= toks@.len(),
                tf.wf(),
                tf@ == term_counts(views(toks@).take(k as int)),
            decreases toks@.len() - k,
        {
            let tok = &toks[k];
            proof {
                let seen = views(toks@).take(k as int);
                lemma_counts_of_longer(seen, tok@);
                assert(views(toks@).take(k + 1) =~= seen.push(tok@));
                assert(seen.len() == k);
            }
            match tf.position(tok.as_str()) {
                Some(i) => {
                    let n = *tf.value_at(i);
                    tf.set_value_at(i, n + 1);
                },
                None => {
                    tf.insert(tok.clone(), 1);
                },
            }
            k = k + 1;
        }
        assert(views(toks@).take(k as int) =~= views(toks@));
        let terms = tf.len();
        Document { tf, terms, hash }
    }

    /// The number of different terms.
    pub fn terms(&self) -> (n: usize)
        ensures
            n == self@.terms,
    {
        self.terms
    }

    /// The content hash.
    pub fn hash(&self) -> (h: &str)
        ensures
            h@ == self@.hash,
    {
        self.hash.as_str()
    }

    /// The terms with their counts.
    pub fn tf(&self) -> (tf: &StrMap<usize>)
        requires
            self.wf(),
        ensures
            tf.wf(),
            tf@ == self@.tf,
    {
        &self.tf
    }

    /// How often `term` occurs in the file.
    pub fn count(&self, term: &str) -> (n: usize)
        requires
            self.wf(),
        ensures
            n == self@.count(term@),
    {
        match self.tf.get(term) {
            Some(n) => *n,
            None => 0,
        }
    }

    /// The document as plain values, to be written out.
    pub fn to_record(&self) -> (record: DocumentRecord)
        requires
            self.wf(),
        ensures
            record.valid(),
            record@ == self@,
    {
        let tf = self.tf.to_entries();
        proof {
            self.tf.lemma_view();
        }
        DocumentRecord { tf, terms: self.terms, hash: self.hash.clone() }
    }

    /// The document that plain values stand for. There is none where a term
    /// occurs twice in the list, or where the number of terms is not the
    /// length of the list.
    pub fn from_record(record: DocumentRecord) -> (doc: Option<Document>)
        ensures
            doc is Some <==> record.valid(),
            doc matches Some(d) ==> d.wf() && d@ == record@,
    {
        let DocumentRecord { tf, terms, hash } = record;
        match StrMap::from_entries(tf) {
            Some(tf) => {
                if tf.len() == terms {
                    Some(Document { tf, terms, hash })
                } else {
                    None
                }
            },
            None => None,
        }
    }

    /// Whether the file has to be indexed again. `content` holds the bytes
    /// that the file has now, or nothing if it could not be read; an
    /// unreadable file always counts as changed.
    pub fn requires_reindexing(&self, content: Option<&[u8]>) -> (r: bool)
        ensures
            r == stale(
                self@.hash,
                match content {
                    Some(bytes) => Some(bytes@),
                    None => None,
                },
            ),
    {
        match content {
            Some(bytes) => {
                let now = content_hash(bytes);
                self.outdated_by(Some(now.as_str()))
            },
            None => self.outdated_by(None),
        }
    }

    /// Whether the document is out of date, given the hash that its file has
    /// now, or nothing where the file cannot be read.
    pub fn outdated_by(&self, current: Option<&str>) -> (r: bool)
        ensures
            r == outdated(
                self@.hash,
                match current {
                    Some(now) => Some(now@),
                    None => None,
                },
            ),
    {
        match current {
            Some(now) => !(*now == *self.hash.as_str()),
            None => true,
        }
    }
}

/// A document never asks to be indexed again while its file still holds the
/// bytes it was indexed from; it does whenever the file cannot be read, and
/// whenever the file's bytes hash to another value.
pub proof fn lemma_reindexing(text: Seq<char>, content: Seq<u8>, other: Seq<u8>)
    ensures
        !stale(indexed(text, content).hash, Some(content)),
        stale(indexed(text, content).hash, None),
        hash_of(other) != hash_of(content) ==> stale(indexed(text, content).hash, Some(other)),
{
}

} // verus!
