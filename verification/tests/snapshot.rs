use loogle::document::Document;
use loogle::model::Model;
use loogle::snapshot::{DocumentRecord, Snapshot};

fn plain(terms: &[(&str, usize)]) -> DocumentRecord {
    DocumentRecord {
        tf: terms.iter().map(|(t, n)| (t.to_string(), *n)).collect(),
        terms: terms.len(),
        hash: "00".to_string(),
    }
}

fn counts(terms: &[(&str, usize)]) -> Vec<(String, usize)> {
    terms.iter().map(|(t, n)| (t.to_string(), *n)).collect()
}

#[test]
fn save_lists_documents_and_frequencies() {
    let mut model = Model::new("notes.idx".to_string());
    model.add_document(Document::new("apple banana apple", b"abc"), "a.txt".to_string());
    model.add_document(Document::new("banana", b""), "b.txt".to_string());
    let snapshot = model.save();
    assert_eq!(snapshot.index, "notes.idx");
    assert_eq!(snapshot.df, counts(&[("apple", 1), ("banana", 2)]));
    assert_eq!(snapshot.docs.len(), 2);
    assert_eq!(snapshot.docs[0].0, "a.txt");
    assert_eq!(snapshot.docs[0].1.tf, counts(&[("apple", 2), ("banana", 1)]));
    assert_eq!(snapshot.docs[0].1.terms, 2);
    assert_eq!(
        snapshot.docs[0].1.hash,
        "3a985da74fe225b2045c172d6bd390bd855f086e3e9d525b46bfe24511431532"
    );
    assert_eq!(snapshot.docs[1].0, "b.txt");
}

#[test]
fn save_then_load_reproduces_the_store() {
    let mut model = Model::new("notes.idx".to_string());
    model.add_document(Document::new("apple banana apple", b"one"), "a.txt".to_string());
    model.add_document(Document::new("banana cherry", b"two"), "b.txt".to_string());
    model.add_document(Document::new("banana cherry", b"two"), "b.txt".to_string());
    model.remove_document("a.txt");
    let loaded = Model::load_from_index(model.save()).unwrap();
    assert_eq!(loaded.index(), model.index());
    assert_eq!(loaded.len(), model.len());
    for term in ["apple", "banana", "cherry", "date"] {
        assert_eq!(loaded.doc_freq(term), model.doc_freq(term));
    }
    assert!(loaded.document("a.txt").is_none());
    let doc = loaded.document("b.txt").unwrap();
    assert_eq!(doc.count("banana"), 1);
    assert_eq!(doc.count("cherry"), 1);
    assert_eq!(doc.terms(), 2);
    assert_eq!(doc.hash(), model.document("b.txt").unwrap().hash());
    let again = loaded.save();
    let first = model.save();
    assert_eq!(again.df, first.df);
    assert_eq!(again.docs.len(), first.docs.len());
    assert_eq!(again.docs[0].1.tf, first.docs[0].1.tf);
}

#[test]
fn empty_store_round_trips() {
    let model = Model::new("notes.idx".to_string());
    let snapshot = model.save();
    assert!(snapshot.docs.is_empty());
    assert!(snapshot.df.is_empty());
    let loaded = Model::load_from_index(snapshot).unwrap();
    assert_eq!(loaded.len(), 0);
    assert_eq!(loaded.index(), "notes.idx");
}

#[test]
fn snapshot_with_a_repeated_path_is_refused() {
    let snapshot = Snapshot {
        docs: vec![
            ("a.txt".to_string(), plain(&[("apple", 1)])),
            ("a.txt".to_string(), plain(&[("banana", 1)])),
        ],
        df: counts(&[("apple", 1), ("banana", 1)]),
        index: "notes.idx".to_string(),
    };
    assert!(Model::load_from_index(snapshot).is_none());
}

#[test]
fn snapshot_with_a_repeated_term_is_refused() {
    let snapshot = Snapshot {
        docs: vec![("a.txt".to_string(), plain(&[("apple", 1)]))],
        df: counts(&[("apple", 1), ("apple", 1)]),
        index: "notes.idx".to_string(),
    };
    assert!(Model::load_from_index(snapshot).is_none());
}

#[test]
fn snapshot_with_an_invalid_document_is_refused() {
    let mut broken = plain(&[("apple", 1), ("banana", 2)]);
    broken.terms = 1;
    let snapshot = Snapshot {
        docs: vec![("a.txt".to_string(), plain(&[("apple", 1)])), ("b.txt".to_string(), broken)],
        df: counts(&[("apple", 2), ("banana", 1)]),
        index: "notes.idx".to_string(),
    };
    assert!(Model::load_from_index(snapshot).is_none());

    let snapshot = Snapshot {
        docs: vec![("a.txt".to_string(), plain(&[("apple", 1), ("apple", 1)]))],
        df: counts(&[("apple", 1)]),
        index: "notes.idx".to_string(),
    };
    assert!(Model::load_from_index(snapshot).is_none());
}

#[test]
fn frequencies_never_fall_below_zero() {
    let snapshot = Snapshot {
        docs: vec![("a.txt".to_string(), plain(&[("apple", 1), ("banana", 1)]))],
        df: counts(&[("apple", 0)]),
        index: "notes.idx".to_string(),
    };
    let mut model = Model::load_from_index(snapshot).unwrap();
    model.remove_document("a.txt");
    assert_eq!(model.len(), 0);
    assert_eq!(model.doc_freq("apple"), 0);
    assert_eq!(model.doc_freq("banana"), 0);
}

#[test]
fn frequencies_stop_at_the_largest_count() {
    let snapshot = Snapshot {
        docs: Vec::new(),
        df: counts(&[("apple", usize::MAX), ("banana", usize::MAX - 1)]),
        index: "notes.idx".to_string(),
    };
    let mut model = Model::load_from_index(snapshot).unwrap();
    model.add_document(Document::new("apple banana", b""), "a.txt".to_string());
    assert_eq!(model.doc_freq("apple"), usize::MAX);
    assert_eq!(model.doc_freq("banana"), usize::MAX);
}
