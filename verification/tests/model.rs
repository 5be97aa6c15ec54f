use loogle::document::Document;
use loogle::model::Model;

fn file(text: &str) -> Document {
    Document::new(text, text.as_bytes())
}

fn store(files: &[(&str, &str)]) -> Model {
    let mut model = Model::new("index.zst".to_string());
    for (path, text) in files {
        model.add_document(file(text), path.to_string());
    }
    model
}

/// The number of documents of `model` among `paths` that hold `term`.
fn holders(model: &Model, paths: &[&str], term: &str) -> usize {
    paths
        .iter()
        .filter(|p| model.document(p).map(|d| d.count(term) > 0).unwrap_or(false))
        .count()
}

#[test]
fn new_store_is_empty() {
    let model = Model::new("index.zst".to_string());
    assert_eq!(model.len(), 0);
    assert_eq!(model.index(), "index.zst");
    assert_eq!(model.doc_freq("apple"), 0);
    assert!(model.document("a.txt").is_none());
}

#[test]
fn add_document_counts_each_term_once() {
    let model = store(&[("a.txt", "apple apple apple banana")]);
    assert_eq!(model.len(), 1);
    assert_eq!(model.doc_freq("apple"), 1);
    assert_eq!(model.doc_freq("banana"), 1);
    assert_eq!(model.doc_freq("cherry"), 0);
    assert_eq!(model.document("a.txt").unwrap().count("apple"), 3);
}

#[test]
fn document_frequency_counts_documents() {
    let model = store(&[
        ("a.txt", "apple banana"),
        ("b.txt", "apple cherry"),
        ("c.txt", "apple apple"),
    ]);
    assert_eq!(model.len(), 3);
    assert_eq!(model.doc_freq("apple"), 3);
    assert_eq!(model.doc_freq("banana"), 1);
    assert_eq!(model.doc_freq("cherry"), 1);
}

#[test]
fn changed_document_replaces_the_old_one() {
    let mut model = store(&[("a.txt", "apple banana"), ("b.txt", "apple")]);
    model.add_document(file("banana cherry"), "a.txt".to_string());
    assert_eq!(model.len(), 2);
    assert_eq!(model.doc_freq("apple"), 1);
    assert_eq!(model.doc_freq("banana"), 1);
    assert_eq!(model.doc_freq("cherry"), 1);
    assert_eq!(model.document("a.txt").unwrap().count("apple"), 0);
    assert_eq!(model.document("a.txt").unwrap().count("cherry"), 1);
}

#[test]
fn unchanged_document_is_counted_twice() {
    let mut model = store(&[("a.txt", "apple banana")]);
    model.add_document(file("apple banana"), "a.txt".to_string());
    assert_eq!(model.len(), 1);
    assert_eq!(model.doc_freq("apple"), 2);
    assert_eq!(model.doc_freq("banana"), 2);
}

#[test]
fn remove_document_lowers_the_frequencies() {
    let mut model = store(&[("a.txt", "apple banana"), ("b.txt", "apple cherry")]);
    model.remove_document("a.txt");
    assert_eq!(model.len(), 1);
    assert!(model.document("a.txt").is_none());
    assert_eq!(model.doc_freq("apple"), 1);
    assert_eq!(model.doc_freq("banana"), 0);
    assert_eq!(model.doc_freq("cherry"), 1);
}

#[test]
fn remove_document_of_unknown_path_changes_nothing() {
    let mut model = store(&[("a.txt", "apple banana")]);
    model.remove_document("b.txt");
    assert_eq!(model.len(), 1);
    assert_eq!(model.doc_freq("apple"), 1);
    assert_eq!(model.doc_freq("banana"), 1);
    assert!(model.document("a.txt").is_some());
}

#[test]
fn remove_document_twice_is_removing_once() {
    let mut model = store(&[("a.txt", "apple"), ("b.txt", "apple")]);
    model.remove_document("a.txt");
    model.remove_document("a.txt");
    assert_eq!(model.len(), 1);
    assert_eq!(model.doc_freq("apple"), 1);
}

#[test]
fn frequencies_equal_the_number_of_holders_after_adds_and_removes() {
    let paths = ["a.txt", "b.txt", "c.txt", "d.txt"];
    let mut model = store(&[
        ("a.txt", "apple banana"),
        ("b.txt", "banana cherry"),
        ("c.txt", "cherry apple date"),
    ]);
    model.remove_document("b.txt");
    model.add_document(file("date date elder"), "d.txt".to_string());
    model.add_document(file("fig"), "a.txt".to_string());
    model.remove_document("nowhere.txt");
    for term in ["apple", "banana", "cherry", "date", "elder", "fig", "grape"] {
        assert_eq!(model.doc_freq(term), holders(&model, &paths, term), "{}", term);
    }
    assert_eq!(model.doc_freq("apple"), 1);
    assert_eq!(model.doc_freq("banana"), 0);
    assert_eq!(model.doc_freq("cherry"), 1);
    assert_eq!(model.doc_freq("date"), 2);
    assert_eq!(model.doc_freq("fig"), 1);
}

#[test]
fn remove_directory_removes_what_lies_under_it() {
    let mut model = store(&[
        ("/notes/a/x.txt", "apple"),
        ("/notes/a/deep/y.txt", "apple banana"),
        ("/notes/b/z.txt", "apple cherry"),
    ]);
    model.remove_directory("/notes/a");
    assert_eq!(model.len(), 1);
    assert!(model.document("/notes/a/x.txt").is_none());
    assert!(model.document("/notes/a/deep/y.txt").is_none());
    assert!(model.document("/notes/b/z.txt").is_some());
    assert_eq!(model.doc_freq("apple"), 1);
    assert_eq!(model.doc_freq("banana"), 0);
    assert_eq!(model.doc_freq("cherry"), 1);
}

#[test]
fn remove_directory_spares_siblings_with_the_same_prefix() {
    let mut model = store(&[
        ("/notes/a/x.txt", "apple"),
        ("/notes/ab/y.txt", "banana"),
        ("/notes/a.txt", "cherry"),
        ("/notes/abc", "date"),
    ]);
    model.remove_directory("/notes/a");
    assert_eq!(model.len(), 3);
    assert!(model.document("/notes/a/x.txt").is_none());
    assert!(model.document("/notes/ab/y.txt").is_some());
    assert!(model.document("/notes/a.txt").is_some());
    assert!(model.document("/notes/abc").is_some());
    assert_eq!(model.doc_freq("apple"), 0);
    assert_eq!(model.doc_freq("banana"), 1);
}

#[test]
fn remove_directory_takes_a_trailing_separator() {
    let mut model = store(&[("/notes/a/x.txt", "apple"), ("/notes/b/y.txt", "banana")]);
    model.remove_directory("/notes/a/");
    assert_eq!(model.len(), 1);
    assert!(model.document("/notes/b/y.txt").is_some());
}

#[test]
fn remove_directory_of_a_file_path_removes_that_file() {
    let mut model = store(&[("/notes/a.txt", "apple"), ("/notes/b.txt", "banana")]);
    model.remove_directory("/notes/a.txt");
    assert_eq!(model.len(), 1);
    assert!(model.document("/notes/b.txt").is_some());
}

#[test]
fn remove_directory_without_documents_changes_nothing() {
    let mut model = store(&[("/notes/a.txt", "apple")]);
    model.remove_directory("/elsewhere");
    assert_eq!(model.len(), 1);
    assert_eq!(model.doc_freq("apple"), 1);
}

#[test]
fn remove_directory_of_the_root_empties_the_store() {
    let mut model = store(&[("/notes/a.txt", "apple"), ("/b.txt", "apple banana")]);
    model.remove_directory("/");
    assert_eq!(model.len(), 0);
    assert_eq!(model.doc_freq("apple"), 0);
    assert_eq!(model.doc_freq("banana"), 0);
}

#[test]
fn from_data_dir_adds_every_file() {
    let files = vec![
        (file("apple banana"), "a.txt".to_string()),
        (file("banana cherry"), "b.txt".to_string()),
    ];
    let model = Model::from_data_dir("index.zst".to_string(), files);
    assert_eq!(model.index(), "index.zst");
    assert_eq!(model.len(), 2);
    assert_eq!(model.doc_freq("apple"), 1);
    assert_eq!(model.doc_freq("banana"), 2);
    assert_eq!(model.doc_freq("cherry"), 1);
}

#[test]
fn from_data_dir_of_nothing_is_the_empty_store() {
    let model = Model::from_data_dir("index.zst".to_string(), Vec::new());
    assert_eq!(model.len(), 0);
    assert_eq!(model.index(), "index.zst");
}

#[test]
fn from_data_dir_lets_the_later_file_win() {
    let files = vec![
        (file("apple"), "a.txt".to_string()),
        (file("banana"), "a.txt".to_string()),
    ];
    let model = Model::from_data_dir("index.zst".to_string(), files);
    assert_eq!(model.len(), 1);
    assert_eq!(model.doc_freq("apple"), 0);
    assert_eq!(model.doc_freq("banana"), 1);
}

#[test]
fn default_store_is_empty_and_has_no_index() {
    let model = Model::default();
    assert_eq!(model.len(), 0);
    assert_eq!(model.index(), "");
    assert_eq!(model.doc_freq("apple"), 0);
}

#[test]
fn documents_under_lists_each_path_once() {
    let model = store(&[
        ("/notes/a/x.txt", "apple"),
        ("/notes/ab/y.txt", "banana"),
        ("/notes/a/deep/z.txt", "cherry"),
    ]);
    let mut under = model.documents_under("/notes/a");
    under.sort();
    assert_eq!(under, vec!["/notes/a/deep/z.txt", "/notes/a/x.txt"]);
    assert!(model.documents_under("/elsewhere").is_empty());
    assert_eq!(model.documents_under("/").len(), 3);
}

#[test]
fn remove_documents_removes_those_that_are_indexed() {
    let mut model = store(&[("a.txt", "apple"), ("b.txt", "apple banana"), ("c.txt", "cherry")]);
    let paths: Vec<String> =
        ["a.txt", "nowhere.txt", "c.txt", "a.txt"].iter().map(|p| p.to_string()).collect();
    model.remove_documents(&paths);
    assert_eq!(model.len(), 1);
    assert!(model.document("b.txt").is_some());
    assert_eq!(model.doc_freq("apple"), 1);
    assert_eq!(model.doc_freq("banana"), 1);
    assert_eq!(model.doc_freq("cherry"), 0);
}

#[test]
fn remove_documents_of_nothing_changes_nothing() {
    let mut model = store(&[("a.txt", "apple")]);
    model.remove_documents(&Vec::new());
    assert_eq!(model.len(), 1);
    assert_eq!(model.doc_freq("apple"), 1);
}

#[test]
fn clone_of_a_store_is_a_store_of_its_own() {
    let mut model = store(&[("a.txt", "apple banana"), ("b.txt", "apple")]);
    let copy = model.clone();
    model.remove_document("a.txt");
    assert_eq!(model.len(), 1);
    assert_eq!(copy.len(), 2);
    assert_eq!(copy.index(), "index.zst");
    assert_eq!(copy.doc_freq("apple"), 2);
    assert_eq!(copy.doc_freq("banana"), 1);
    assert_eq!(copy.document("a.txt").unwrap().count("banana"), 1);
}

#[test]
fn from_data_dir_has_no_record_of_zero() {
    let files = vec![
        (file("apple banana"), "a.txt".to_string()),
        (file("banana cherry"), "b.txt".to_string()),
        (file(""), "c.txt".to_string()),
    ];
    let model = Model::from_data_dir("index.zst".to_string(), files);
    let snapshot = model.save();
    assert_eq!(snapshot.df.len(), 3);
    assert!(snapshot.df.iter().all(|(_, n)| *n >= 1));
    for (term, n) in &snapshot.df {
        assert_eq!(*n, holders(&model, &["a.txt", "b.txt", "c.txt"], term));
    }
}

#[test]
fn from_data_dir_counts_a_replaced_file_once() {
    let files = vec![
        (file("apple banana"), "a.txt".to_string()),
        (file("banana"), "b.txt".to_string()),
        (file("banana cherry"), "a.txt".to_string()),
        (file("apple banana"), "a.txt".to_string()),
    ];
    let model = Model::from_data_dir("index.zst".to_string(), files);
    assert_eq!(model.len(), 2);
    for term in ["apple", "banana", "cherry"] {
        assert_eq!(model.doc_freq(term), holders(&model, &["a.txt", "b.txt"], term), "{}", term);
    }
    assert_eq!(model.doc_freq("cherry"), 0);
}

#[test]
fn from_data_dir_counts_a_repeated_file_twice() {
    let files = vec![
        (file("apple"), "a.txt".to_string()),
        (file("apple"), "a.txt".to_string()),
    ];
    let model = Model::from_data_dir("index.zst".to_string(), files);
    assert_eq!(model.len(), 1);
    assert_eq!(model.doc_freq("apple"), 2);
}
