use loogle::document::Document;
use loogle::event::{Change, ChangeEvent, ChangeKind, FileContent, IndexError};
use loogle::model::Model;

fn read(text: &str) -> Option<FileContent> {
    Some(FileContent { text: text.to_string(), content: text.as_bytes().to_vec() })
}

fn event(kind: ChangeKind, changes: Vec<(&str, Option<FileContent>)>) -> ChangeEvent {
    ChangeEvent {
        kind,
        changes: changes
            .into_iter()
            .map(|(path, file)| Change { path: path.to_string(), file })
            .collect(),
    }
}

fn indexed(files: &[(&str, &str)]) -> Model {
    let mut model = Model::new("index".to_string());
    for (path, text) in files {
        model.add_document(Document::new(text, text.as_bytes()), path.to_string());
    }
    model
}

/// What can be seen of a store: its size, and the record of some terms.
fn state(model: &Model) -> (usize, Vec<usize>) {
    let terms = ["apple", "banana", "cherry", "date"];
    (model.len(), terms.iter().map(|t| model.doc_freq(t)).collect())
}

#[test]
fn created_file_is_added() {
    let mut model = indexed(&[]);
    let created = event(ChangeKind::FileCreated, vec![("a.txt", read("apple banana"))]);
    let changed = model.update(&created);
    assert!(changed);
    assert_eq!(model.len(), 1);
    assert_eq!(model.doc_freq("apple"), 1);
    assert_eq!(model.document("a.txt").unwrap().count("banana"), 1);
}

#[test]
fn modified_file_replaces_its_document() {
    let mut model = indexed(&[("a.txt", "apple banana")]);
    let changed =
        model.update(&event(ChangeKind::FileDataModified, vec![("a.txt", read("cherry"))]));
    assert!(changed);
    assert_eq!(model.len(), 1);
    assert_eq!(model.doc_freq("apple"), 0);
    assert_eq!(model.doc_freq("banana"), 0);
    assert_eq!(model.doc_freq("cherry"), 1);
}

#[test]
fn modified_file_with_the_same_bytes_is_counted_again() {
    let mut model = indexed(&[("a.txt", "apple")]);
    let modified = event(ChangeKind::FileDataModified, vec![("a.txt", read("apple"))]);
    let changed = model.update(&modified);
    assert!(changed);
    assert_eq!(model.len(), 1);
    assert_eq!(model.doc_freq("apple"), 2);
}

#[test]
fn unreadable_file_is_passed_over_and_reported_as_a_change() {
    let mut model = indexed(&[("a.txt", "apple")]);
    let before = state(&model);
    let changed = model.update(&event(ChangeKind::FileCreated, vec![("b.txt", None)]));
    assert!(changed);
    assert_eq!(state(&model), before);
    assert!(model.document("b.txt").is_none());
    let changed = model.update(&event(ChangeKind::FileDataModified, vec![("a.txt", None)]));
    assert!(changed);
    assert_eq!(state(&model), before);
    assert_eq!(model.document("a.txt").unwrap().count("apple"), 1);
}

#[test]
fn event_with_several_paths_touches_each() {
    let mut model = indexed(&[]);
    let changed = model.update(&event(
        ChangeKind::FileCreated,
        vec![("a.txt", read("apple")), ("gone.txt", None), ("b.txt", read("apple banana"))],
    ));
    assert!(changed);
    assert_eq!(model.len(), 2);
    assert_eq!(model.doc_freq("apple"), 2);
    assert_eq!(model.doc_freq("banana"), 1);
}

#[test]
fn removed_file_leaves_the_store() {
    let mut model = indexed(&[("a.txt", "apple"), ("b.txt", "apple banana")]);
    let changed = model.update(&event(ChangeKind::FileRemoved, vec![("a.txt", None)]));
    assert!(changed);
    assert_eq!(model.len(), 1);
    assert_eq!(model.doc_freq("apple"), 1);
}

#[test]
fn removing_a_file_that_is_not_indexed_changes_nothing() {
    let mut model = indexed(&[("a.txt", "apple"), ("b.txt", "apple banana")]);
    let before = state(&model);
    let changed = model.update(&event(ChangeKind::FileRemoved, vec![("c.txt", None)]));
    assert!(changed);
    assert_eq!(state(&model), before);
    assert!(model.document("a.txt").is_some());
    assert!(model.document("b.txt").is_some());

    let mut empty = indexed(&[]);
    assert!(empty.update(&event(ChangeKind::FileRemoved, vec![("c.txt", None)])));
    assert_eq!(empty.len(), 0);
}

#[test]
fn removed_file_is_removed_whatever_was_read_of_it() {
    let mut model = indexed(&[("a.txt", "apple")]);
    let changed = model.update(&event(ChangeKind::FileRemoved, vec![("a.txt", read("apple"))]));
    assert!(changed);
    assert_eq!(model.len(), 0);
}

#[test]
fn removed_folder_takes_its_documents_along() {
    let mut model = indexed(&[
        ("/data/a/x.txt", "apple"),
        ("/data/a/y.txt", "banana"),
        ("/data/ab/z.txt", "cherry"),
    ]);
    let changed = model.update(&event(ChangeKind::FolderRemoved, vec![("/data/a", None)]));
    assert!(changed);
    assert_eq!(model.len(), 1);
    assert!(model.document("/data/ab/z.txt").is_some());
    assert_eq!(state(&model).1, vec![0, 0, 1, 0]);
}

#[test]
fn other_kinds_change_nothing_and_report_nothing() {
    let mut model = indexed(&[("a.txt", "apple")]);
    let before = state(&model);
    let changed = model.update(&event(ChangeKind::Other, vec![("a.txt", read("banana"))]));
    assert!(!changed);
    assert_eq!(state(&model), before);
}

#[test]
fn event_without_paths_reports_by_its_kind() {
    let mut model = indexed(&[("a.txt", "apple")]);
    assert!(model.update(&event(ChangeKind::FileCreated, vec![])));
    assert!(model.update(&event(ChangeKind::FileRemoved, vec![])));
    assert!(model.update(&event(ChangeKind::FolderRemoved, vec![])));
    assert!(!model.update(&event(ChangeKind::Other, vec![])));
    assert_eq!(model.len(), 1);
}

#[test]
fn update_all_applies_every_event_in_order() {
    let mut model = indexed(&[("a.txt", "apple")]);
    let events = vec![
        event(ChangeKind::FileCreated, vec![("b.txt", read("banana"))]),
        event(ChangeKind::Other, vec![]),
        event(ChangeKind::FileRemoved, vec![("a.txt", None)]),
        event(ChangeKind::FileDataModified, vec![("b.txt", read("banana cherry"))]),
    ];
    assert!(model.update_all(&events));
    assert_eq!(model.len(), 1);
    assert_eq!(state(&model).1, vec![0, 1, 1, 0]);
}

#[test]
fn update_all_reports_no_change_without_events() {
    let mut model = indexed(&[("a.txt", "apple")]);
    assert!(!model.update_all(&Vec::new()));
    assert_eq!(model.len(), 1);
}

#[test]
fn update_all_reports_no_change_for_other_kinds_only() {
    let mut model = indexed(&[("a.txt", "apple")]);
    let events =
        vec![event(ChangeKind::Other, vec![]), event(ChangeKind::Other, vec![("a.txt", None)])];
    assert!(!model.update_all(&events));
    assert_eq!(model.len(), 1);
}

#[test]
fn update_all_goes_on_after_the_first_change() {
    let mut model = indexed(&[]);
    let events = vec![
        event(ChangeKind::FileCreated, vec![("a.txt", read("apple"))]),
        event(ChangeKind::FileCreated, vec![("b.txt", read("banana"))]),
    ];
    assert!(model.update_all(&events));
    assert_eq!(model.len(), 2);
}

#[test]
fn file_that_was_read_is_indexed_and_added() {
    let mut model = indexed(&[]);
    let file = read("apple banana apple").unwrap();
    assert_eq!(model.add_document_from_path("a.txt".to_string(), Some(&file)), Ok(()));
    assert_eq!(model.len(), 1);
    assert_eq!(model.doc_freq("apple"), 1);
    assert_eq!(model.document("a.txt").unwrap().count("apple"), 2);
    assert_eq!(model.document("a.txt").unwrap().terms(), 2);
}

#[test]
fn file_that_was_not_read_is_an_error() {
    let mut model = indexed(&[("a.txt", "apple")]);
    let before = state(&model);
    assert_eq!(
        model.add_document_from_path("b.txt".to_string(), None),
        Err(IndexError::Unreadable)
    );
    assert_eq!(
        model.add_document_from_path("a.txt".to_string(), None),
        Err(IndexError::Unreadable)
    );
    assert_eq!(state(&model), before);
    assert!(model.document("b.txt").is_none());
}
