use notes_app::NotesManager;
use notes_app::StoreError;

fn fresh_store() -> NotesManager {
    NotesManager::new("data/notes.json")
}

#[test]
fn scenario_groceries() {
    let mut store = fresh_store();
    let note = store.add_note(
        "Groceries".to_string(),
        "milk, eggs".to_string(),
        vec!["home".to_string()],
    );
    assert!(!note.id.is_empty());
    assert_eq!(note.created_at, note.updated_at);
    assert_eq!(store.list_notes().len(), 1);

    let found = store.search_notes("milk");
    assert_eq!(found.len(), 1);
    assert_eq!(found[0], note);

    let updated = store
        .update_note(&note.id, None, Some("milk, eggs, bread".to_string()), None)
        .expect("the note exists");
    assert_eq!(updated.content, "milk, eggs, bread");
    assert_eq!(updated.created_at, note.created_at);
    assert_ne!(updated.updated_at, note.updated_at);
    assert_eq!(updated.id, note.id);

    assert!(store.delete_note(&note.id));
    assert!(store.get_note(&note.id).is_none());
}

#[test]
fn count_tracks_creates_and_deletes() {
    let mut store = fresh_store();
    assert_eq!(store.notes_count(), 0);
    let a = store.add_note("a".to_string(), "".to_string(), vec![]);
    let b = store.add_note("b".to_string(), "".to_string(), vec![]);
    let _c = store.add_note("c".to_string(), "".to_string(), vec![]);
    assert_eq!(store.notes_count(), 3);

    // an update never changes the count
    store.update_note(&a.id, Some("a2".to_string()), None, None);
    assert_eq!(store.notes_count(), 3);

    // a successful delete removes exactly one note
    assert!(store.delete_note(&b.id));
    assert_eq!(store.notes_count(), 2);

    // a failed delete removes nothing
    assert!(!store.delete_note(&b.id));
    assert_eq!(store.notes_count(), 2);

    assert!(store.delete_note_by_index(0).is_ok());
    assert_eq!(store.notes_count(), 1);
}

#[test]
fn create_then_get_returns_the_note() {
    let mut store = fresh_store();
    let note = store.add_note(
        "Title".to_string(),
        "Body".to_string(),
        vec!["x".to_string(), "y".to_string()],
    );
    let got = store.get_note(&note.id).expect("just created");
    assert_eq!(got, note);
}

#[test]
fn delete_then_get_reports_not_found() {
    let mut store = fresh_store();
    let keep = store.add_note("keep".to_string(), "".to_string(), vec![]);
    let gone = store.add_note("gone".to_string(), "".to_string(), vec![]);
    assert!(store.delete_note(&gone.id));
    assert!(store.get_note(&gone.id).is_none());
    assert!(store.get_note(&keep.id).is_some());
}

#[test]
fn fresh_identifiers_differ() {
    let mut store = fresh_store();
    let a = store.add_note("a".to_string(), "".to_string(), vec![]);
    let b = store.add_note("b".to_string(), "".to_string(), vec![]);
    assert_ne!(a.id, b.id);
}

#[test]
fn get_by_index_in_and_out_of_range() {
    let mut store = fresh_store();
    let first = store.add_note("first".to_string(), "".to_string(), vec![]);
    let second = store.add_note("second".to_string(), "".to_string(), vec![]);
    assert_eq!(store.get_note_by_index(0).unwrap(), first);
    assert_eq!(store.get_note_by_index(1).unwrap(), second);
    assert!(store.get_note_by_index(2).is_none());
}

#[test]
fn delete_by_index_out_of_range_fails() {
    let mut store = fresh_store();
    store.add_note("only".to_string(), "".to_string(), vec![]);
    assert_eq!(store.delete_note_by_index(1), Err(StoreError::IndexOutOfRange));
    assert_eq!(store.notes_count(), 1);
    assert_eq!(store.delete_note_by_index(0), Ok(()));
    assert_eq!(store.notes_count(), 0);
    assert_eq!(store.delete_note_by_index(0), Err(StoreError::IndexOutOfRange));
}

#[test]
fn deletion_keeps_the_order_of_the_rest() {
    let mut store = fresh_store();
    let a = store.add_note("a".to_string(), "".to_string(), vec![]);
    let b = store.add_note("b".to_string(), "".to_string(), vec![]);
    let c = store.add_note("c".to_string(), "".to_string(), vec![]);
    assert!(store.delete_note(&b.id));
    let left = store.list_notes();
    assert_eq!(left.len(), 2);
    assert_eq!(left[0], a);
    assert_eq!(left[1], c);
}

#[test]
fn update_absent_id_returns_none() {
    let mut store = fresh_store();
    store.add_note("a".to_string(), "".to_string(), vec![]);
    assert!(store.update_note("no-such-id", Some("t".to_string()), None, None).is_none());
    assert_eq!(store.notes_count(), 1);
}

#[test]
fn update_replaces_only_provided_fields() {
    let mut store = fresh_store();
    let note = store.add_note(
        "old title".to_string(),
        "old content".to_string(),
        vec!["old-tag".to_string()],
    );
    let updated = store
        .update_note(&note.id, Some("new title".to_string()), None, None)
        .expect("present");
    assert_eq!(updated.title, "new title");
    assert_eq!(updated.content, "old content");
    assert_eq!(updated.tags, vec!["old-tag".to_string()]);
    assert_eq!(updated.created_at, note.created_at);

    let touched = store.update_note(&note.id, None, None, None).expect("present");
    assert_eq!(touched.title, "new title");
    assert_eq!(touched.content, "old content");
    assert_eq!(touched.tags, vec!["old-tag".to_string()]);
    assert_eq!(touched.created_at, note.created_at);
}

#[test]
fn update_is_visible_in_the_store() {
    let mut store = fresh_store();
    let note = store.add_note("t".to_string(), "c".to_string(), vec![]);
    store.update_note(&note.id, None, Some("c2".to_string()), None);
    let got = store.get_note(&note.id).expect("present");
    assert_eq!(got.content, "c2");
}

#[test]
fn list_is_a_defensive_copy() {
    let mut store = fresh_store();
    let note = store.add_note("t".to_string(), "c".to_string(), vec![]);
    let mut listed = store.list_notes();
    listed[0].title = "mutated".to_string();
    listed.clear();
    assert_eq!(store.notes_count(), 1);
    assert_eq!(store.get_note(&note.id).unwrap().title, "t");
}

#[test]
fn tags_keep_order_and_duplicates() {
    let mut store = fresh_store();
    let tags = vec![
        "b".to_string(),
        "a".to_string(),
        "b".to_string(),
        "c".to_string(),
    ];
    let note = store.add_note("t".to_string(), "".to_string(), tags.clone());
    assert_eq!(note.tags, tags);
    assert_eq!(store.get_note(&note.id).unwrap().tags, tags);
}

#[test]
fn unique_tags_are_counted_over_all_notes() {
    let mut store = fresh_store();
    assert_eq!(store.total_unique_tags(), 0);
    store.add_note(
        "a".to_string(),
        "".to_string(),
        vec!["home".to_string(), "work".to_string(), "home".to_string()],
    );
    assert_eq!(store.total_unique_tags(), 2);
    let b = store.add_note(
        "b".to_string(),
        "".to_string(),
        vec!["work".to_string(), "ideas".to_string()],
    );
    assert_eq!(store.total_unique_tags(), 3);
    // tags differing only by case are distinct
    store.add_note("c".to_string(), "".to_string(), vec!["Home".to_string()]);
    assert_eq!(store.total_unique_tags(), 4);
    store.delete_note(&b.id);
    assert_eq!(store.total_unique_tags(), 3);
}

#[test]
fn storage_path_is_kept() {
    let store = NotesManager::new("some/dir/file.json");
    assert_eq!(store.storage_path(), "some/dir/file.json");
}
