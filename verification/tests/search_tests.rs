use notes_app::ApiResponse;
use notes_app::NotesManager;

fn sample_store() -> NotesManager {
    let mut store = NotesManager::new("data/notes.json");
    store.add_note(
        "Work plan".to_string(),
        "finish the report".to_string(),
        vec!["office".to_string()],
    );
    store.add_note(
        "Groceries".to_string(),
        "milk, eggs".to_string(),
        vec!["home".to_string(), "shopping".to_string()],
    );
    store.add_note(
        "Ideas".to_string(),
        "a note about WORKFLOWS".to_string(),
        vec![],
    );
    store.add_note(
        "Empty".to_string(),
        String::new(),
        vec!["homework".to_string()],
    );
    store
}

#[test]
fn search_is_case_insensitive() {
    let store = sample_store();
    let upper = store.search_notes("WORK");
    let lower = store.search_notes("work");
    assert_eq!(upper, lower);
    assert_eq!(upper.len(), 3);
}

#[test]
fn search_is_idempotent() {
    let store = sample_store();
    let first = store.search_notes("home");
    let second = store.search_notes("home");
    assert_eq!(first, second);
}

#[test]
fn search_matches_title_content_and_tags() {
    let store = sample_store();
    // in a title only
    assert_eq!(store.search_notes("groceries").len(), 1);
    // in a content only
    assert_eq!(store.search_notes("MILK").len(), 1);
    // in tags: "home" occurs in the tags "home" and "homework"
    assert_eq!(store.search_notes("home").len(), 2);
}

#[test]
fn search_keeps_collection_order() {
    let store = sample_store();
    let found = store.search_notes("work");
    assert_eq!(found[0].title, "Work plan");
    assert_eq!(found[1].title, "Ideas");
    assert_eq!(found[2].title, "Empty");
}

#[test]
fn search_without_matches_is_empty() {
    let store = sample_store();
    assert!(store.search_notes("nothing-like-this").is_empty());
}

#[test]
fn search_folds_the_stored_text_too() {
    let mut store = NotesManager::new("data/notes.json");
    store.add_note("SHOUTED TITLE".to_string(), String::new(), vec![]);
    let found = store.search_notes("shouted");
    assert_eq!(found.len(), 1);
}

#[test]
fn api_envelope_success_holds_the_data() {
    let r = ApiResponse::success(41usize, "done");
    assert!(r.success);
    assert_eq!(r.message, "done");
    assert_eq!(r.data, Some(41usize));
}

#[test]
fn api_envelope_error_holds_no_data() {
    let r = ApiResponse::error("missing");
    assert!(!r.success);
    assert_eq!(r.message, "missing");
    assert!(r.data.is_none());
}
