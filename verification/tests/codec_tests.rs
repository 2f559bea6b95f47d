use notes_app::Note;
use notes_app::NotesManager;

const PATH: &str = "data/notes.json";

#[test]
fn empty_collection_renders_as_empty_array() {
    let store = NotesManager::new(PATH);
    assert_eq!(store.to_json(), "[]");
}

#[test]
fn one_note_renders_exactly() {
    let text = "[{\"id\":\"a\",\"title\":\"T\",\"content\":\"c\",\"created_at\":\"2024-01-01T00:00:00+00:00\",\"updated_at\":\"2024-01-02T00:00:00+00:00\",\"tags\":[\"t1\",\"t2\"]}]";
    let store = NotesManager::from_json(PATH, text);
    assert_eq!(store.notes_count(), 1);
    let note = store.get_note("a").expect("parsed");
    assert_eq!(note.id, "a");
    assert_eq!(note.title, "T");
    assert_eq!(note.content, "c");
    assert_eq!(note.created_at, "2024-01-01T00:00:00+00:00");
    assert_eq!(note.updated_at, "2024-01-02T00:00:00+00:00");
    assert_eq!(note.tags, vec!["t1".to_string(), "t2".to_string()]);
    assert_eq!(store.to_json(), text);
}

#[test]
fn escaping_renders_exactly() {
    let text = "[{\"id\":\"a\",\"title\":\"say \\\"hi\\\"\",\"content\":\"line1\\nline2\\ttab\\rcr\",\"created_at\":\"x\",\"updated_at\":\"x\",\"tags\":[\"back\\\\slash\"]}]";
    let store = NotesManager::from_json(PATH, text);
    assert_eq!(store.notes_count(), 1);
    let note = store.get_note("a").expect("parsed");
    assert_eq!(note.title, "say \"hi\"");
    assert_eq!(note.content, "line1\nline2\ttab\rcr");
    assert_eq!(note.tags, vec!["back\\slash".to_string()]);
    assert_eq!(store.to_json(), text);
}

#[test]
fn round_trip_keeps_every_field_and_the_order() {
    let mut store = NotesManager::new(PATH);
    store.add_note(
        "Groceries".to_string(),
        "milk, eggs".to_string(),
        vec!["home".to_string()],
    );
    store.add_note(
        "quotes \" and \\ slashes".to_string(),
        "multi\nline\twith\rcontrols".to_string(),
        vec![],
    );
    store.add_note(
        "unicode \u{e9}\u{4e2d}\u{1f600}".to_string(),
        String::new(),
        vec!["caf\u{e9}".to_string(), "caf\u{e9}".to_string()],
    );
    let text = store.to_json();
    let reloaded = NotesManager::from_json(PATH, &text);
    assert_eq!(reloaded.list_notes(), store.list_notes());
}

#[test]
fn missing_file_yields_empty_then_reload_returns_the_note() {
    let first_run = NotesManager::load_notes(PATH, None);
    assert_eq!(first_run.notes_count(), 0);

    let mut store = first_run;
    let note = store.add_note("only".to_string(), "body".to_string(), vec![]);
    let text = store.to_json();

    let reloaded = NotesManager::load_notes(PATH, Some(&text));
    assert_eq!(reloaded.notes_count(), 1);
    assert_eq!(reloaded.get_note(&note.id).expect("persisted"), note);
}

#[test]
fn corrupt_documents_yield_the_empty_collection() {
    for text in [
        "",
        "not json at all",
        "{}",
        "[",
        "[{]",
        "[{\"id\":\"a\"}]",
        "[{\"title\":\"first\",\"id\":\"a\",\"content\":\"c\",\"created_at\":\"x\",\"updated_at\":\"x\",\"tags\":[]}]",
        "[{\"id\":\"a\",\"title\":\"T\",\"content\":\"c\",\"created_at\":\"x\",\"updated_at\":\"x\",\"tags\":[]}] ",
        "[{\"id\":\"a\",\"title\":\"T\",\"content\":\"c\",\"created_at\":\"x\",\"updated_at\":\"x\",\"tags\":[]},]",
    ] {
        let store = NotesManager::from_json(PATH, text);
        assert_eq!(store.notes_count(), 0, "input treated as corrupt: {text:?}");
    }
}

#[test]
fn duplicate_identifiers_count_as_corrupt() {
    let one = "{\"id\":\"a\",\"title\":\"T\",\"content\":\"c\",\"created_at\":\"x\",\"updated_at\":\"x\",\"tags\":[]}";
    let text = format!("[{one},{one}]");
    let store = NotesManager::from_json(PATH, &text);
    assert_eq!(store.notes_count(), 0);
}

#[test]
fn parsing_does_not_unescape_twice() {
    // the persisted form of a backslash followed by an n is distinct from
    // the persisted form of a newline
    let text = "[{\"id\":\"a\",\"title\":\"\\\\n\",\"content\":\"\\n\",\"created_at\":\"x\",\"updated_at\":\"x\",\"tags\":[]}]";
    let store = NotesManager::from_json(PATH, text);
    let note = store.get_note("a").expect("parsed");
    assert_eq!(note.title, "\\n");
    assert_eq!(note.content, "\n");
    assert_eq!(store.to_json(), text);
}

#[test]
fn notes_constructed_by_hand_round_trip() {
    let note = Note {
        id: "id-1".to_string(),
        title: "a title".to_string(),
        content: "some content".to_string(),
        created_at: "2023-05-06T07:08:09.123+02:00".to_string(),
        updated_at: "2023-05-06T07:08:09.123+02:00".to_string(),
        tags: vec!["one".to_string(), "two".to_string()],
    };
    let mut store = NotesManager::new(PATH);
    let created = store.add_note(note.title.clone(), note.content.clone(), note.tags.clone());
    let text = store.to_json();
    let reloaded = NotesManager::from_json(PATH, &text);
    let got = reloaded.get_note(&created.id).expect("persisted");
    assert_eq!(got.title, note.title);
    assert_eq!(got.content, note.content);
    assert_eq!(got.tags, note.tags);
}
