use notes_app::input::parse_tags_line;

#[test]
fn tags_line_splits_on_commas() {
    assert_eq!(
        parse_tags_line("home,work,ideas"),
        vec!["home".to_string(), "work".to_string(), "ideas".to_string()]
    );
}

#[test]
fn tags_line_trims_whitespace() {
    assert_eq!(
        parse_tags_line("  home ,\twork\t, ideas  "),
        vec!["home".to_string(), "work".to_string(), "ideas".to_string()]
    );
}

#[test]
fn tags_line_drops_empty_pieces() {
    assert_eq!(
        parse_tags_line(",home,, ,work,"),
        vec!["home".to_string(), "work".to_string()]
    );
}

#[test]
fn tags_line_keeps_duplicates_and_order() {
    assert_eq!(
        parse_tags_line("b,a,b"),
        vec!["b".to_string(), "a".to_string(), "b".to_string()]
    );
}

#[test]
fn tags_line_of_blanks_is_empty() {
    assert_eq!(parse_tags_line(""), Vec::<String>::new());
    assert_eq!(parse_tags_line("   "), Vec::<String>::new());
    assert_eq!(parse_tags_line(",,,"), Vec::<String>::new());
}

#[test]
fn tags_line_keeps_inner_whitespace() {
    assert_eq!(
        parse_tags_line("two words , other"),
        vec!["two words".to_string(), "other".to_string()]
    );
}
