use geffe::utils::{
    blank, chars_of, is_cyrillic, kept_character, preprocess_text, process_line, remove_spaces,
};

#[test]
fn cyrillic_block_runs_from_0400_to_04ff() {
    assert!(!is_cyrillic(&'\u{03FF}'));
    assert!(is_cyrillic(&'\u{0400}'));
    assert!(is_cyrillic(&'а'));
    assert!(is_cyrillic(&'Я'));
    assert!(is_cyrillic(&'\u{04FF}'));
    assert!(!is_cyrillic(&'\u{0500}'));
    assert!(!is_cyrillic(&'a'));
    assert!(!is_cyrillic(&' '));
}

#[test]
fn preprocessing_keeps_lowercase_cyrillic_letters_and_single_spaces() {
    assert_eq!(preprocess_text("Привет,  мир!"), Some("привет мир".to_string()));
    assert_eq!(preprocess_text("ПРИВЕТ"), Some("привет".to_string()));
    assert_eq!(preprocess_text("abc привет xyz"), Some(" привет ".to_string()));
}

#[test]
fn preprocessing_keeps_one_leading_space() {
    assert_eq!(preprocess_text("   а"), Some(" а".to_string()));
    assert_eq!(preprocess_text("abc def"), Some(" ".to_string()));
}

#[test]
fn preprocessing_returns_none_when_nothing_is_left() {
    assert_eq!(preprocess_text(""), None);
    assert_eq!(preprocess_text("abc123"), None);
    assert_eq!(preprocess_text("\n\t!?"), None);
}

#[test]
fn preprocessing_drops_cyrillic_characters_that_are_not_letters() {
    // U+0482 is the Cyrillic thousands sign: in the block, not alphabetic.
    assert_eq!(preprocess_text("а\u{0482}б"), Some("аб".to_string()));
}

#[test]
fn preprocessing_does_not_merge_spaces_across_dropped_text() {
    assert_eq!(preprocess_text("а - б"), Some("а б".to_string()));
    assert_eq!(preprocess_text("а\nб"), Some("аб".to_string()));
}

#[test]
fn remove_spaces_drops_spaces_line_feeds_and_nul() {
    assert_eq!(remove_spaces("a b\nc\0d"), "abcd");
    assert_eq!(remove_spaces("привет мир"), "приветмир");
    assert_eq!(remove_spaces(" \n\0"), "");
    assert_eq!(remove_spaces(""), "");
    assert_eq!(remove_spaces("a\tb\rc"), "a\tb\rc");
}

#[test]
fn blank_line_holds_white_space_only() {
    assert!(blank(""));
    assert!(blank("  \t \u{00A0}\u{3000}"));
    assert!(!blank("  a "));
    assert!(!blank("\0"));
}

#[test]
fn blank_line_yields_nothing() {
    assert_eq!(process_line("", true), None);
    assert_eq!(process_line("   ", true), None);
    assert_eq!(process_line("   ", false), None);
    assert_eq!(process_line("\t", false), None);
}

#[test]
fn line_is_preprocessed_with_spaces_and_stripped_without() {
    assert_eq!(process_line("Привет, мир", true), Some("привет мир".to_string()));
    assert_eq!(process_line("привет мир", false), Some("приветмир".to_string()));
    assert_eq!(process_line("abc", true), None);
    assert_eq!(process_line("a b", true), Some(" ".to_string()));
    assert_eq!(process_line("abc", false), Some("abc".to_string()));
    assert_eq!(process_line("\0", false), Some("".to_string()));
}

#[test]
fn characters_of_a_string_are_listed_in_order() {
    assert_eq!(chars_of("аб c"), vec!['а', 'б', ' ', 'c']);
    assert_eq!(chars_of(""), Vec::<char>::new());
}

#[test]
fn preprocessing_lowers_letters_by_their_full_mapping() {
    // U+0410 to U+042F lower to U+0430 to U+044F, and U+0401 to U+0451.
    assert_eq!(preprocess_text("АЯЁ"), Some("аяё".to_string()));
    // U+04C0 lowers to U+04CF, which is no neighbour of it.
    assert_eq!(preprocess_text("\u{04C0}"), Some("\u{04CF}".to_string()));
}

#[test]
fn cyrillic_letter_is_kept_in_lowercase() {
    assert_eq!(kept_character('Я', true, 'я', false), Some('я'));
    assert_eq!(kept_character('Я', true, 'я', true), Some('я'));
    assert_eq!(kept_character('\u{0482}', false, '\u{0482}', false), None);
    assert_eq!(kept_character('z', true, 'z', false), None);
}

#[test]
fn space_is_kept_unless_it_follows_a_space() {
    assert_eq!(kept_character(' ', false, ' ', false), Some(' '));
    assert_eq!(kept_character(' ', false, ' ', true), None);
    assert_eq!(kept_character('\n', false, '\n', false), None);
    assert_eq!(kept_character('1', false, '1', false), None);
}
