use geffe::frequency::{
    bigram_count, bigram_shape, bigram_text, classify, coincidence_counts, count_occurrences,
    find_bigram, find_letter, get_bigram_frequency, get_letter_frequency, letters_count, pairs_of,
    BigramShape, CharClass,
};

const ALPHABET: &str = "абвгдежзийклмнопрстуфхцчшщъыьэюя";

fn table(entries: &[(&str, i64)]) -> Vec<(String, i64)> {
    entries.iter().map(|(bigram, count)| (bigram.to_string(), *count)).collect()
}

#[test]
fn occurrences_are_counted() {
    let text: Vec<char> = "ааабб".chars().collect();
    assert_eq!(count_occurrences(&text, 'а'), 3);
    assert_eq!(count_occurrences(&text, 'б'), 2);
    assert_eq!(count_occurrences(&text, 'в'), 0);
    assert_eq!(count_occurrences(&[], 'а'), 0);
}

#[test]
fn ordered_pairs_are_n_times_n_minus_one() {
    assert_eq!(pairs_of(0), 0);
    assert_eq!(pairs_of(1), 0);
    assert_eq!(pairs_of(2), 2);
    assert_eq!(pairs_of(5), 20);
    assert_eq!(pairs_of(usize::MAX), 0);
}

#[test]
fn coincidence_counts_pairs_of_equal_letters_and_pairs_of_positions() {
    assert_eq!(coincidence_counts("ааабб", ALPHABET), (8, 20));
    assert_eq!(coincidence_counts("", ALPHABET), (0, 0));
    assert_eq!(coincidence_counts("а", ALPHABET), (0, 0));
    assert_eq!(coincidence_counts("ааабб", ""), (0, 20));
    assert_eq!(coincidence_counts("abc abc", ALPHABET), (0, 42));
}

#[test]
fn coincidence_counts_a_letter_once_for_each_time_the_alphabet_names_it() {
    assert_eq!(coincidence_counts("аабб", "аа"), (4, 12));
}

#[test]
fn letter_frequency_lists_letters_in_the_order_of_first_occurrence() {
    assert_eq!(
        get_letter_frequency("абракадабра"),
        vec![('а', 5), ('б', 2), ('р', 2), ('к', 1), ('д', 1)]
    );
    assert_eq!(get_letter_frequency(""), vec![]);
    assert_eq!(get_letter_frequency("   "), vec![(' ', 3)]);
}

#[test]
fn letter_counts_add_up_to_the_length_of_the_text() {
    let frequencies = get_letter_frequency("абракадабра");
    assert_eq!(letters_count(&frequencies), 11);
    assert_eq!(letters_count(&[]), 0);
    assert_eq!(letters_count(&[('а', -2), ('б', 5)]), 3);
}

#[test]
fn letter_is_found_in_a_table() {
    let frequencies = [('а', 5), ('б', 2), ('а', 1)];
    assert_eq!(find_letter(&frequencies, 'а'), Some(0));
    assert_eq!(find_letter(&frequencies, 'б'), Some(1));
    assert_eq!(find_letter(&frequencies, 'в'), None);
}

#[test]
fn bigram_is_written_in_lowercase() {
    assert_eq!(bigram_text('А', 'б'), Some("аб".to_string()));
    assert_eq!(bigram_text('а', ' '), Some("а ".to_string()));
    assert_eq!(bigram_text('а', '\n'), Some("а ".to_string()));
    assert_eq!(bigram_text('\t', 'Я'), Some(" я".to_string()));
    assert_eq!(bigram_text(' ', ' '), None);
    assert_eq!(bigram_text('а', '1'), None);
    assert_eq!(bigram_text('1', 'а'), None);
    assert_eq!(bigram_text('-', ' '), None);
}

#[test]
fn bigram_with_a_long_lowercase_mapping_keeps_all_of_it() {
    // U+0130 maps to `i` followed by a combining dot.
    assert_eq!(bigram_text('\u{0130}', 'a'), Some("i\u{0307}a".to_string()));
}

#[test]
fn bigram_frequency_counts_overlapping_pairs() {
    assert_eq!(
        get_bigram_frequency("абаб а"),
        table(&[("аб", 2), ("ба", 1), ("б ", 1), (" а", 1)])
    );
    assert_eq!(get_bigram_frequency(""), table(&[]));
    assert_eq!(get_bigram_frequency("а"), table(&[]));
    assert_eq!(get_bigram_frequency("а1б"), table(&[]));
    assert_eq!(get_bigram_frequency("АБ аб"), table(&[("аб", 2), ("б ", 1), (" а", 1)]));
}

#[test]
fn bigram_counts_are_added_up() {
    assert_eq!(bigram_count(&get_bigram_frequency("абаб а")), 5);
    assert_eq!(bigram_count(&[]), 0);
}

#[test]
fn bigram_is_found_in_a_table() {
    let frequencies = table(&[("аб", 2), ("ба", 1)]);
    assert_eq!(find_bigram(&frequencies, &"ба".to_string()), Some(1));
    assert_eq!(find_bigram(&frequencies, &"аб".to_string()), Some(0));
    assert_eq!(find_bigram(&frequencies, &"вв".to_string()), None);
}

#[test]
fn bigram_shape_follows_the_classes_of_the_two_neighbours() {
    let letter = CharClass { letter: true, space: false };
    let space = CharClass { letter: false, space: true };
    let other = CharClass { letter: false, space: false };
    let both = CharClass { letter: true, space: true };
    assert_eq!(bigram_shape(letter, letter), Some(BigramShape::Letters));
    assert_eq!(bigram_shape(letter, space), Some(BigramShape::LetterSpace));
    assert_eq!(bigram_shape(space, letter), Some(BigramShape::SpaceLetter));
    assert_eq!(bigram_shape(space, space), None);
    assert_eq!(bigram_shape(other, letter), None);
    assert_eq!(bigram_shape(letter, other), None);
    assert_eq!(bigram_shape(other, other), None);
    assert_eq!(bigram_shape(both, both), Some(BigramShape::Letters));
    assert_eq!(bigram_shape(both, space), Some(BigramShape::LetterSpace));
}

#[test]
fn characters_are_classified_by_the_character_tables() {
    assert_eq!(classify('я'), CharClass { letter: true, space: false });
    assert_eq!(classify(' '), CharClass { letter: false, space: true });
    assert_eq!(classify('\u{00A0}'), CharClass { letter: false, space: true });
    assert_eq!(classify('7'), CharClass { letter: false, space: false });
}
