use geffe::vigenere::{
    alphabet_letter, alphabet_position, decode_text, determine_key_characters,
    divide_into_blocks, encode_char, encode_line, key_character, most_frequent_letter,
};

fn chars(text: &str) -> Vec<char> {
    text.chars().collect()
}

#[test]
fn alphabet_runs_from_a_to_ya() {
    assert_eq!(alphabet_position('а'), Some(0));
    assert_eq!(alphabet_position('о'), Some(14));
    assert_eq!(alphabet_position('я'), Some(31));
    assert_eq!(alphabet_position('ё'), None);
    assert_eq!(alphabet_position('Я'), None);
    assert_eq!(alphabet_position('\u{042F}'), None);
    assert_eq!(alphabet_position('\u{0450}'), None);
    assert_eq!(alphabet_position('a'), None);
    assert_eq!(alphabet_letter(0), 'а');
    assert_eq!(alphabet_letter(14), 'о');
    assert_eq!(alphabet_letter(31), 'я');
    let alphabet: String = (0..32).map(alphabet_letter).collect();
    assert_eq!(alphabet, "абвгдежзийклмнопрстуфхцчшщъыьэюя");
}

#[test]
fn encode_char_adds_positions_and_takes_31_off_a_sum_above_31() {
    assert_eq!(encode_char('а', 'а'), 'а');
    assert_eq!(encode_char('п', 'р'), 'я');
    assert_eq!(encode_char('я', 'б'), 'б');
    assert_eq!(encode_char('б', 'я'), 'б');
    assert_eq!(encode_char('я', 'я'), 'я');
    assert_eq!(encode_char('а', 'я'), 'я');
}

#[test]
fn encode_char_falls_back_when_the_sum_is_no_character() {
    assert_eq!(encode_char('\u{10FFFF}', '\u{10FFFF}'), 'і');
    assert_eq!(encode_char('\u{D7FF}', '\u{0450}'), 'і');
    assert_eq!(encode_char('\u{D7FF}', 'б'), '\u{D7E1}');
    assert_eq!(encode_char('\u{0800}', 'а'), '\u{07E1}');
}

#[test]
fn encode_line_cycles_through_the_key() {
    assert_eq!(encode_line("приветмир", &chars("оф")), "эеццузъью");
    assert_eq!(encode_line("приветмир", &chars("ключ")), "щызщпэляъ");
    assert_eq!(encode_line("", &chars("оф")), "");
    assert_eq!(encode_line("", &[]), "");
    assert_eq!(encode_line("ааа", &chars("б")), "ббб");
}

#[test]
fn decode_text_moves_letters_back_round_the_alphabet() {
    assert_eq!(decode_text("эеццузъью", "оф"), "псивеумир");
    assert_eq!(decode_text("ааа", "бвг"), "яюэ");
    assert_eq!(decode_text("яяя", "б"), "ююю");
    assert_eq!(decode_text("бвг", "а"), "бвг");
}

#[test]
fn decode_text_leaves_other_characters_but_counts_their_positions() {
    assert_eq!(decode_text("привет, мир", "ключ"), "ееклыз, вэт");
    assert_eq!(decode_text("abc", "я"), "abc");
    assert_eq!(decode_text("а-а", "бq"), "я-я");
    assert_eq!(decode_text("abc", ""), "abc");
    assert_eq!(decode_text("", ""), "");
}

#[test]
fn blocks_hold_every_nth_character() {
    assert_eq!(divide_into_blocks("абвгдежз", 3), vec!["агж", "бдз", "ве"]);
    assert_eq!(divide_into_blocks("абв", 5), vec!["а", "б", "в", "", ""]);
    assert_eq!(divide_into_blocks("", 2), vec!["", ""]);
    assert_eq!(divide_into_blocks("абв", 1), vec!["абв"]);
    assert_eq!(divide_into_blocks("абв", 0), Vec::<String>::new());
}

#[test]
fn key_character_is_the_distance_between_two_letters() {
    assert_eq!(key_character('о', 'о'), 'а');
    assert_eq!(key_character('п', 'о'), 'б');
    assert_eq!(key_character('я', 'а'), 'я');
    assert_eq!(key_character('q', 'а'), 'а');
    assert_eq!(key_character('в', 'q'), 'в');
}

#[test]
fn key_character_past_the_last_letter_is_the_first_letter() {
    assert_eq!(key_character('а', 'о'), 'а');
    assert_eq!(key_character('н', 'о'), 'а');
}

#[test]
fn most_frequent_letter_is_the_first_with_the_highest_count() {
    assert_eq!(most_frequent_letter(&[]), None);
    assert_eq!(most_frequent_letter(&[('а', 2), ('б', 5), ('в', 5)]), Some('б'));
    assert_eq!(most_frequent_letter(&[('а', 7)]), Some('а'));
    assert_eq!(most_frequent_letter(&[('а', 1), ('б', 1)]), Some('а'));
}

#[test]
fn key_is_guessed_from_the_most_frequent_letter_of_each_block() {
    // Blocks: "пппо" and "ррро"; against `о` they give `б` and `в`.
    assert_eq!(determine_key_characters("прпрпроо", 2, 'о'), "бв");
    assert_eq!(determine_key_characters("ооо", 1, 'о'), "а");
    assert_eq!(determine_key_characters("", 3, 'о'), "ааа");
    assert_eq!(determine_key_characters("п", 3, 'о'), "баа");
    assert_eq!(determine_key_characters("ооо", 0, 'о'), "");
}
