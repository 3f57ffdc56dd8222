//! The Vigenère cipher over the 32 lowercase Russian letters from `а` to `я`,
//! which lie side by side in Unicode.

use vstd::prelude::*;
use vstd::arithmetic::div_mod::{
    lemma_fundamental_div_mod,
    lemma_fundamental_div_mod_converse,
    lemma_mod_bound,
};
use crate::frequency::{LetterCount, get_letter_frequency, frequency_table};
use crate::utils::chars_of;

verus! {

/// Code point of `а`, the first letter of the alphabet.
pub const FIRST_LETTER: u32 = 0x0430;

/// Number of letters of the alphabet.
pub const LETTERS: u32 = 32;

/// What `encode_char` answers when the shifted code point is no character.
pub const FALLBACK: char = 'і';

/// Whether `code` is a Unicode scalar value: a code point that is no
/// surrogate.
pub open spec fn is_scalar_value(code: u32) -> bool {
    code <= 0xD7FF || 0xE000 <= code <= 0x10FFFF
}

/// `char::from_u32` converts a number to the character with that code point,
/// and gives `None` when the number is not a Unicode scalar value.
pub assume_specification[ char::from_u32 ](code: u32) -> (converted: Option<char>)
    ensures
        converted == if is_scalar_value(code) {
            Some(code as char)
        } else {
            None::<char>
        },
;

/// Whether `c` is one of the letters from `а` to `я`.
pub open spec fn in_alphabet(c: char) -> bool {
    FIRST_LETTER <= (c as u32) < FIRST_LETTER + LETTERS
}

/// Position of a letter in the alphabet, `а` being 0.
pub open spec fn letter_index(c: char) -> int {
    c as u32 - FIRST_LETTER
}

/// The letter at position `index` of the alphabet.
pub open spec fn letter_at(index: int) -> char {
    (FIRST_LETTER + index) as char
}

/// The code point that `encode_char` arrives at: the positions of `c` and
/// `key_char` relative to `а` are added, 31 is taken off a sum above 31, and
/// the result is counted from `а` again.
pub open spec fn encoded_code(c: char, key_char: char) -> int {
    let sum = c as u32 + key_char as u32 - 2 * FIRST_LETTER;
    if sum > 31 {
        sum - 31 + FIRST_LETTER
    } else {
        sum + FIRST_LETTER
    }
}

/// The character that `encode_char` gives for `c` under `key_char`.
pub open spec fn encoded(c: char, key_char: char) -> char {
    if is_scalar_value(encoded_code(c, key_char) as u32) {
        encoded_code(c, key_char) as u32 as char
    } else {
        FALLBACK
    }
}

/// Whether `c` can be encoded under `key_char`: together they must lie at or
/// beyond `а`.
pub open spec fn encodable(c: char, key_char: char) -> bool {
    c as u32 + key_char as u32 >= 2 * FIRST_LETTER
}

/// The plain character for `c` under `key_char`: a letter is moved back by
/// the position of the key letter, round the alphabet; any other character,
/// and any character under a key character that is no letter, stays.
pub open spec fn decoded(c: char, key_char: char) -> char {
    if in_alphabet(c) && in_alphabet(key_char) {
        letter_at((letter_index(c) + LETTERS - letter_index(key_char)) % (LETTERS as int))
    } else {
        c
    }
}

/// Position of `c` in the alphabet, or `None` when it is no letter of it.
pub fn alphabet_position(c: char) -> (position: Option<u32>)
    ensures
        position == if in_alphabet(c) {
            Some(letter_index(c) as u32)
        } else {
            None::<u32>
        },
{
    let code: u32 = c as u32;
    if code >= FIRST_LETTER && code < FIRST_LETTER + LETTERS {
        Some(code - FIRST_LETTER)
    } else {
        None
    }
}

/// The letter at position `index` of the alphabet.
pub fn alphabet_letter(index: u32) -> (letter: char)
    requires
        index < LETTERS,
    ensures
        letter == letter_at(index as int),
        in_alphabet(letter),
        letter_index(letter) == index,
{
    match char::from_u32(FIRST_LETTER + index) {
        Some(letter) => letter,
        None => FALLBACK,
    }
}

/// Shifts `c` by `key_char`.
pub fn encode_char(c: char, key_char: char) -> (cipher: char)
    requires
        encodable(c, key_char),
    ensures
        cipher == encoded(c, key_char),
{
    let mut ans: u32 = (c as u32) + (key_char as u32) - FIRST_LETTER - FIRST_LETTER;
    if ans > 31 {
        ans = ans - 31;
    }
    ans = ans + FIRST_LETTER;
    match char::from_u32(ans) {
        Some(cipher) => cipher,
        None => FALLBACK,
    }
}

/// Encodes one line: the character at position `i` is shifted by the key
/// character at position `i` modulo the length of the key.
pub fn encode_line(line: &str, key_chars: &[char]) -> (cipher: String)
    requires
        line@.len() > 0 ==> key_chars@.len() > 0,
        forall|i: int|
            0 <= i < line@.len() ==> encodable(
                #[trigger] line@[i],
                key_chars@[i % (key_chars@.len() as int)],
            ),
    ensures
        cipher@.len() == line@.len(),
        forall|i: int|
            0 <= i < line@.len() ==> #[trigger] cipher@[i] == encoded(
                line@[i],
                key_chars@[i % (key_chars@.len() as int)],
            ),
{
    let mut cipher = String::new();
    let mut key_index: usize = 0;
    for c in it: line.chars()
        invariant
            it.seq() == line@,
            line@.len() > 0 ==> key_chars@.len() > 0,
            forall|i: int|
                0 <= i < line@.len() ==> encodable(
                    #[trigger] line@[i],
                    key_chars@[i % (key_chars@.len() as int)],
                ),
            cipher@.len() == it.index(),
            key_chars@.len() > 0 ==> key_index == it.index() % (key_chars@.len() as int),
            forall|i: int|
                0 <= i < it.index() ==> #[trigger] cipher@[i] == encoded(
                    line@[i],
                    key_chars@[i % (key_chars@.len() as int)],
                ),
    {
        assert(line@[it.index() as int] == c);
        let key_char = key_chars[key_index];
        cipher.push(encode_char(c, key_char));
        proof {
            lemma_next_index(it.index() as int, key_chars@.len() as int);
        }
        key_index = if key_index + 1 == key_chars.len() {
            0
        } else {
            key_index + 1
        };
    }
    cipher
}

/// Stepping a position round a cycle of length `n`.
pub proof fn lemma_next_index(i: int, n: int)
    requires
        0 <= i,
        0 < n,
    ensures
        (i + 1) % n == if i % n + 1 == n {
            0
        } else {
            i % n + 1
        },
{
    let q = i / n;
    let r = i % n;
    lemma_fundamental_div_mod(i, n);
    lemma_mod_bound(i, n);
    if r + 1 == n {
        assert(i + 1 == (q + 1) * n + 0) by (nonlinear_arith)
            requires
                i == n * q + r,
                r + 1 == n,
        ;
        lemma_fundamental_div_mod_converse(i + 1, n, q + 1, 0);
    } else {
        assert(i + 1 == q * n + (r + 1)) by (nonlinear_arith)
            requires
                i == n * q + r,
        ;
        lemma_fundamental_div_mod_converse(i + 1, n, q, r + 1);
    }
}

/// Decodes `text` under `key`: the character at position `i` is moved back by
/// the key character at position `i` modulo the length of the key. Characters
/// outside the alphabet count as positions but stay as they are.
pub fn decode_text(text: &str, key: &str) -> (plain: String)
    requires
        key@.len() > 0 || forall|i: int| 0 <= i < text@.len() ==> !in_alphabet(#[trigger] text@[i]),
    ensures
        plain@.len() == text@.len(),
        forall|i: int|
            0 <= i < text@.len() ==> #[trigger] plain@[i] == if key@.len() > 0 {
                decoded(text@[i], key@[i % (key@.len() as int)])
            } else {
                text@[i]
            },
{
    let key_chars = chars_of(key);
    let mut plain = String::new();
    let mut key_index: usize = 0;
    for c in it: text.chars()
        invariant
            it.seq() == text@,
            key_chars@ == key@,
            key@.len() > 0 || forall|i: int|
                0 <= i < text@.len() ==> !in_alphabet(#[trigger] text@[i]),
            plain@.len() == it.index(),
            key@.len() > 0 ==> key_index == it.index() % (key@.len() as int),
            forall|i: int|
                0 <= i < it.index() ==> #[trigger] plain@[i] == if key@.len() > 0 {
                    decoded(text@[i], key@[i % (key@.len() as int)])
                } else {
                    text@[i]
                },
    {
        assert(text@[it.index() as int] == c);
        let mut plain_char: char = c;
        if let Some(text_index) = alphabet_position(c) {
            if let Some(key_position) = alphabet_position(key_chars[key_index]) {
                plain_char = alphabet_letter((text_index + LETTERS - key_position) % LETTERS);
            }
        }
        plain.push(plain_char);
        if key_chars.len() > 0 {
            proof {
                lemma_next_index(it.index() as int, key@.len() as int);
            }
            key_index = if key_index + 1 == key_chars.len() {
                0
            } else {
                key_index + 1
            };
        }
    }
    plain
}

/// Every `r`-th character of `text`, from position `start` on.
pub open spec fn every_nth(text: Seq<char>, r: nat, start: nat) -> Seq<char>
    decreases
        (if start < text.len() {
            text.len() - start
        } else {
            0
        }),
{
    if start >= text.len() || r == 0 {
        Seq::empty()
    } else {
        seq![text[start as int]] + every_nth(text, r, start + r)
    }
}

/// Deals the characters of `text` out into `r` blocks: block `i` holds the
/// characters at positions `i`, `i + r`, `i + 2r` and so on, which under a key
/// of length `r` meet the same key character.
pub fn divide_into_blocks(text: &str, r: usize) -> (blocks: Vec<String>)
    ensures
        blocks@.len() == r,
        forall|i: int|
            0 <= i < r ==> (#[trigger] blocks@[i])@ == every_nth(text@, r as nat, i as nat),
{
    let chars = chars_of(text);
    let len: usize = chars.len();
    let mut blocks: Vec<String> = Vec::new();
    let mut i: usize = 0;
    while i < r
        invariant
            i <= r,
            chars@ == text@,
            len == chars@.len(),
            blocks@.len() == i,
            forall|j: int|
                0 <= j < i ==> (#[trigger] blocks@[j])@ == every_nth(text@, r as nat, j as nat),
        decreases r - i,
    {
        let mut block = String::new();
        let mut position: usize = i;
        let mut done: bool = position >= len;
        let ghost mut next: nat = i as nat;
        while !done
            invariant
                0 < r,
                chars@ == text@,
                len == chars@.len(),
                !done ==> position == next && position < len,
                done ==> next >= len,
                block@ + every_nth(text@, r as nat, next) == every_nth(text@, r as nat, i as nat),
            decreases len - position, if done { 0int } else { 1int },
        {
            let ghost before = block@;
            block.push(chars[position]);
            proof {
                let step = r as nat;
                assert(before + (seq![text@[next as int]] + every_nth(text@, step, next + step))
                    =~= block@ + every_nth(text@, step, next + step));
                next = next + step;
            }
            if len - position > r {
                position = position + r;
            } else {
                done = true;
            }
        }
        assert(block@ + Seq::<char>::empty() =~= block@);
        blocks.push(block);
        i = i + 1;
    }
    blocks
}

/// A block is no longer than the text it is taken from.
pub proof fn lemma_every_nth_len(text: Seq<char>, r: nat, start: nat)
    ensures
        every_nth(text, r, start).len() <= text.len(),
    decreases
        (if start < text.len() {
            text.len() - start
        } else {
            0
        }),
{
    lemma_every_nth_len_from(text, r, start);
}

/// From `start` on there are no more than `text.len() - start` characters to
/// take.
proof fn lemma_every_nth_len_from(text: Seq<char>, r: nat, start: nat)
    ensures
        start <= text.len() ==> every_nth(text, r, start).len() <= text.len() - start,
        start > text.len() ==> every_nth(text, r, start).len() == 0,
    decreases
        (if start < text.len() {
            text.len() - start
        } else {
            0
        }),
{
    if start < text.len() && r > 0 {
        lemma_every_nth_len_from(text, r, start + r);
    }
}

/// Number of bytes that the 32 letters of the alphabet take as text. The key
/// search reduces its shifts modulo this number.
pub const ALPHABET_BYTES: u32 = 64;

/// Position of `c` in the alphabet, 0 for a character outside it.
pub open spec fn index_or_zero(c: char) -> int {
    if in_alphabet(c) {
        letter_index(c)
    } else {
        0
    }
}

/// The key letter that turns `language_letter` into `block_letter`: the
/// distance from the one to the other, reduced modulo `ALPHABET_BYTES`; a
/// distance past the last letter gives `а`.
pub open spec fn key_letter(block_letter: char, language_letter: char) -> char {
    let shift = (index_or_zero(block_letter) + ALPHABET_BYTES - index_or_zero(language_letter)) % (
    ALPHABET_BYTES as int);
    if shift < LETTERS {
        letter_at(shift)
    } else {
        letter_at(0)
    }
}

/// Entry `j` of the table has the highest count, and is the first to have it.
pub open spec fn is_most_frequent(table: Seq<LetterCount>, j: int) -> bool {
    &&& 0 <= j < table.len()
    &&& forall|k: int| 0 <= k < table.len() ==> (#[trigger] table[k]).1 <= table[j].1
    &&& forall|k: int| 0 <= k < j ==> (#[trigger] table[k]).1 < table[j].1
}

/// `key_char` is the key letter for `block`: `а` for an empty block, else
/// the key letter that turns `language_letter` into the most frequent
/// character of the block.
pub open spec fn is_block_key(block: Seq<char>, language_letter: char, key_char: char) -> bool {
    if block.len() == 0 {
        key_char == letter_at(0)
    } else {
        exists|j: int|
            #[trigger] is_most_frequent(frequency_table(block), j) && key_char == key_letter(
                frequency_table(block)[j].0,
                language_letter,
            )
    }
}

/// The key letter that turns `language_letter` into `block_letter`.
pub fn key_character(block_letter: char, language_letter: char) -> (key_char: char)
    ensures
        key_char == key_letter(block_letter, language_letter),
{
    let block_index: u32 = match alphabet_position(block_letter) {
        Some(index) => index,
        None => 0,
    };
    let language_index: u32 = match alphabet_position(language_letter) {
        Some(index) => index,
        None => 0,
    };
    let shift: u32 = (block_index + ALPHABET_BYTES - language_index) % ALPHABET_BYTES;
    if shift < LETTERS {
        alphabet_letter(shift)
    } else {
        alphabet_letter(0)
    }
}

/// The character with the highest count; of several, the one listed first.
/// `None` for an empty table.
pub fn most_frequent_letter(table: &[LetterCount]) -> (letter: Option<char>)
    ensures
        letter is None <==> table@.len() == 0,
        letter matches Some(c) ==> exists|j: int|
            #[trigger] is_most_frequent(table@, j) && table@[j].0 == c,
{
    if table.len() == 0 {
        return None;
    }
    let mut best: usize = 0;
    let mut i: usize = 1;
    while i < table.len()
        invariant
            1 <= i <= table@.len(),
            best < i,
            forall|k: int| 0 <= k < i ==> (#[trigger] table@[k]).1 <= table@[best as int].1,
            forall|k: int| 0 <= k < best ==> (#[trigger] table@[k]).1 < table@[best as int].1,
        decreases table@.len() - i,
    {
        if table[i].1 > table[best].1 {
            best = i;
        }
        i = i + 1;
    }
    assert(is_most_frequent(table@, best as int));
    Some(table[best].0)
}

/// Guesses a key of length `r` by frequency: the text is dealt out into `r`
/// blocks, and the key letter of each block is the one that turns
/// `most_frequent_language_letter` into the most frequent character of the
/// block.
pub fn determine_key_characters(text: &str, r: usize, most_frequent_language_letter: char) -> (key:
    String)
    requires
        text@.len() <= i64::MAX,
    ensures
        key@.len() == r,
        forall|i: int|
            0 <= i < r ==> is_block_key(
                every_nth(text@, r as nat, i as nat),
                most_frequent_language_letter,
                #[trigger] key@[i],
            ),
{
    let blocks = divide_into_blocks(text, r);
    let mut key = String::new();
    let mut i: usize = 0;
    while i < blocks.len()
        invariant
            i <= r,
            blocks@.len() == r,
            text@.len() <= i64::MAX,
            forall|j: int|
                0 <= j < r ==> (#[trigger] blocks@[j])@ == every_nth(text@, r as nat, j as nat),
            key@.len() == i,
            forall|j: int|
                0 <= j < i ==> is_block_key(
                    every_nth(text@, r as nat, j as nat),
                    most_frequent_language_letter,
                    #[trigger] key@[j],
                ),
        decreases r - i,
    {
        let ghost block = every_nth(text@, r as nat, i as nat);
        proof {
            lemma_every_nth_len(text@, r as nat, i as nat);
            assert(blocks@[i as int]@ == block);
        }
        let letter_frequencies = get_letter_frequency(blocks[i].as_str());
        let key_char: char = match most_frequent_letter(letter_frequencies.as_slice()) {
            Some(block_letter) => key_character(block_letter, most_frequent_language_letter),
            None => alphabet_letter(0),
        };
        proof {
            crate::frequency::lemma_distinct_items(block);
            if block.len() > 0 {
                assert(block.contains(block[0]));
            }
        }
        key.push(key_char);
        i = i + 1;
    }
    key
}

} // verus!
