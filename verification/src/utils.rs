//! Text preparation: the alphabet filter applied to a text before it is
//! analysed.

use vstd::prelude::*;

verus! {

/// Whether `c` lies in the Cyrillic block, U+0400 to U+04FF.
pub open spec fn in_cyrillic_block(c: char) -> bool {
    0x0400 <= c as u32 <= 0x04FF
}

/// What `char::is_alphabetic` answers for `c`.
pub uninterp spec fn alphabetic(c: char) -> bool;

/// What `char::is_whitespace` answers for `c`.
pub uninterp spec fn whitespace(c: char) -> bool;

/// The lowercase mapping that `char::to_lowercase` gives for `c`.
pub uninterp spec fn lowercase(c: char) -> Seq<char>;

/// `char::is_alphabetic` tells whether the character has the Unicode property
/// Alphabetic; its answer depends on the character alone.
pub assume_specification[ char::is_alphabetic ](c: char) -> (answer: bool)
    ensures
        answer == alphabetic(c),
;

/// `char::is_whitespace` tells whether the character has the Unicode property
/// White_Space; its answer depends on the character alone.
pub assume_specification[ char::is_whitespace ](c: char) -> (answer: bool)
    ensures
        answer == whitespace(c),
;

/// `String::push` appends one character to the end of the string.
pub assume_specification[ String::push ](text: &mut String, c: char)
    ensures
        final(text)@ == old(text)@.push(c),
;

/// `char::to_lowercase` yields the lowercase mapping of the character, one
/// character or more, which depends on the character alone; this collects
/// what it yields into a string.
#[verifier::external_body]
pub(crate) fn lowercase_of(c: char) -> (lower: String)
    ensures
        lower@ == lowercase(c),
        lower@.len() >= 1,
{
    c.to_lowercase().collect()
}

/// The characters of a string.
pub fn chars_of(text: &str) -> (chars: Vec<char>)
    ensures
        chars@ == text@,
{
    let mut chars: Vec<char> = Vec::new();
    for c in it: text.chars()
        invariant
            it.seq() == text@,
            chars@ == text@.take(it.index() as int),
    {
        chars.push(c);
        assert(text@.take(it.index() + 1) =~= text@.take(it.index() as int).push(c));
    }
    assert(text@.take(text@.len() as int) =~= text@);
    chars
}

/// Whether `c` lies in the Cyrillic block, U+0400 to U+04FF.
pub fn is_cyrillic(c: &char) -> (cyrillic: bool)
    ensures
        cyrillic == in_cyrillic_block(*c),
{
    (*c as u32) >= 0x0400 && (*c as u32) <= 0x04FF
}

/// A string ends with a space.
pub open spec fn ends_with_space(text: Seq<char>) -> bool {
    text.len() > 0 && text.last() == ' '
}

/// What is kept of the character `c`, of which `letter` says whether it is
/// alphabetic and `lower` what it is in lowercase, when `after_space` says
/// whether what was kept so far ends with a space: a letter of the Cyrillic
/// block is kept in lowercase, a space is kept unless it follows a space, and
/// every other character is dropped.
pub open spec fn kept_of(c: char, letter: bool, lower: char, after_space: bool) -> Option<char> {
    if letter && in_cyrillic_block(c) {
        Some(lower)
    } else if c == ' ' && !after_space {
        Some(c)
    } else {
        None
    }
}

/// `text` reduced to lowercase Cyrillic letters and single spaces: every
/// alphabetic character of the Cyrillic block is kept in lowercase, a space is
/// kept unless what was kept so far ends with a space, and every other
/// character is dropped.
pub open spec fn preprocessed(text: Seq<char>) -> Seq<char>
    decreases text.len(),
{
    if text.len() == 0 {
        Seq::empty()
    } else {
        let before = preprocessed(text.drop_last());
        let c = text.last();
        match kept_of(c, alphabetic(c), lowercase(c)[0], ends_with_space(before)) {
            Some(kept) => before.push(kept),
            None => before,
        }
    }
}

/// What is kept of one character, given what the character tables say of it.
pub fn kept_character(c: char, letter: bool, lower: char, after_space: bool) -> (kept: Option<
    char,
>)
    ensures
        kept == kept_of(c, letter, lower, after_space),
{
    if letter && is_cyrillic(&c) {
        Some(lower)
    } else if c == ' ' && !after_space {
        Some(c)
    } else {
        None
    }
}

/// Reduces `text` to lowercase Cyrillic letters and single spaces. Returns
/// `None` when nothing is left.
pub fn preprocess_text(text: &str) -> (processed: Option<String>)
    ensures
        match processed {
            Some(kept) => kept@ == preprocessed(text@) && kept@.len() > 0,
            None => preprocessed(text@).len() == 0,
        },
{
    let mut processed_text = String::new();
    let mut after_space: bool = false;
    let mut empty: bool = true;
    for c in it: text.chars()
        invariant
            it.seq() == text@,
            processed_text@ == preprocessed(text@.take(it.index() as int)),
            after_space == ends_with_space(processed_text@),
            empty == (processed_text@.len() == 0),
    {
        proof {
            let upto = text@.take(it.index() + 1);
            assert(upto.drop_last() =~= text@.take(it.index() as int));
            assert(upto.last() == c);
        }
        let letter: bool = c.is_alphabetic();
        let lower: char = if letter && is_cyrillic(&c) {
            lowercase_of(c).as_str().get_char(0)
        } else {
            c
        };
        if let Some(kept) = kept_character(c, letter, lower, after_space) {
            processed_text.push(kept);
            after_space = kept == ' ';
            empty = false;
        }
    }
    assert(text@.take(text@.len() as int) =~= text@);
    if empty {
        None
    } else {
        Some(processed_text)
    }
}

/// Whether `remove_spaces` keeps `c`: it drops the space, the line feed and
/// the NUL character.
pub open spec fn is_kept(c: char) -> bool {
    c != ' ' && c != '\n' && c != '\0'
}

/// `text` without its spaces, line feeds and NUL characters.
pub fn remove_spaces(text: &str) -> (stripped: String)
    ensures
        stripped@ == text@.filter(|c: char| is_kept(c)),
{
    let mut stripped = String::new();
    for c in it: text.chars()
        invariant
            it.seq() == text@,
            stripped@ == text@.take(it.index() as int).filter(|c: char| is_kept(c)),
    {
        proof {
            let upto = text@.take(it.index() + 1);
            assert(upto =~= text@.take(it.index() as int).push(c));
            text@.take(it.index() as int).lemma_filter_push(c, |c: char| is_kept(c));
        }
        if c != ' ' && c != '\n' && c != '\0' {
            stripped.push(c);
        }
    }
    assert(text@.take(text@.len() as int) =~= text@);
    stripped
}

/// A line is blank when it holds white space only.
pub open spec fn is_blank(line: Seq<char>) -> bool {
    forall|i: int| 0 <= i < line.len() ==> whitespace(#[trigger] line[i])
}

/// Whether a line holds white space only.
pub fn blank(line: &str) -> (answer: bool)
    ensures
        answer == is_blank(line@),
{
    let mut answer: bool = true;
    for c in it: line.chars()
        invariant
            it.seq() == line@,
            answer == is_blank(line@.take(it.index() as int)),
    {
        let ghost seen = line@.take(it.index() as int);
        let ghost now = line@.take(it.index() + 1);
        assert(now[it.index() as int] == c);
        assert(forall|i: int| 0 <= i < seen.len() ==> seen[i] == now[i]);
        if !c.is_whitespace() {
            answer = false;
        }
    }
    assert(line@.take(line@.len() as int) =~= line@);
    answer
}

/// What becomes of one line of a text: a blank line yields nothing; any other
/// line is reduced to lowercase Cyrillic letters and single spaces where
/// `with_spaces` is set, and stripped of spaces, line feeds and NUL
/// characters where it is not.
pub fn process_line(line: &str, with_spaces: bool) -> (processed: Option<String>)
    ensures
        match processed {
            Some(kept) => {
                &&& !is_blank(line@)
                &&& with_spaces ==> kept@ == preprocessed(line@) && kept@.len() > 0
                &&& !with_spaces ==> kept@ == line@.filter(|c: char| is_kept(c))
            },
            None => is_blank(line@) || (with_spaces && preprocessed(line@).len() == 0),
        },
{
    if blank(line) {
        None
    } else if with_spaces {
        preprocess_text(line)
    } else {
        Some(remove_spaces(line))
    }
}

} // verus!
