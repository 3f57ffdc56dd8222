//! Letter counts of a text: how often a character occurs, the table of all
//! characters with their counts, and the sums behind the index of
//! coincidence.

use vstd::prelude::*;
use crate::utils::{alphabetic, chars_of, lowercase, lowercase_of, whitespace};

verus! {

/// Number of occurrences of `c` in `text`.
pub open spec fn occurrences<K>(text: Seq<K>, c: K) -> nat
    decreases text.len(),
{
    if text.len() == 0 {
        0
    } else {
        occurrences(text.drop_last(), c) + if text.last() == c {
            1nat
        } else {
            0nat
        }
    }
}

/// A character occurs no more often than the text is long.
pub proof fn lemma_occurrences_bound<K>(text: Seq<K>, c: K)
    ensures
        occurrences(text, c) <= text.len(),
    decreases text.len(),
{
    if text.len() > 0 {
        lemma_occurrences_bound(text.drop_last(), c);
    }
}

/// A character occurs in a text exactly when its count is positive.
pub proof fn lemma_occurrences_positive<K>(text: Seq<K>, c: K)
    ensures
        occurrences(text, c) > 0 <==> text.contains(c),
    decreases text.len(),
{
    if text.len() > 0 {
        lemma_occurrences_positive(text.drop_last(), c);
        if text.contains(c) {
            let i = choose|i: int| 0 <= i < text.len() && text[i] == c;
            if i < text.len() - 1 {
                assert(text.drop_last()[i] == c);
            }
        }
        if text.drop_last().contains(c) {
            let i = choose|i: int| 0 <= i < text.drop_last().len() && text.drop_last()[i] == c;
            assert(text[i] == c);
        }
        if text.last() == c {
            assert(text[text.len() - 1] == c);
        }
    }
}

/// Counts the occurrences of `c` in `text`.
pub fn count_occurrences(text: &[char], c: char) -> (count: usize)
    ensures
        count == occurrences(text@, c),
{
    let mut count: usize = 0;
    let mut i: usize = 0;
    while i < text.len()
        invariant
            i <= text@.len(),
            count == occurrences(text@.take(i as int), c),
            count <= i,
        decreases text@.len() - i,
    {
        assert(text@.take(i + 1).drop_last() =~= text@.take(i as int));
        if text[i] == c {
            count = count + 1;
        }
        i = i + 1;
    }
    assert(text@.take(text@.len() as int) =~= text@);
    count
}

/// A character with the number of times it occurs.
pub type LetterCount = (char, i64);

/// A bigram, written out, with the number of times it occurs.
pub type BigramCount = (String, i64);

/// The distinct items of `text`, in the order in which each occurs first.
pub open spec fn distinct_items<K>(text: Seq<K>) -> Seq<K>
    decreases text.len(),
{
    if text.len() == 0 {
        Seq::empty()
    } else {
        let before = distinct_items(text.drop_last());
        if before.contains(text.last()) {
            before
        } else {
            before.push(text.last())
        }
    }
}

/// The frequency table of `text`: its distinct items in the order of their
/// first occurrence, each with the number of its occurrences.
pub open spec fn frequency_table<K>(text: Seq<K>) -> Seq<(K, i64)> {
    Seq::new(
        distinct_items(text).len(),
        |j: int| (distinct_items(text)[j], occurrences(text, distinct_items(text)[j]) as i64),
    )
}

/// Sum of the counts of a table.
pub open spec fn total<K>(table: Seq<(K, i64)>) -> int
    decreases table.len(),
{
    if table.len() == 0 {
        0
    } else {
        total(table.drop_last()) + table.last().1
    }
}

/// `distinct_items` lists every item of the text, and none twice.
pub proof fn lemma_distinct_items<K>(text: Seq<K>)
    ensures
        forall|c: K| distinct_items(text).contains(c) <==> text.contains(c),
        forall|i: int, j: int|
            0 <= i < j < distinct_items(text).len() ==> distinct_items(text)[i] != distinct_items(
                text,
            )[j],
        distinct_items(text).len() <= text.len(),
    decreases text.len(),
{
    if text.len() > 0 {
        let shorter = text.drop_last();
        let before = distinct_items(shorter);
        let last = text.last();
        lemma_distinct_items(shorter);
        assert forall|c: K| distinct_items(text).contains(c) <==> text.contains(c) by {
            if text.contains(c) {
                let i = choose|i: int| 0 <= i < text.len() && text[i] == c;
                if i < text.len() - 1 {
                    assert(shorter[i] == c);
                    assert(shorter.contains(c));
                    assert(before.contains(c));
                    let j = choose|j: int| 0 <= j < before.len() && before[j] == c;
                    assert(distinct_items(text)[j] == c);
                } else if before.contains(last) {
                } else {
                    assert(before.push(last)[before.len() as int] == c);
                }
            }
            if distinct_items(text).contains(c) {
                let j = choose|j: int|
                    0 <= j < distinct_items(text).len() && distinct_items(text)[j] == c;
                if j < before.len() {
                    assert(before[j] == c);
                    assert(before.contains(c));
                    assert(shorter.contains(c));
                    let i = choose|i: int| 0 <= i < shorter.len() && shorter[i] == c;
                    assert(text[i] == c);
                } else {
                    assert(text[text.len() - 1] == c);
                }
            }
        }
        let now = distinct_items(text);
        assert forall|i: int, j: int| 0 <= i < j < now.len() implies now[i] != now[j] by {
            if j == before.len() {
                assert(before[i] == distinct_items(text)[i]);
            }
        }
    } else {
        assert forall|c: K| distinct_items(text).contains(c) <==> text.contains(c) by {
            if text.contains(c) {
                let i = choose|i: int| 0 <= i < text.len() && text[i] == c;
            }
            if distinct_items(text).contains(c) {
                let j = choose|j: int|
                    0 <= j < distinct_items(text).len() && distinct_items(text)[j] == c;
            }
        }
    }
}

/// Counting one more item that the table lists already raises its count by
/// one and leaves the rest of the table as it is.
pub proof fn lemma_table_counts_again<K>(seen: Seq<K>, item: K, j: int)
    requires
        seen.len() < i64::MAX,
        0 <= j < distinct_items(seen).len(),
        distinct_items(seen)[j] == item,
    ensures
        frequency_table(seen.push(item)) == frequency_table(seen).update(
            j,
            (item, (frequency_table(seen)[j].1 + 1) as i64),
        ),
        frequency_table(seen)[j].1 < i64::MAX,
{
    let now = seen.push(item);
    assert(now.drop_last() =~= seen);
    lemma_distinct_items(seen);
    lemma_occurrences_bound(seen, item);
    assert(distinct_items(seen).contains(item));
    assert forall|k: int| 0 <= k < distinct_items(seen).len() implies occurrences(
        seen,
        #[trigger] distinct_items(seen)[k],
    ) <= seen.len() by {
        lemma_occurrences_bound(seen, distinct_items(seen)[k]);
    }
    assert(frequency_table(now) =~= frequency_table(seen).update(
        j,
        (item, (frequency_table(seen)[j].1 + 1) as i64),
    ));
}

/// Counting an item that the table does not list yet adds it at the end with
/// count 1.
pub proof fn lemma_table_counts_first<K>(seen: Seq<K>, item: K)
    requires
        seen.len() < i64::MAX,
        !distinct_items(seen).contains(item),
    ensures
        frequency_table(seen.push(item)) == frequency_table(seen).push((item, 1i64)),
{
    let now = seen.push(item);
    assert(now.drop_last() =~= seen);
    lemma_distinct_items(seen);
    lemma_occurrences_positive(seen, item);
    assert forall|k: int| 0 <= k < distinct_items(seen).len() implies occurrences(
        seen,
        #[trigger] distinct_items(seen)[k],
    ) <= seen.len() by {
        lemma_occurrences_bound(seen, distinct_items(seen)[k]);
    }
    assert(frequency_table(now) =~= frequency_table(seen).push((item, 1i64)));
}

/// The counts of a frequency table add up to the length of the text.
pub proof fn lemma_table_total<K>(text: Seq<K>)
    requires
        text.len() < i64::MAX,
    ensures
        total(frequency_table(text)) == text.len(),
    decreases text.len(),
{
    if text.len() > 0 {
        let seen = text.drop_last();
        let item = text.last();
        assert(seen.push(item) =~= text);
        lemma_table_total(seen);
        if distinct_items(seen).contains(item) {
            let j = choose|j: int|
                0 <= j < distinct_items(seen).len() && distinct_items(seen)[j] == item;
            lemma_table_counts_again(seen, item, j);
            let table = frequency_table(seen);
            lemma_total_update(table, j, (item, (table[j].1 + 1) as i64));
        } else {
            lemma_table_counts_first(seen, item);
            assert(frequency_table(seen).push((item, 1i64)).drop_last() =~= frequency_table(seen));
        }
    }
}

/// Replacing one entry changes the total by the difference of the counts.
pub proof fn lemma_total_update<K>(table: Seq<(K, i64)>, j: int, entry: (K, i64))
    requires
        0 <= j < table.len(),
    ensures
        total(table.update(j, entry)) == total(table) - table[j].1 + entry.1,
    decreases table.len(),
{
    if j == table.len() - 1 {
        assert(table.update(j, entry).drop_last() =~= table.drop_last());
    } else {
        lemma_total_update(table.drop_last(), j, entry);
        assert(table.update(j, entry).drop_last() =~= table.drop_last().update(j, entry));
    }
}

/// The first entry of `table` for the character `c`, if there is one.
pub fn find_letter(table: &[LetterCount], c: char) -> (found: Option<usize>)
    ensures
        match found {
            Some(j) => j < table@.len() && table@[j as int].0 == c && forall|k: int|
                0 <= k < j ==> (#[trigger] table@[k]).0 != c,
            None => forall|k: int| 0 <= k < table@.len() ==> (#[trigger] table@[k]).0 != c,
        },
{
    let mut j: usize = 0;
    while j < table.len()
        invariant
            j <= table@.len(),
            forall|k: int| 0 <= k < j ==> (#[trigger] table@[k]).0 != c,
        decreases table@.len() - j,
    {
        if table[j].0 == c {
            return Some(j);
        }
        j = j + 1;
    }
    None
}

/// Counts every character of `text`: the result lists the distinct characters
/// in the order of their first occurrence, each with the number of its
/// occurrences.
pub fn get_letter_frequency(text: &str) -> (frequencies: Vec<LetterCount>)
    requires
        text@.len() <= i64::MAX,
    ensures
        frequencies@ == frequency_table(text@),
{
    let mut frequencies: Vec<LetterCount> = Vec::new();
    for c in it: text.chars()
        invariant
            it.seq() == text@,
            text@.len() <= i64::MAX,
            frequencies@ == frequency_table(text@.take(it.index() as int)),
    {
        let ghost seen = text@.take(it.index() as int);
        assert(text@.take(it.index() + 1) =~= seen.push(c));
        match find_letter(frequencies.as_slice(), c) {
            Some(j) => {
                proof {
                    lemma_table_counts_again(seen, c, j as int);
                }
                let count: i64 = frequencies[j].1;
                frequencies.set(j, (c, count + 1));
            },
            None => {
                proof {
                    if distinct_items(seen).contains(c) {
                        let j = choose|j: int|
                            0 <= j < distinct_items(seen).len() && distinct_items(seen)[j] == c;
                        assert(frequencies@[j].0 == c);
                    }
                    lemma_table_counts_first(seen, c);
                }
                frequencies.push((c, 1));
            },
        }
    }
    assert(text@.take(text@.len() as int) =~= text@);
    frequencies
}

/// Adds up the counts of a table of letters.
pub fn letters_count(letter_frequencies: &[LetterCount]) -> (count: i64)
    requires
        forall|k: int|
            0 <= k <= letter_frequencies@.len() ==> i64::MIN <= #[trigger] total(
                letter_frequencies@.take(k),
            ) <= i64::MAX,
    ensures
        count == total(letter_frequencies@),
{
    let mut count: i64 = 0;
    let mut i: usize = 0;
    while i < letter_frequencies.len()
        invariant
            i <= letter_frequencies@.len(),
            count == total(letter_frequencies@.take(i as int)),
            forall|k: int|
                0 <= k <= letter_frequencies@.len() ==> i64::MIN <= #[trigger] total(
                    letter_frequencies@.take(k),
                ) <= i64::MAX,
        decreases letter_frequencies@.len() - i,
    {
        assert(letter_frequencies@.take(i + 1).drop_last() =~= letter_frequencies@.take(i as int));
        assert(i64::MIN <= total(letter_frequencies@.take(i + 1)) <= i64::MAX);
        count = count + letter_frequencies[i].1;
        i = i + 1;
    }
    assert(letter_frequencies@.take(letter_frequencies@.len() as int) =~= letter_frequencies@);
    count
}

/// What the character tables say of a character: whether it is alphabetic,
/// and whether it is white space.
#[derive(Debug, Clone, Copy, PartialEq, Eq)]
pub struct CharClass {
    pub letter: bool,
    pub space: bool,
}

/// The kinds of bigram that a pair of neighbours can contribute.
#[derive(Debug, Clone, Copy, PartialEq, Eq)]
pub enum BigramShape {
    /// Two letters.
    Letters,
    /// A letter before white space.
    LetterSpace,
    /// White space before a letter.
    SpaceLetter,
}

/// The kind of bigram that two neighbours of the given classes contribute,
/// if any. Two letters take precedence over white space.
pub open spec fn shape_of(current: CharClass, next: CharClass) -> Option<BigramShape> {
    if current.letter && next.letter {
        Some(BigramShape::Letters)
    } else if current.letter && next.space {
        Some(BigramShape::LetterSpace)
    } else if current.space && next.letter {
        Some(BigramShape::SpaceLetter)
    } else {
        None
    }
}

/// The class of `c`.
pub open spec fn class_of(c: char) -> CharClass {
    CharClass { letter: alphabetic(c), space: whitespace(c) }
}

/// The bigram that a pair of neighbours contributes, if any: two letters give
/// both in lowercase, a letter before white space gives the letter in
/// lowercase and a space, white space before a letter gives a space and the
/// letter in lowercase.
pub open spec fn bigram_of(current: char, next: char) -> Option<Seq<char>> {
    match shape_of(class_of(current), class_of(next)) {
        Some(BigramShape::Letters) => Some(lowercase(current) + lowercase(next)),
        Some(BigramShape::LetterSpace) => Some(lowercase(current).push(' ')),
        Some(BigramShape::SpaceLetter) => Some(seq![' '] + lowercase(next)),
        None => None,
    }
}

/// The kind of bigram that two neighbours of the given classes contribute,
/// if any.
pub fn bigram_shape(current: CharClass, next: CharClass) -> (shape: Option<BigramShape>)
    ensures
        shape == shape_of(current, next),
{
    if current.letter && next.letter {
        Some(BigramShape::Letters)
    } else if current.letter && next.space {
        Some(BigramShape::LetterSpace)
    } else if current.space && next.letter {
        Some(BigramShape::SpaceLetter)
    } else {
        None
    }
}

/// The class of `c`, as the character tables give it.
pub fn classify(c: char) -> (class: CharClass)
    ensures
        class == class_of(c),
{
    CharClass { letter: c.is_alphabetic(), space: c.is_whitespace() }
}

/// The bigrams of `text`, one for each pair of neighbours that contributes
/// one, in the order of the text. Neighbouring pairs overlap.
pub open spec fn bigrams(text: Seq<char>) -> Seq<Seq<char>>
    decreases text.len(),
{
    if text.len() < 2 {
        Seq::empty()
    } else {
        let before = bigrams(text.drop_last());
        match bigram_of(text[text.len() - 2], text.last()) {
            Some(bigram) => before.push(bigram),
            None => before,
        }
    }
}

/// A table of bigrams with each bigram seen as its characters.
pub open spec fn bigram_view(table: Seq<BigramCount>) -> Seq<(Seq<char>, i64)> {
    Seq::new(table.len(), |j: int| (table[j].0@, table[j].1))
}

/// There are fewer bigrams than characters.
pub proof fn lemma_bigrams_len(text: Seq<char>)
    ensures
        bigrams(text).len() <= text.len(),
        text.len() > 0 ==> bigrams(text).len() < text.len(),
    decreases text.len(),
{
    if text.len() >= 2 {
        lemma_bigrams_len(text.drop_last());
    }
}

/// The first entry of `table` for the bigram `bigram`, if there is one.
pub fn find_bigram(table: &[BigramCount], bigram: &String) -> (found: Option<usize>)
    ensures
        match found {
            Some(j) => j < table@.len() && table@[j as int].0@ == bigram@ && forall|k: int|
                0 <= k < j ==> (#[trigger] table@[k]).0@ != bigram@,
            None => forall|k: int| 0 <= k < table@.len() ==> (#[trigger] table@[k]).0@ != bigram@,
        },
{
    let mut j: usize = 0;
    while j < table.len()
        invariant
            j <= table@.len(),
            forall|k: int| 0 <= k < j ==> (#[trigger] table@[k]).0@ != bigram@,
        decreases table@.len() - j,
    {
        if table[j].0 == *bigram {
            return Some(j);
        }
        j = j + 1;
    }
    None
}

/// Writes out the bigram that a pair of neighbours contributes, if any.
pub fn bigram_text(current: char, next: char) -> (bigram: Option<String>)
    ensures
        match bigram {
            Some(text) => bigram_of(current, next) == Some(text@),
            None => bigram_of(current, next) is None,
        },
{
    match bigram_shape(classify(current), classify(next)) {
        Some(BigramShape::Letters) => {
            let mut text = lowercase_of(current);
            let second = lowercase_of(next);
            text.append(second.as_str());
            Some(text)
        },
        Some(BigramShape::LetterSpace) => {
            let mut text = lowercase_of(current);
            text.push(' ');
            Some(text)
        },
        Some(BigramShape::SpaceLetter) => {
            let mut text = String::new();
            text.push(' ');
            let second = lowercase_of(next);
            text.append(second.as_str());
            assert(text@ =~= seq![' '] + lowercase(next));
            Some(text)
        },
        None => None,
    }
}

/// Counts the bigrams of `text`: the result lists the distinct bigrams in the
/// order of their first occurrence, each with the number of its occurrences.
pub fn get_bigram_frequency(text: &str) -> (frequencies: Vec<BigramCount>)
    requires
        text@.len() <= i64::MAX,
    ensures
        bigram_view(frequencies@) == frequency_table(bigrams(text@)),
{
    let chars = chars_of(text);
    let mut frequencies: Vec<BigramCount> = Vec::new();
    if chars.len() < 2 {
        assert(bigram_view(frequencies@) =~= frequency_table(bigrams(text@)));
        return frequencies;
    }
    let mut i: usize = 1;
    assert(bigram_view(frequencies@) =~= frequency_table(bigrams(text@.take(1))));
    while i < chars.len()
        invariant
            1 <= i <= chars@.len(),
            chars@ == text@,
            text@.len() <= i64::MAX,
            bigram_view(frequencies@) == frequency_table(bigrams(text@.take(i as int))),
        decreases chars@.len() - i,
    {
        let ghost seen = bigrams(text@.take(i as int));
        let ghost before = frequencies@;
        proof {
            let now = text@.take(i + 1);
            assert(now.drop_last() =~= text@.take(i as int));
            lemma_bigrams_len(text@.take(i as int));
        }
        match bigram_text(chars[i - 1], chars[i]) {
            Some(bigram) => {
                assert(bigrams(text@.take(i + 1)) == seen.push(bigram@));
                match find_bigram(frequencies.as_slice(), &bigram) {
                    Some(j) => {
                        proof {
                            assert(bigram_view(before).len() == frequency_table(seen).len());
                            let table = frequency_table(seen);
                            assert(bigram_view(before)[j as int] == table[j as int]);
                            lemma_table_counts_again(seen, bigram@, j as int);
                        }
                        let count: i64 = frequencies[j].1;
                        frequencies.set(j, (bigram, count + 1));
                        assert(bigram_view(frequencies@) =~= bigram_view(before).update(
                            j as int,
                            (bigram@, (count + 1) as i64),
                        ));
                    },
                    None => {
                        proof {
                            if distinct_items(seen).contains(bigram@) {
                                let j = choose|j: int|
                                    0 <= j < distinct_items(seen).len() && distinct_items(seen)[j]
                                        == bigram@;
                                assert(bigram_view(before).len() == frequency_table(seen).len());
                                assert(bigram_view(before)[j] == frequency_table(seen)[j]);
                                assert(before[j].0@ == bigram@);
                            }
                            lemma_table_counts_first(seen, bigram@);
                        }
                        frequencies.push((bigram, 1));
                        assert(bigram_view(frequencies@) =~= bigram_view(before).push(
                            (bigram@, 1i64),
                        ));
                    },
                }
            },
            None => {},
        }
        i = i + 1;
    }
    assert(text@.take(text@.len() as int) =~= text@);
    frequencies
}

/// Adds up the counts of a table of bigrams.
pub fn bigram_count(bigram_frequencies: &[BigramCount]) -> (count: i64)
    requires
        forall|k: int|
            0 <= k <= bigram_frequencies@.len() ==> i64::MIN <= #[trigger] total(
                bigram_frequencies@.take(k),
            ) <= i64::MAX,
    ensures
        count == total(bigram_frequencies@),
{
    let mut count: i64 = 0;
    let mut i: usize = 0;
    while i < bigram_frequencies.len()
        invariant
            i <= bigram_frequencies@.len(),
            count == total(bigram_frequencies@.take(i as int)),
            forall|k: int|
                0 <= k <= bigram_frequencies@.len() ==> i64::MIN <= #[trigger] total(
                    bigram_frequencies@.take(k),
                ) <= i64::MAX,
        decreases bigram_frequencies@.len() - i,
    {
        assert(bigram_frequencies@.take(i + 1).drop_last() =~= bigram_frequencies@.take(i as int));
        assert(i64::MIN <= total(bigram_frequencies@.take(i + 1)) <= i64::MAX);
        count = count + bigram_frequencies[i].1;
        i = i + 1;
    }
    assert(bigram_frequencies@.take(bigram_frequencies@.len() as int) =~= bigram_frequencies@);
    count
}

/// Number of ordered pairs of distinct positions among `n` equal characters,
/// `n * (n - 1)`, or 0 where that does not fit the machine word.
pub open spec fn ordered_pairs(n: nat) -> nat {
    if n == 0 || n * (n - 1) > usize::MAX {
        0
    } else {
        (n * (n - 1)) as nat
    }
}

/// `sum + term`, or 0 where that does not fit the machine word.
pub open spec fn add_or_zero(sum: nat, term: nat) -> nat {
    if sum + term > usize::MAX {
        0
    } else {
        sum + term
    }
}

/// The numerator of the index of coincidence: over the characters of
/// `alphabet`, in order, the ordered pairs of occurrences in `text` added up,
/// the sum starting again from 0 whenever it leaves the machine word.
pub open spec fn coincidence_sum(text: Seq<char>, alphabet: Seq<char>) -> nat
    decreases alphabet.len(),
{
    if alphabet.len() == 0 {
        0
    } else {
        add_or_zero(
            coincidence_sum(text, alphabet.drop_last()),
            ordered_pairs(occurrences(text, alphabet.last())),
        )
    }
}

/// `n * (n - 1)` by checked arithmetic, 0 when `n` is 0 or the product
/// overflows.
pub fn pairs_of(n: usize) -> (pairs: usize)
    ensures
        pairs == ordered_pairs(n as nat),
{
    let less: usize = match n.checked_sub(1) {
        Some(less) => less,
        None => 0,
    };
    match n.checked_mul(less) {
        Some(pairs) => pairs,
        None => 0,
    }
}

/// The two whole numbers whose quotient is the index of coincidence of
/// `input_text` over `alphabet`: the sum of the ordered pairs of equal
/// letters, and the number of ordered pairs of positions.
pub fn coincidence_counts(input_text: &str, alphabet: &str) -> (counts: (usize, usize))
    ensures
        counts.0 == coincidence_sum(input_text@, alphabet@),
        counts.1 == ordered_pairs(input_text@.len()),
{
    let text = chars_of(input_text);
    let mut sum: usize = 0;
    for c in it: alphabet.chars()
        invariant
            it.seq() == alphabet@,
            text@ == input_text@,
            sum == coincidence_sum(input_text@, alphabet@.take(it.index() as int)),
    {
        assert(alphabet@.take(it.index() + 1).drop_last() =~= alphabet@.take(it.index() as int));
        assert(alphabet@.take(it.index() + 1).last() == c);
        let occurrences: usize = count_occurrences(text.as_slice(), c);
        sum = match sum.checked_add(pairs_of(occurrences)) {
            Some(total) => total,
            None => 0,
        };
    }
    assert(alphabet@.take(alphabet@.len() as int) =~= alphabet@);
    (sum, pairs_of(text.len()))
}

} // verus!
