//! Keystreams and seeds as text: a keystream is read from a string of the
//! characters `0` and `1`, a seed is written as 32 binary digits.

use vstd::prelude::*;

verus! {

/// The bit that a character stands for: its code point minus that of `0`.
pub open spec fn bit_of(c: char) -> u8 {
    (c as u32 - '0' as u32) as u8
}

/// Whether a character is `0` or `1`.
pub open spec fn is_bit_char(c: char) -> bool {
    c == '0' || c == '1'
}

/// The binary digit at position `i`, counted from the left, of the 32 digits
/// of `seed`.
pub open spec fn binary_digit(seed: u32, i: int) -> char {
    if (seed >> ((31 - i) as u32)) & 1 == 1 {
        '1'
    } else {
        '0'
    }
}

/// Reads a keystream from a string of `0` and `1` characters, one bit per
/// character. Returns `None` when the string holds any other character.
pub fn parse_keystream(text: &str) -> (parsed: Option<Vec<u8>>)
    ensures
        match parsed {
            Some(bits) => {
                &&& bits@.len() == text@.len()
                &&& forall|i: int| 0 <= i < text@.len() ==> is_bit_char(#[trigger] text@[i])
                &&& forall|i: int| 0 <= i < text@.len() ==> #[trigger] bits@[i] == bit_of(text@[i])
            },
            None => exists|i: int| 0 <= i < text@.len() && !is_bit_char(#[trigger] text@[i]),
        },
{
    let mut bits: Vec<u8> = Vec::new();
    let mut valid: bool = true;
    for c in it: text.chars()
        invariant
            it.seq() == text@,
            bits@.len() <= it.index(),
            valid ==> bits@.len() == it.index(),
            forall|i: int| 0 <= i < bits@.len() ==> is_bit_char(#[trigger] text@[i]),
            forall|i: int| 0 <= i < bits@.len() ==> #[trigger] bits@[i] == bit_of(text@[i]),
            !valid ==> exists|i: int| 0 <= i < text@.len() && !is_bit_char(#[trigger] text@[i]),
    {
        assert(text@[it.index() as int] == c);
        if valid {
            if c == '0' {
                bits.push(0);
            } else if c == '1' {
                bits.push(1);
            } else {
                valid = false;
            }
        }
    }
    if valid {
        Some(bits)
    } else {
        None
    }
}

/// Writes `seed` as 32 binary digits, the highest bit first.
pub fn binary_string(seed: u32) -> (digits: String)
    ensures
        digits@.len() == 32,
        forall|i: int| 0 <= i < 32 ==> #[trigger] digits@[i] == binary_digit(seed, i),
{
    let mut digits = String::new();
    let mut i: u32 = 0;
    while i < 32
        invariant
            i <= 32,
            digits@.len() == i,
            forall|k: int| 0 <= k < i ==> #[trigger] digits@[k] == binary_digit(seed, k),
        decreases 32 - i,
    {
        let digit: char = if (seed >> (31 - i)) & 1 == 1 {
            '1'
        } else {
            '0'
        };
        digits.push(digit);
        i = i + 1;
    }
    digits
}

} // verus!
