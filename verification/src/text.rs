//! Characters and strings: the digits of the 81-character notation, and
//! the contracts of the few standard-library calls that read and write them.

use vstd::prelude::*;

verus! {

/// What `str::trim` returns for a string with the given characters.
pub uninterp spec fn trimmed(s: Seq<char>) -> Seq<char>;

/// `str::trim` returns the string without its leading and trailing white
/// space. Which characters count as white space is left to the standard
/// library: the result is only named here.
pub assume_specification[ str::trim ](s: &str) -> (r: &str)
    ensures
        r@ == trimmed(s@),
;

/// The value of a character as a digit in bases up to 36: `0` to `9` stand
/// for themselves, the letters `a` to `z`, in either case, for 10 to 35.
pub open spec fn digit_value(c: char) -> Option<int> {
    if '0' <= c <= '9' {
        Some(c as int - '0' as int)
    } else if 'a' <= c <= 'z' {
        Some(c as int - 'a' as int + 10)
    } else if 'A' <= c <= 'Z' {
        Some(c as int - 'A' as int + 10)
    } else {
        None
    }
}

/// `char::to_digit` gives the value of a character as a digit of the
/// radix, and `None` for a character that is no such digit. It panics for
/// a radix outside 2 to 36, which the precondition rules out.
pub assume_specification[ char::to_digit ](c: char, radix: u32) -> (r: Option<u32>)
    requires
        2 <= radix <= 36,
    ensures
        r == match digit_value(c) {
            Some(v) => if v < radix {
                Some(v as u32)
            } else {
                None
            },
            None => None,
        },
;

/// The character for a digit below 36: `0` to `9`, then `a` to `z`.
pub open spec fn digit_char(d: int) -> char {
    if d < 10 {
        (d + 48) as char
    } else {
        (d + 87) as char
    }
}

/// `char::from_digit` gives the character for a number below the radix,
/// and `None` for any other number. It panics for a radix above 36, which
/// the precondition rules out.
pub assume_specification[ char::from_digit ](num: u32, radix: u32) -> (r: Option<char>)
    requires
        radix <= 36,
    ensures
        r == if num < radix {
            Some(digit_char(num as int))
        } else {
            None
        },
;

/// `String::with_capacity` returns an empty string.
pub assume_specification[ String::with_capacity ](capacity: usize) -> (r: String)
    ensures
        r@ == Seq::<char>::empty(),
;

/// `String::push` appends one character.
pub assume_specification[ String::push ](s: &mut String, c: char)
    ensures
        final(s)@ == old(s)@.push(c),
;

/// A decimal digit.
pub open spec fn is_decimal(c: char) -> bool {
    '0' <= c <= '9'
}

/// The number that a decimal digit stands for.
pub open spec fn decimal(c: char) -> int {
    c as int - '0' as int
}

/// A grid in notation: exactly 81 decimal digits, the cells row by row,
/// with `0` for a blank.
pub open spec fn is_clue_text(t: Seq<char>) -> bool {
    t.len() == 81 && forall|i: int| 0 <= i < 81 ==> is_decimal(#[trigger] t[i])
}

} // verus!
