//! Character-level access to strings.

use vstd::prelude::*;
use vstd::std_specs::iter::IteratorSpec;

verus! {

/// `String::push` of the standard library: the string afterwards is the string before with `c`
/// added at its end.
pub assume_specification[ std::string::String::push ](s: &mut std::string::String, c: char)
    ensures
        final(s)@ == old(s)@.push(c),
;

/// `std::char::from_u32` of the standard library: `Some` of the character with code `i` when
/// `i` is a Unicode scalar value (at most 0x10FFFF and no surrogate), `None` otherwise.
pub assume_specification[ std::char::from_u32 ](i: u32) -> (r: Option<char>)
    ensures
        r == if is_scalar_value(i as int) {
            Some(i as char)
        } else {
            None::<char>
        },
;

/// Whether `code` is a Unicode scalar value, that is the code of some `char`.
pub open spec fn is_scalar_value(code: int) -> bool {
    0 <= code <= 0xD7FF || 0xE000 <= code <= 0x10FFFF
}

/// The characters of `s`, in order.
pub fn to_chars(s: &str) -> (chars: Vec<char>)
    ensures
        chars@ == s@,
{
    let mut chars: Vec<char> = Vec::new();
    let mut it = s.chars();
    loop
        invariant
            chars@ + it.remaining() == s@,
            it.decrease() is Some,
        ensures
            chars@ == s@,
        decreases it.decrease()->0,
    {
        match it.next() {
            Some(c) => {
                chars.push(c);
            },
            None => {
                break ;
            },
        }
    }
    chars
}

/// The value of `code` read as a digit: `0`-`9` count 0 to 9, and the letters `a`-`z` and
/// `A`-`Z` count 10 to 35 whatever their case. Other codes are no digits.
pub open spec fn digit_value(code: int) -> Option<int> {
    if 0x30 <= code <= 0x39 {
        Some(code - 0x30)
    } else if 0x61 <= code <= 0x7A {
        Some(code - 0x61 + 10)
    } else if 0x41 <= code <= 0x5A {
        Some(code - 0x41 + 10)
    } else {
        None
    }
}

/// Whether `code` is a digit of the given base.
pub open spec fn is_digit_in(code: int, base: int) -> bool {
    digit_value(code) matches Some(d) && d < base
}

/// The digit that the byte `b` stands for, if it is an ASCII digit or letter.
pub fn byte_digit(b: u8) -> (d: Option<u8>)
    ensures
        match digit_value(b as int) {
            Some(v) => d == Some(v as u8),
            None => d is None,
        },
{
    if 0x30 <= b && b <= 0x39 {
        Some(b - 0x30)
    } else if 0x61 <= b && b <= 0x7A {
        Some(b - 0x61 + 10)
    } else if 0x41 <= b && b <= 0x5A {
        Some(b - 0x41 + 10)
    } else {
        None
    }
}

} // verus!
