//! Sets of ASCII bytes, and the five sets by which the parser tells bytes apart.
//!
//! A set is a table with one entry for each byte from 0 to 126. A byte from 127 on is in no set.

use vstd::prelude::*;

verus! {

/// The bytes that the parser knows by name.
pub const NEWLINE: u8 = 0x0A;

pub const DOUBLE_QUOTE: u8 = 0x22;

pub const BANG: u8 = 0x21;

pub const HASH: u8 = 0x23;

pub const DOLLAR: u8 = 0x24;

pub const PERCENT: u8 = 0x25;

pub const AMPERSAND: u8 = 0x26;

pub const QUOTE: u8 = 0x27;

pub const PAREN_OPEN: u8 = 0x28;

pub const PAREN_CLOSE: u8 = 0x29;

pub const STAR: u8 = 0x2A;

pub const PLUS: u8 = 0x2B;

pub const COMMA: u8 = 0x2C;

pub const MINUS: u8 = 0x2D;

pub const DOT: u8 = 0x2E;

pub const SLASH: u8 = 0x2F;

pub const DIGIT_ZERO: u8 = 0x30;

pub const COLON: u8 = 0x3A;

pub const LESS: u8 = 0x3C;

pub const EQUALS: u8 = 0x3D;

pub const GREATER: u8 = 0x3E;

pub const QUESTION: u8 = 0x3F;

pub const AT: u8 = 0x40;

pub const BRACKET_OPEN: u8 = 0x5B;

pub const BACKSLASH: u8 = 0x5C;

pub const BRACKET_CLOSE: u8 = 0x5D;

pub const CARET: u8 = 0x5E;

pub const BACKQUOTE: u8 = 0x60;

pub const LOWER_B: u8 = 0x62;

pub const LOWER_O: u8 = 0x6F;

pub const LOWER_X: u8 = 0x78;

pub const BRACE_OPEN: u8 = 0x7B;

pub const PIPE: u8 = 0x7C;

pub const BRACE_CLOSE: u8 = 0x7D;

pub const TILDE: u8 = 0x7E;

/// A set of bytes below 127, as a table of membership.
pub type CharSet = [bool; 127];

/// Whether `b` is in `set`.
pub open spec fn holds(set: CharSet, b: u8) -> bool {
    b < 127 && set[b as int]
}

/// The punctuation that is reserved: `( ) [ ] { }`, the backquote, both quotes, `#` and `:`.
pub open spec fn reserved_marks() -> Seq<u8> {
    seq![
        PAREN_OPEN,
        PAREN_CLOSE,
        BRACKET_OPEN,
        BRACKET_CLOSE,
        BRACE_OPEN,
        BRACE_CLOSE,
        BACKQUOTE,
        QUOTE,
        DOUBLE_QUOTE,
        HASH,
        COLON,
    ]
}

/// The bytes that operators are made of: `~ ! @ $ % ^ & * - + = | \ / < > ?`.
pub open spec fn op_marks() -> Seq<u8> {
    seq![
        TILDE,
        BANG,
        AT,
        DOLLAR,
        PERCENT,
        CARET,
        AMPERSAND,
        STAR,
        MINUS,
        PLUS,
        EQUALS,
        PIPE,
        BACKSLASH,
        SLASH,
        LESS,
        GREATER,
        QUESTION,
    ]
}

/// Whether `b` separates expressions: a newline or a comma.
pub open spec fn is_separator(b: u8) -> bool {
    b == NEWLINE || b == COMMA
}

/// Whether `b` is white space: a separator, or a byte from 0 to 32.
pub open spec fn is_white(b: u8) -> bool {
    is_separator(b) || b <= 32
}

/// Whether `b` is reserved: white space or reserved punctuation.
pub open spec fn is_reserved(b: u8) -> bool {
    is_white(b) || reserved_marks().contains(b)
}

/// Whether `b` is a byte that operators are made of.
pub open spec fn is_op_char(b: u8) -> bool {
    op_marks().contains(b)
}

/// Whether `b` cannot be part of an identifier: it is reserved or part of an operator.
pub open spec fn is_non_id(b: u8) -> bool {
    is_reserved(b) || is_op_char(b)
}

/// The set of the bytes below 127 among `bytes`.
pub fn new_char_set(bytes: &[u8]) -> (set: CharSet)
    ensures
        forall|b: u8| holds(set, b) == (b < 127 && bytes@.contains(b)),
{
    let mut set: CharSet = [false; 127];
    let mut i: usize = 0;
    while i < bytes.len()
        invariant
            i <= bytes.len(),
            forall|b: u8| holds(set, b) == (b < 127 && bytes@.take(i as int).contains(b)),
        decreases bytes.len() - i,
    {
        let b = bytes[i];
        let ghost before = set;
        if b < 127 {
            set[b as usize] = true;
        }
        proof {
            let seen = bytes@.take(i as int);
            let now = bytes@.take(i + 1);
            assert(now =~= seen.push(b));
            assert forall|c: u8| holds(set, c) == (c < 127 && now.contains(c)) by {
                assert(holds(before, c) == (c < 127 && seen.contains(c)));
                if seen.contains(c) {
                    let k = choose|k: int| 0 <= k < seen.len() && seen[k] == c;
                    assert(now[k] == c);
                }
                if c == b {
                    assert(now[i as int] == c);
                }
            }
        }
        i += 1;
    }
    assert(bytes@.take(i as int) =~= bytes@);
    set
}

/// The set of the bytes below 127 from `start` to `end`, both included.
pub fn new_range_set(start: u8, end: u8) -> (set: CharSet)
    ensures
        forall|b: u8| holds(set, b) == (b < 127 && start <= b <= end),
{
    let mut set: CharSet = [false; 127];
    let mut i: u8 = start;
    while i <= end && i < 127
        invariant
            start <= i,
            forall|b: u8| holds(set, b) == (b < 127 && start <= b <= end && b < i),
        decreases 127 - i,
    {
        let ghost before = set;
        set[i as usize] = true;
        assert forall|b: u8| holds(set, b) == (b < 127 && start <= b <= end && b < i + 1) by {
            assert(holds(before, b) == (b < 127 && start <= b <= end && b < i));
        }
        i += 1;
    }
    set
}

/// The set of the bytes that are in `a` or in `b`.
pub fn union_char_set(a: CharSet, b: CharSet) -> (set: CharSet)
    ensures
        forall|c: u8| holds(set, c) == (holds(a, c) || holds(b, c)),
{
    let mut set: CharSet = [false; 127];
    let mut i: usize = 0;
    while i < 127
        invariant
            i <= 127,
            forall|c: u8| holds(set, c) == (c < i && (holds(a, c) || holds(b, c))),
        decreases 127 - i,
    {
        let ghost before = set;
        set[i] = a[i] || b[i];
        assert forall|c: u8| holds(set, c) == (c < i + 1 && (holds(a, c) || holds(b, c))) by {
            assert(holds(before, c) == (c < i && (holds(a, c) || holds(b, c))));
        }
        i += 1;
    }
    set
}

/// The five sets by which the parser tells bytes apart.
pub struct Classifier {
    /// Newline and comma.
    pub separators: CharSet,
    /// The separators and the bytes from 0 to 32.
    pub whites: CharSet,
    /// White space and reserved punctuation.
    pub reserved: CharSet,
    /// The bytes that operators are made of.
    pub op_chars: CharSet,
    /// Every byte that cannot be part of an identifier.
    pub non_id_chars: CharSet,
}

impl Classifier {
    /// Whether each table holds exactly the bytes of its set.
    pub open spec fn wf(&self) -> bool {
        forall|b: u8|
            #![trigger holds(self.separators, b)]
            #![trigger holds(self.whites, b)]
            #![trigger holds(self.reserved, b)]
            #![trigger holds(self.op_chars, b)]
            #![trigger holds(self.non_id_chars, b)]
            {
                &&& holds(self.separators, b) == is_separator(b)
                &&& holds(self.whites, b) == is_white(b)
                &&& holds(self.reserved, b) == is_reserved(b)
                &&& holds(self.op_chars, b) == is_op_char(b)
                &&& holds(self.non_id_chars, b) == is_non_id(b)
            }
    }

    /// Builds the five sets.
    pub fn new() -> (classes: Classifier)
        ensures
            classes.wf(),
    {
        let separator_bytes: Vec<u8> = vec![NEWLINE, COMMA];
        let reserved_bytes: Vec<u8> = vec![
            PAREN_OPEN,
            PAREN_CLOSE,
            BRACKET_OPEN,
            BRACKET_CLOSE,
            BRACE_OPEN,
            BRACE_CLOSE,
            BACKQUOTE,
            QUOTE,
            DOUBLE_QUOTE,
            HASH,
            COLON,
        ];
        let op_bytes: Vec<u8> = vec![
            TILDE,
            BANG,
            AT,
            DOLLAR,
            PERCENT,
            CARET,
            AMPERSAND,
            STAR,
            MINUS,
            PLUS,
            EQUALS,
            PIPE,
            BACKSLASH,
            SLASH,
            LESS,
            GREATER,
            QUESTION,
        ];
        assert(reserved_bytes@ =~= reserved_marks());
        assert(op_bytes@ =~= op_marks());
        let separators = new_char_set(separator_bytes.as_slice());
        let whites = union_char_set(separators, new_range_set(0, 32));
        let reserved = union_char_set(whites, new_char_set(reserved_bytes.as_slice()));
        let op_chars = new_char_set(op_bytes.as_slice());
        let non_id_chars = union_char_set(reserved, op_chars);
        proof {
            assert forall|b: u8| holds(separators, b) == is_separator(b) by {
                if is_separator(b) {
                    assert(separator_bytes@[0] == NEWLINE);
                    assert(separator_bytes@[1] == COMMA);
                }
            }
            assert forall|b: u8| is_op_char(b) implies b < 127 by {
                let k = choose|k: int| 0 <= k < op_marks().len() && op_marks()[k] == b;
                assert(op_marks()[k] < 127);
            }
            assert forall|b: u8| reserved_marks().contains(b) implies b < 127 by {
                let k = choose|k: int| 0 <= k < reserved_marks().len() && reserved_marks()[k] == b;
                assert(reserved_marks()[k] < 127);
            }
        }
        Classifier { separators, whites, reserved, op_chars, non_id_chars }
    }
}

} // verus!
