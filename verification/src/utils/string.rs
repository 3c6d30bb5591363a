//! Escaping and unescaping of string contents, after the rules of C and JavaScript.

use super::text::{digit_value, is_digit_in, is_scalar_value, to_chars};
use vstd::prelude::*;

verus! {

/// Whether `c` is a control character: one of U+0000 to U+001F or U+007F to U+009F.
pub open spec fn is_control(c: char) -> bool {
    c as int <= 0x1F || 0x7F <= c as int <= 0x9F
}

/// The lower-case hexadecimal digit for `n`, where `0 <= n < 16`.
pub open spec fn hex_digit(n: int) -> char {
    if n < 10 {
        (0x30 + n) as char
    } else {
        (0x57 + n) as char
    }
}

/// What one character becomes when it is escaped.
pub open spec fn escape_char(c: char) -> Seq<char> {
    if c == '\\' {
        seq!['\\', '\\']
    } else if c == '"' {
        seq!['\\', '"']
    } else if c == '\'' {
        seq!['\\', '\'']
    } else if c == '\n' {
        seq!['\\', 'n']
    } else if c == '\r' {
        seq!['\\', 'r']
    } else if c == '\t' {
        seq!['\\', 't']
    } else if c == '\x08' {
        seq!['\\', 'b']
    } else if c == '\x0C' {
        seq!['\\', 'f']
    } else if is_control(c) {
        seq![
            '\\',
            'u',
            hex_digit((c as int / 0x1000) % 16),
            hex_digit((c as int / 0x100) % 16),
            hex_digit((c as int / 0x10) % 16),
            hex_digit(c as int % 16),
        ]
    } else {
        seq![c]
    }
}

/// The escaped form of `s`: the escaped forms of its characters, one after the other.
pub open spec fn escape_spec(s: Seq<char>) -> Seq<char>
    decreases s.len(),
{
    if s.len() == 0 {
        Seq::empty()
    } else {
        escape_char(s[0]) + escape_spec(s.skip(1))
    }
}

/// The number that `digits` spell in the given base, or `None` where one of them is no digit of
/// that base. The empty sequence spells nothing.
pub open spec fn radix_value(digits: Seq<char>, base: int) -> Option<int>
    decreases digits.len(),
{
    if digits.len() == 0 {
        None
    } else if !is_digit_in(digits.last() as int, base) {
        None
    } else if digits.len() == 1 {
        digit_value(digits.last() as int)
    } else {
        match radix_value(digits.drop_last(), base) {
            Some(v) => Some(v * base + digit_value(digits.last() as int)->0),
            None => None,
        }
    }
}

/// The character with the given code as a sequence: empty where there is no code or the code is
/// that of no character.
pub open spec fn code_chars(code: Option<int>) -> Seq<char> {
    match code {
        Some(v) => if is_scalar_value(v) {
            seq![v as char]
        } else {
            Seq::empty()
        },
        None => Seq::empty(),
    }
}

/// How many octal digits an octal escape takes: `s[1]` is the first, and up to two more follow.
pub open spec fn octal_run(s: Seq<char>) -> int {
    if s.len() > 2 && is_digit_in(s[2] as int, 8) {
        if s.len() > 3 && is_digit_in(s[3] as int, 8) {
            3
        } else {
            2
        }
    } else {
        1
    }
}

/// How many characters a `\x` or `\u` escape reads after its letter: `want`, or what is left of
/// `s` where that is less.
pub open spec fn hex_run(s: Seq<char>, want: int) -> int {
    if s.len() - 2 < want {
        s.len() - 2
    } else {
        want
    }
}

/// One escape sequence, as read from the start of a text.
pub struct Escape {
    /// The characters it stands for: one, or none where it is dropped.
    pub emitted: Seq<char>,
    /// How many characters of the text it takes up, the backslash included.
    pub used: int,
}

/// The escape sequence at the start of `s`, which begins with a backslash and one more character.
pub open spec fn escape_at(s: Seq<char>) -> Escape {
    let c = s[1];
    if c == 'n' {
        Escape { emitted: seq!['\n'], used: 2 }
    } else if c == 'r' {
        Escape { emitted: seq!['\r'], used: 2 }
    } else if c == 't' {
        Escape { emitted: seq!['\t'], used: 2 }
    } else if c == 'b' {
        Escape { emitted: seq!['\x08'], used: 2 }
    } else if c == 'f' {
        Escape { emitted: seq!['\x0C'], used: 2 }
    } else if c == 'a' {
        Escape { emitted: seq!['\x07'], used: 2 }
    } else if c == 'v' {
        Escape { emitted: seq!['\x0B'], used: 2 }
    } else if is_digit_in(c as int, 8) {
        let n = octal_run(s);
        Escape { emitted: code_chars(radix_value(s.subrange(1, 1 + n), 8)), used: 1 + n }
    } else if c == 'x' {
        let n = hex_run(s, 2);
        Escape { emitted: code_chars(radix_value(s.subrange(2, 2 + n), 16)), used: 2 + n }
    } else if c == 'u' {
        let n = hex_run(s, 4);
        Escape { emitted: code_chars(radix_value(s.subrange(2, 2 + n), 16)), used: 2 + n }
    } else {
        Escape { emitted: seq![c], used: 2 }
    }
}

/// The unescaped form of `s`. A character other than a backslash stands for itself. A backslash
/// and what follows it stand for what `escape_at` says. A backslash at the very end is dropped.
pub open spec fn unescape_spec(s: Seq<char>) -> Seq<char>
    decreases s.len(),
{
    if s.len() == 0 {
        Seq::empty()
    } else if s[0] != '\\' {
        seq![s[0]] + unescape_spec(s.skip(1))
    } else if s.len() == 1 {
        Seq::empty()
    } else {
        let e = escape_at(s);
        e.emitted + unescape_spec(s.skip(e.used))
    }
}

/// Escaping a text made of two parts escapes each part.
pub proof fn lemma_escape_concat(a: Seq<char>, b: Seq<char>)
    ensures
        escape_spec(a + b) == escape_spec(a) + escape_spec(b),
    decreases a.len(),
{
    if a.len() == 0 {
        assert(a + b =~= b);
        assert(escape_spec(a) + escape_spec(b) =~= escape_spec(b));
    } else {
        assert((a + b).skip(1) =~= a.skip(1) + b);
        lemma_escape_concat(a.skip(1), b);
        assert(escape_spec(a + b) =~= escape_spec(a) + escape_spec(b));
    }
}

/// The lower-case hexadecimal digit for `n`.
fn hex_digit_of(n: u32) -> (c: char)
    requires
        n < 16,
    ensures
        c == hex_digit(n as int),
{
    let b: u8 = if n < 10 {
        0x30 + n as u8
    } else {
        0x57 + n as u8
    };
    b as char
}

/// Adds the escaped form of `c` at the end of `out`.
fn push_escaped(out: &mut String, c: char)
    ensures
        final(out)@ == old(out)@ + escape_char(c),
{
    let code: u32 = c as u32;
    if c == '\\' || c == '"' || c == '\'' {
        out.push('\\');
        out.push(c);
    } else if c == '\n' {
        out.push('\\');
        out.push('n');
    } else if c == '\r' {
        out.push('\\');
        out.push('r');
    } else if c == '\t' {
        out.push('\\');
        out.push('t');
    } else if c == '\x08' {
        out.push('\\');
        out.push('b');
    } else if c == '\x0C' {
        out.push('\\');
        out.push('f');
    } else if code <= 0x1F || (0x7F <= code && code <= 0x9F) {
        out.push('\\');
        out.push('u');
        out.push(hex_digit_of((code / 0x1000) % 16));
        out.push(hex_digit_of((code / 0x100) % 16));
        out.push(hex_digit_of((code / 0x10) % 16));
        out.push(hex_digit_of(code % 16));
    } else {
        out.push(c);
    }
    assert(out@ =~= old(out)@ + escape_char(c));
}

/// Escapes `s`: a backslash, a quote, a newline, a carriage return, a tab, a backspace and a form
/// feed get their two-character form, any other control character becomes `\u` and four
/// lower-case hexadecimal digits, and every other character stays as it is.
pub fn escape(s: &str) -> (escaped: String)
    ensures
        escaped@ == escape_spec(s@),
{
    let chars = to_chars(s);
    let mut escaped = String::new();
    let mut i: usize = 0;
    while i < chars.len()
        invariant
            i <= chars.len(),
            escaped@ == escape_spec(chars@.take(i as int)),
        decreases chars.len() - i,
    {
        let c = chars[i];
        proof {
            let head = chars@.take(i as int);
            assert(chars@.take(i + 1) =~= head + seq![c]);
            lemma_escape_concat(head, seq![c]);
            assert(escape_spec(seq![c].skip(1)) =~= Seq::<char>::empty());
            assert(escape_spec(seq![c]) =~= escape_char(c));
        }
        push_escaped(&mut escaped, c);
        i += 1;
    }
    assert(chars@.take(i as int) =~= chars@);
    escaped
}

/// A lower-case hexadecimal digit counts what it was made from.
proof fn lemma_hex_digit_value(n: int)
    requires
        0 <= n < 16,
    ensures
        digit_value(hex_digit(n) as int) == Some(n),
        is_digit_in(hex_digit(n) as int, 16),
{
}

/// Four hexadecimal digits made from a number below 0x10000 spell that number.
proof fn lemma_four_hex_digits(code: int)
    requires
        0 <= code < 0x10000,
    ensures
        radix_value(
            seq![
                hex_digit((code / 0x1000) % 16),
                hex_digit((code / 0x100) % 16),
                hex_digit((code / 0x10) % 16),
                hex_digit(code % 16),
            ],
            16,
        ) == Some(code),
{
    let d3 = (code / 0x1000) % 16;
    let d2 = (code / 0x100) % 16;
    let d1 = (code / 0x10) % 16;
    let d0 = code % 16;
    let all = seq![hex_digit(d3), hex_digit(d2), hex_digit(d1), hex_digit(d0)];
    let three = seq![hex_digit(d3), hex_digit(d2), hex_digit(d1)];
    let two = seq![hex_digit(d3), hex_digit(d2)];
    let one = seq![hex_digit(d3)];
    lemma_hex_digit_value(d3);
    lemma_hex_digit_value(d2);
    lemma_hex_digit_value(d1);
    lemma_hex_digit_value(d0);
    assert(radix_value(one, 16) == Some(d3));
    assert(two.drop_last() =~= one);
    assert(radix_value(two, 16) == Some(d3 * 16 + d2));
    assert(three.drop_last() =~= two);
    assert(radix_value(three, 16) == Some((d3 * 16 + d2) * 16 + d1));
    assert(all.drop_last() =~= three);
    assert(radix_value(all, 16) == Some(((d3 * 16 + d2) * 16 + d1) * 16 + d0));
}

/// Unescaping reads the escaped form of one character as that character, whatever follows.
pub proof fn lemma_unescape_escaped_char(c: char, rest: Seq<char>)
    ensures
        unescape_spec(escape_char(c) + rest) == seq![c] + unescape_spec(rest),
{
    let s = escape_char(c) + rest;
    if c == '\\' || c == '"' || c == '\'' || c == '\n' || c == '\r' || c == '\t' || c
        == '\x08' || c == '\x0C' {
        assert(s[0] == '\\');
        assert(s.skip(2) =~= rest);
        assert(escape_at(s).used == 2);
        assert(escape_at(s).emitted =~= seq![c]);
    } else if is_control(c) {
        let code = c as int;
        assert(s[0] == '\\');
        assert(s[1] == 'u');
        assert(hex_run(s, 4) == 4);
        assert(s.subrange(2, 6) =~= seq![
            hex_digit((code / 0x1000) % 16),
            hex_digit((code / 0x100) % 16),
            hex_digit((code / 0x10) % 16),
            hex_digit(code % 16),
        ]);
        lemma_four_hex_digits(code);
        assert(s.skip(6) =~= rest);
        assert(code as char == c);
        assert(escape_at(s).emitted =~= seq![c]);
    } else {
        assert(s[0] == c);
        assert(s.skip(1) =~= rest);
    }
}

/// Unescaping an escaped text gives the text back, for every text.
pub proof fn lemma_unescape_escape(x: Seq<char>)
    ensures
        unescape_spec(escape_spec(x)) == x,
    decreases x.len(),
{
    if x.len() == 0 {
        assert(escape_spec(x) =~= Seq::<char>::empty());
        assert(unescape_spec(escape_spec(x)) =~= x);
    } else {
        lemma_unescape_escaped_char(x[0], escape_spec(x.skip(1)));
        lemma_unescape_escape(x.skip(1));
        assert(seq![x[0]] + x.skip(1) =~= x);
    }
}

/// The digit that `c` stands for, if it is an ASCII digit or letter.
fn char_digit(c: char) -> (d: Option<u32>)
    ensures
        match digit_value(c as int) {
            Some(v) => d == Some(v as u32),
            None => d is None,
        },
{
    let code: u32 = c as u32;
    if 0x30 <= code && code <= 0x39 {
        Some(code - 0x30)
    } else if 0x61 <= code && code <= 0x7A {
        Some(code - 0x61 + 10)
    } else if 0x41 <= code && code <= 0x5A {
        Some(code - 0x41 + 10)
    } else {
        None
    }
}

/// Whether `c` is a digit of the given base.
fn is_digit_of(c: char, base: u32) -> (b: bool)
    ensures
        b == is_digit_in(c as int, base as int),
{
    match char_digit(c) {
        Some(d) => d < base,
        None => false,
    }
}

/// Reads the characters of `chars` from `from` up to `to` as a number in the given base.
fn read_radix(chars: &Vec<char>, from: usize, to: usize, base: u32) -> (code: Option<u32>)
    requires
        from <= to <= chars.len(),
        to - from <= 4,
        2 <= base <= 16,
    ensures
        match radix_value(chars@.subrange(from as int, to as int), base as int) {
            Some(v) => code == Some(v as u32) && 0 <= v < 0x10000,
            None => code is None,
        },
{
    let mut value: u32 = 0;
    let mut valid = true;
    let mut k: usize = from;
    while k < to
        invariant
            from <= k <= to <= chars.len(),
            to - from <= 4,
            2 <= base <= 16,
            k == from ==> valid && value == 0,
            k - from < 2 ==> value < 0x10,
            k - from < 3 ==> value < 0x100,
            k - from < 4 ==> value < 0x1000,
            value < 0x10000,
            k > from ==> match radix_value(chars@.subrange(from as int, k as int), base as int) {
                Some(v) => valid && value == v,
                None => !valid,
            },
        decreases to - k,
    {
        proof {
            let next = chars@.subrange(from as int, k + 1);
            assert(next.drop_last() =~= chars@.subrange(from as int, k as int));
            assert(next.last() == chars@[k as int]);
        }
        match char_digit(chars[k]) {
            Some(d) => {
                if d < base {
                    assert(value * base + d <= value * 16 + 15) by (nonlinear_arith)
                        requires
                            d < base <= 16,
                    ;
                    value = value * base + d;
                } else {
                    valid = false;
                    value = 0;
                }
            },
            None => {
                valid = false;
                value = 0;
            },
        }
        k += 1;
    }
    if valid && from < to {
        Some(value)
    } else {
        None
    }
}

/// Reads the escape sequence that starts with the backslash at `chars[i]`: the character it
/// stands for, if any, and how many characters it takes up.
fn read_escape(chars: &Vec<char>, i: usize) -> (r: (Option<char>, usize))
    requires
        i + 1 < chars.len(),
    ensures
        r.1 == escape_at(chars@.skip(i as int)).used,
        i + r.1 <= chars.len(),
        r.1 >= 2,
        escape_at(chars@.skip(i as int)).emitted == match r.0 {
            Some(c) => seq![c],
            None => Seq::empty(),
        },
{
    let ghost s = chars@.skip(i as int);
    let len = chars.len();
    let c = chars[i + 1];
    assert(s[1] == c);
    if c == 'n' {
        (Some('\n'), 2)
    } else if c == 'r' {
        (Some('\r'), 2)
    } else if c == 't' {
        (Some('\t'), 2)
    } else if c == 'b' {
        (Some('\x08'), 2)
    } else if c == 'f' {
        (Some('\x0C'), 2)
    } else if c == 'a' {
        (Some('\x07'), 2)
    } else if c == 'v' {
        (Some('\x0B'), 2)
    } else if is_digit_of(c, 8) {
        let mut n: usize = 1;
        if len - i > 2 && is_digit_of(chars[i + 2], 8) {
            n = 2;
            if len - i > 3 && is_digit_of(chars[i + 3], 8) {
                n = 3;
            }
        }
        assert(n == octal_run(s));
        assert(s.subrange(1, 1 + n) =~= chars@.subrange(i + 1, i + 1 + n));
        let code = read_radix(chars, i + 1, i + 1 + n, 8);
        (decode(code), 1 + n)
    } else if c == 'x' || c == 'u' {
        let want: usize = if c == 'x' {
            2
        } else {
            4
        };
        let n: usize = if len - i - 2 < want {
            len - i - 2
        } else {
            want
        };
        assert(n == hex_run(s, want as int));
        assert(s.subrange(2, 2 + n) =~= chars@.subrange(i + 2, i + 2 + n));
        let code = read_radix(chars, i + 2, i + 2 + n, 16);
        (decode(code), 2 + n)
    } else {
        (Some(c), 2)
    }
}

/// The character with the given code, if there is a code and it is that of a character.
fn decode(code: Option<u32>) -> (c: Option<char>)
    ensures
        code_chars(
            match code {
                Some(v) => Some(v as int),
                None => None,
            },
        ) == match c {
            Some(c) => seq![c],
            None => Seq::empty(),
        },
{
    match code {
        Some(v) => std::char::from_u32(v),
        None => None,
    }
}

/// Unescapes `s`, scanning from left to right. After a backslash, `n`, `r`, `t`, `b`, `f`, `a`
/// and `v` give their control character; a digit from `0` to `7` starts an octal number of up to
/// three digits; `x` reads the next two characters and `u` the next four (fewer at the end of the
/// text) as a hexadecimal number; any other character stands for itself. A number that is the
/// code of no character, and characters after `x` or `u` that are no hexadecimal number, give
/// nothing. A backslash at the very end is dropped.
pub fn unescape(s: &str) -> (unescaped: String)
    ensures
        unescaped@ == unescape_spec(s@),
{
    let chars = to_chars(s);
    let mut unescaped = String::new();
    let mut i: usize = 0;
    assert(unescaped@ + unescape_spec(chars@.skip(0)) =~= unescape_spec(chars@)) by {
        assert(chars@.skip(0) =~= chars@);
    }
    while i < chars.len()
        invariant
            i <= chars.len(),
            unescaped@ + unescape_spec(chars@.skip(i as int)) == unescape_spec(chars@),
        decreases chars.len() - i,
    {
        let ghost rest = chars@.skip(i as int);
        let ghost before = unescaped@;
        let c = chars[i];
        assert(rest[0] == c);
        if c != '\\' {
            unescaped.push(c);
            assert(rest.skip(1) =~= chars@.skip(i + 1));
            assert(unescaped@ + unescape_spec(rest.skip(1)) =~= before + unescape_spec(rest));
            i += 1;
        } else if chars.len() - i < 2 {
            assert(unescape_spec(rest) =~= Seq::<char>::empty());
            i += 1;
            assert(unescape_spec(chars@.skip(i as int)) =~= Seq::<char>::empty());
        } else {
            let (emitted, used) = read_escape(&chars, i);
            assert(rest.skip(used as int) =~= chars@.skip(i + used));
            match emitted {
                Some(e) => {
                    unescaped.push(e);
                },
                None => {},
            }
            assert(unescaped@ + unescape_spec(rest.skip(used as int)) =~= before + unescape_spec(
                rest,
            ));
            i += used;
        }
    }
    assert(chars@.skip(i as int) =~= Seq::<char>::empty());
    unescaped
}

} // verus!
