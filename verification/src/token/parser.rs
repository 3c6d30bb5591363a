//! The parser: a cursor over the bytes of a source text, and the functions that read ignorable
//! text, numbers, strings and whole expressions from it.

use super::charset::{
    holds, CharSet, Classifier, BACKSLASH, DIGIT_ZERO, DOUBLE_QUOTE, HASH, LOWER_B, LOWER_O,
    LOWER_X, NEWLINE, QUOTE, SLASH, STAR,
};
use super::expr::{views, Expr, ExprKind, ExprListType, ExprView, FloatParts, GeneralExprBase};
use super::file::{
    advance, has_prefix_at, least, lemma_advance_matches_rescan, position_at, start,
    starts_with_at, Pos,
};
use super::frame::FrameStack;
use super::grammar::{
    block_close_mark, block_open_mark, comment_close, digit_run, digit_values, digits_value,
    doc_mark, doc_text, failure_at, id_run, is_quote, joined, lemma_comment_close, lemma_line_end,
    lemma_skip_from, lemma_token_at, line_end, line_mark, number_at, parse_spec, read_from,
    reported, shebang_mark, skip_from, string_at, string_close, token_at, trim_end, trim_start,
    unclosed, unclosed_message, Failure, Lexed, Nest, Skipped, Token,
};
use crate::utils::string::unescape;
use crate::utils::text::{byte_digit, digit_value, is_digit_in};
use crate::utils::wrap::{lemma_crop_negate, lemma_crop_push};
use vstd::prelude::*;
use vstd::slice::{axiom_spec_len, slice_subrange};
use vstd::string::{StringExecFns, StringSliceAdditionalSpecFns};
use vstd::utf8::encode_utf8;
use vstd::wrapping::i64_specs::signed_crop;

verus! {

/// The text that a run of bytes stands for: its characters where the bytes are valid UTF-8,
/// and else what `String::from_utf8_lossy` makes of them.
pub uninterp spec fn utf8_lossy(bytes: Seq<u8>) -> Seq<char>;

/// `String::from_utf8_lossy` of the standard library, with its result made a `String`. The
/// result depends on the bytes alone. Where the bytes are valid UTF-8 it holds the characters
/// that they encode; where they are not, each invalid part is replaced by U+FFFD.
#[verifier::external_body]
fn bytes_to_string(bytes: &[u8]) -> (text: String)
    ensures
        text@ == utf8_lossy(bytes@),
        vstd::utf8::valid_utf8(bytes@) ==> text@ == vstd::utf8::decode_utf8(bytes@),
{
    String::from_utf8_lossy(bytes).into_owned()
}

/// The ways in which parsing fails.
#[derive(Debug, Clone, Copy, PartialEq, Eq, Structural)]
pub enum ParseErrorKind {
    /// A block comment is not closed before the text ends.
    UnclosedComment,
    /// A string literal is not closed before the text ends.
    UnclosedString,
    /// A list is still open where the text ends.
    UnclosedDelimiter,
    /// A closing delimiter stands where no list of its kind is open.
    UnexpectedClosingDelimiter,
    /// The text holds no expression at top level, or more than one.
    ExpectedSingleExpression,
    /// A byte begins nothing that the parser knows.
    InvalidToken,
}

/// A failure to parse: the name of the text, a position in it, the kind of failure and a
/// message for the reader.
#[derive(Debug)]
pub struct ParseError {
    pub name: String,
    pub pos: Pos,
    pub kind: ParseErrorKind,
    pub message: String,
}

/// What a `ParseError` holds.
pub struct ParseErrorView {
    pub name: Seq<char>,
    pub pos: Pos,
    pub kind: ParseErrorKind,
    pub message: Seq<char>,
}

impl View for ParseError {
    type V = ParseErrorView;

    open spec fn view(&self) -> ParseErrorView {
        ParseErrorView {
            name: self.name@,
            pos: self.pos,
            kind: self.kind,
            message: self.message@,
        }
    }
}

/// The decimal digits of `n`.
pub open spec fn decimal(n: nat) -> Seq<char>
    decreases n,
{
    if n < 10 {
        seq![(0x30 + n) as char]
    } else {
        decimal(n / 10).push((0x30 + n % 10) as char)
    }
}

/// Adds the decimal digits of `n` at the end of `out`.
pub fn push_decimal(out: &mut String, n: usize)
    ensures
        final(out)@ == old(out)@ + decimal(n as nat),
    decreases n,
{
    if n >= 10 {
        push_decimal(out, n / 10);
    }
    let digit: u8 = 0x30 + (n % 10) as u8;
    out.push(digit as char);
    assert(out@ =~= old(out)@ + decimal(n as nat));
}

/// How an error reads: name, line, column and message, as `name:line:col: message`.
pub open spec fn rendered(e: ParseErrorView) -> Seq<char> {
    e.name + seq![':'] + decimal(e.pos.line as nat) + seq![':'] + decimal(e.pos.col as nat)
        + seq![':', ' '] + e.message
}

impl ParseError {
    /// This error as one line of text: `name:line:col: message`.
    pub fn to_string(&self) -> (text: String)
        ensures
            text@ == rendered(self@),
    {
        let mut text = String::new();
        text.append(self.name.as_str());
        text.push(':');
        push_decimal(&mut text, self.pos.line);
        text.push(':');
        push_decimal(&mut text, self.pos.col);
        text.push(':');
        text.push(' ');
        text.append(self.message.as_str());
        assert(text@ =~= rendered(self@));
        text
    }
}

/// A cursor over the bytes of a source text.
pub struct ParseState<'src> {
    /// The name of the text, for error messages.
    pub name: String,
    /// The bytes of the text.
    pub src: &'src [u8],
    /// Where the cursor stands.
    pub pos: Pos,
}

impl<'src> ParseState<'src> {
    /// Whether the cursor stands inside the text or at its end, with the line and column that
    /// a scan from the start gives for its offset.
    pub open spec fn wf(&self) -> bool {
        self.pos.tracks(self.src@)
    }

    /// The byte under the cursor, if the cursor stands before the end of the text.
    pub open spec fn current(&self) -> Option<u8> {
        if self.pos.pos < self.src@.len() {
            Some(self.src@[self.pos.pos as int])
        } else {
            None
        }
    }

    /// A cursor at the start of `src`.
    pub fn new(name: String, src: &'src str) -> (s: Self)
        ensures
            s.name == name,
            s.src@ == src.spec_bytes(),
            s.pos == start(),
            s.wf(),
    {
        Self { name, src: src.as_bytes(), pos: Pos { pos: 0, line: 1, col: 1 } }
    }

    /// An error of the given kind at the cursor.
    pub fn err(&self, kind: ParseErrorKind, message: &str) -> (e: ParseError)
        ensures
            e@ == (ParseErrorView {
                name: self.name@,
                pos: self.pos,
                kind,
                message: message@,
            }),
    {
        ParseError {
            name: self.name.clone(),
            pos: self.pos,
            kind,
            message: String::from_str(message),
        }
    }

    /// `Err` of an error of the given kind at the cursor.
    pub fn err_result<T>(&self, kind: ParseErrorKind, message: &str) -> (r: Result<T, ParseError>)
        ensures
            r is Err,
            r->Err_0@ == (ParseErrorView {
                name: self.name@,
                pos: self.pos,
                kind,
                message: message@,
            }),
    {
        Err(self.err(kind, message))
    }

    /// Whether the cursor stands at or past the end of the text.
    pub fn is_eof(&self) -> (b: bool)
        ensures
            b == (self.pos.pos >= self.src@.len()),
            b == (self.current() is None),
    {
        self.pos.pos >= self.src.len()
    }

    /// Moves the cursor `n` bytes on, or to the end of the text where fewer are left, counting
    /// lines and columns on the way.
    pub fn skip(&mut self, n: usize)
        ensures
            final(self).pos == advance(old(self).src@, old(self).pos, n as nat),
            old(self).pos.pos <= final(self).pos.pos <= old(self).pos.pos + n,
            final(self).src == old(self).src,
            final(self).name == old(self).name,
            old(self).wf() ==> final(self).wf() && final(self).pos.pos == least(
                old(self).pos.pos + n,
                old(self).src@.len() as int,
            ),
    {
        proof {
            axiom_spec_len(self.src);
            if self.wf() {
                lemma_advance_matches_rescan(self.src@, self.pos, n as nat);
            }
        }
        self.pos.advance(self.src, n);
    }

    /// Puts the cursor back where it stood before.
    pub fn restore(&mut self, p: &Pos)
        ensures
            final(self).pos == *p,
            final(self).src == old(self).src,
            final(self).name == old(self).name,
    {
        self.pos = *p;
    }

    /// The byte under the cursor as a character, or the character with code 0 at the end of
    /// the text.
    pub fn cur(&self) -> (c: char)
        ensures
            c as int == match self.current() {
                Some(b) => b as int,
                None => 0,
            },
    {
        if self.pos.pos < self.src.len() {
            self.src[self.pos.pos] as char
        } else {
            '\0'
        }
    }

    /// The last `n` bytes before the cursor as a string, or all of them where there are fewer.
    pub fn cur_str(&self, n: usize) -> (text: String)
        ensures
            text@ == utf8_lossy(self.src@.subrange(span_start(self, n as int), span_end(self))),
    {
        let end = if self.pos.pos < self.src.len() {
            self.pos.pos
        } else {
            self.src.len()
        };
        let begin = if n < end {
            end - n
        } else {
            0
        };
        bytes_to_string(slice_subrange(self.src, begin, end))
    }

    /// The bytes from `p` up to the cursor as a string; empty where `p` is not before the
    /// cursor.
    pub fn cur_from(&self, p: &Pos) -> (text: String)
        ensures
            text@ == utf8_lossy(
                self.src@.subrange(span_end(self) - span_len(self, p.pos as int), span_end(self)),
            ),
    {
        let end = if self.pos.pos < self.src.len() {
            self.pos.pos
        } else {
            self.src.len()
        };
        let begin = if p.pos < end {
            p.pos
        } else {
            end
        };
        bytes_to_string(slice_subrange(self.src, begin, end))
    }

    /// The digit that the byte under the cursor stands for: 0 to 9 for `0`-`9`, and 10 to 35
    /// for a letter, whatever its case.
    pub fn cur_digit(&self) -> (d: Option<u8>)
        ensures
            d == match self.current() {
                Some(b) => match digit_value(b as int) {
                    Some(v) => Some(v as u8),
                    None => None,
                },
                None => None,
            },
    {
        if self.is_eof() {
            None
        } else {
            byte_digit(self.src[self.pos.pos])
        }
    }

    /// Whether the byte under the cursor is the character `c`.
    pub fn char(&self, c: char) -> (b: bool)
        ensures
            b == match self.current() {
                Some(x) => x as int == c as int,
                None => false,
            },
    {
        !self.is_eof() && self.src[self.pos.pos] as u32 == c as u32
    }

    /// Whether the bytes from the cursor on begin with those of `s`.
    pub fn str(&self, s: &str) -> (b: bool)
        ensures
            b == has_prefix_at(self.src@, self.pos.pos as int, s.spec_bytes()),
    {
        starts_with_at(self.src, self.pos.pos, s.as_bytes())
    }

    /// Whether the byte under the cursor is a character from `f` to `t`.
    pub fn range(&self, f: char, t: char) -> (b: bool)
        ensures
            b == match self.current() {
                Some(x) => f as int <= x as int <= t as int,
                None => false,
            },
    {
        !self.is_eof() && f as u32 <= self.src[self.pos.pos] as u32 && self.src[self.pos.pos] as u32
            <= t as u32
    }

    /// Whether the byte under the cursor is in `set`.
    pub fn one_of(&self, set: &CharSet) -> (b: bool)
        ensures
            b == match self.current() {
                Some(x) => holds(*set, x),
                None => false,
            },
    {
        if self.is_eof() {
            return false;
        }
        let b = self.src[self.pos.pos] as usize;
        b < 127 && set[b]
    }
}

/// Where the bytes before the cursor end: at the cursor, or at the end of the text where the
/// cursor stands past it.
pub open spec fn span_end(s: &ParseState) -> int {
    if s.pos.pos < s.src@.len() {
        s.pos.pos as int
    } else {
        s.src@.len() as int
    }
}

/// Where the last `n` bytes before the cursor begin.
pub open spec fn span_start(s: &ParseState, n: int) -> int {
    if n < span_end(s) {
        span_end(s) - n
    } else {
        0
    }
}

/// How many bytes lie between the offset `from` and the cursor.
pub open spec fn span_len(s: &ParseState, from: int) -> int {
    if from < span_end(s) {
        span_end(s) - from
    } else {
        0
    }
}

/// What the marks that the parser looks for are made of.
proof fn lemma_marks()
    ensures
        "///".spec_bytes() == doc_mark(),
        "//".spec_bytes() == line_mark(),
        "#!".spec_bytes() == shebang_mark(),
        "/*".spec_bytes() == block_open_mark(),
        "*/".spec_bytes() == block_close_mark(),
        "0x".spec_bytes() == seq![DIGIT_ZERO, LOWER_X],
        "0b".spec_bytes() == seq![DIGIT_ZERO, LOWER_B],
        "0o".spec_bytes() == seq![DIGIT_ZERO, LOWER_O],
{
    broadcast use vstd::string::is_ascii_spec_bytes;

    reveal_strlit("///");
    reveal_strlit("//");
    reveal_strlit("#!");
    reveal_strlit("/*");
    reveal_strlit("*/");
    reveal_strlit("0x");
    reveal_strlit("0b");
    reveal_strlit("0o");
    assert(vstd::string::is_ascii("///"));
    assert(vstd::string::is_ascii("//"));
    assert(vstd::string::is_ascii("#!"));
    assert(vstd::string::is_ascii("/*"));
    assert(vstd::string::is_ascii("*/"));
    assert(vstd::string::is_ascii("0x"));
    assert(vstd::string::is_ascii("0b"));
    assert(vstd::string::is_ascii("0o"));
    assert("///".spec_bytes() =~= doc_mark());
    assert("//".spec_bytes() =~= line_mark());
    assert("#!".spec_bytes() =~= shebang_mark());
    assert("/*".spec_bytes() =~= block_open_mark());
    assert("*/".spec_bytes() =~= block_close_mark());
    assert("0x".spec_bytes() =~= seq![DIGIT_ZERO, LOWER_X]);
    assert("0b".spec_bytes() =~= seq![DIGIT_ZERO, LOWER_B]);
    assert("0o".spec_bytes() =~= seq![DIGIT_ZERO, LOWER_O]);
}

/// A failure with the name of the text it was met in.
pub open spec fn named(failure: Failure, name: Seq<char>) -> ParseErrorView {
    ParseErrorView { name, pos: failure.pos, kind: failure.kind, message: failure.message }
}

/// Moves the cursor to the end of the line it stands in: to the next newline, or to the end
/// of the text where there is none.
pub fn skip_until_newline(s: &mut ParseState)
    requires
        old(s).wf(),
    ensures
        final(s).wf(),
        final(s).src == old(s).src,
        final(s).name == old(s).name,
        final(s).pos.pos == line_end(old(s).src@, old(s).pos.pos as int),
{
    while !s.is_eof() && s.src[s.pos.pos] != NEWLINE
        invariant
            s.wf(),
            s.src == old(s).src,
            s.name == old(s).name,
            line_end(s.src@, s.pos.pos as int) == line_end(old(s).src@, old(s).pos.pos as int),
        decreases s.src@.len() - s.pos.pos,
    {
        s.skip(1);
    }
}

/// The texts of the strings in `lines`, in order.
pub open spec fn texts(lines: Seq<String>) -> Seq<Seq<char>> {
    Seq::new(lines.len(), |i: int| lines[i]@)
}

/// The text of a string that may be there.
pub open spec fn text_of(text: Option<String>) -> Option<Seq<char>> {
    match text {
        Some(t) => Some(t@),
        None => None,
    }
}

/// The bounds of what is left of `bytes[from..to]` without the white space around it.
fn trimmed(bytes: &[u8], from: usize, to: usize) -> (r: (usize, usize))
    requires
        from <= to <= bytes@.len(),
    ensures
        from <= r.0 <= r.1 <= to,
        bytes@.subrange(r.0 as int, r.1 as int) == trim_end(
            trim_start(bytes@.subrange(from as int, to as int)),
        ),
{
    let mut first = from;
    while first < to && bytes[first] <= 32
        invariant
            from <= first <= to <= bytes@.len(),
            trim_start(bytes@.subrange(first as int, to as int)) == trim_start(
                bytes@.subrange(from as int, to as int),
            ),
        decreases to - first,
    {
        assert(bytes@.subrange(first as int, to as int).skip(1) =~= bytes@.subrange(
            first + 1,
            to as int,
        ));
        first += 1;
    }
    let mut last = to;
    while last > first && bytes[last - 1] <= 32
        invariant
            first <= last <= to <= bytes@.len(),
            trim_end(bytes@.subrange(first as int, last as int)) == trim_end(
                bytes@.subrange(first as int, to as int),
            ),
        decreases last - first,
    {
        assert(bytes@.subrange(first as int, last as int).drop_last() =~= bytes@.subrange(
            first as int,
            last - 1,
        ));
        last -= 1;
    }
    (first, last)
}

/// The strings of `lines`, with a newline between each two.
fn join_lines(lines: &Vec<String>) -> (text: String)
    ensures
        text@ == joined(texts(lines@)),
{
    let mut text = String::new();
    let mut i: usize = 0;
    while i < lines.len()
        invariant
            i <= lines.len(),
            text@ == joined(texts(lines@).take(i as int)),
        decreases lines.len() - i,
    {
        let ghost done = texts(lines@).take(i as int);
        let ghost next = texts(lines@).take(i + 1);
        assert(next.drop_last() =~= done);
        assert(next.last() == lines@[i as int]@);
        if i > 0 {
            text.push('\n');
        }
        text.append(lines[i].as_str());
        assert(text@ =~= joined(next));
        i += 1;
    }
    assert(texts(lines@).take(i as int) =~= texts(lines@));
    text
}

/// Skips white space, separators and comments from the cursor on.
///
/// Returns `None` where it passed no separator and no doc-comment, the empty string where it
/// passed a separator and no doc-comment, and else the texts of the doc-comments it passed,
/// joined by newlines. Fails where a block comment is not closed before the text ends.
pub fn skip_ignores(s: &mut ParseState, classes: &Classifier) -> (r: Result<
    Option<String>,
    ParseError,
>)
    requires
        old(s).wf(),
        classes.wf(),
    ensures
        final(s).wf(),
        final(s).src == old(s).src,
        final(s).name == old(s).name,
        match skip_from(old(s).src@, old(s).pos.pos as int, false, Seq::empty()) {
            Some(skipped) => {
                &&& final(s).pos.pos == skipped.end
                &&& r matches Ok(doc)
                &&& text_of(doc) == reported(skipped)
            },
            None => {
                &&& final(s).pos.pos == old(s).src@.len()
                &&& r matches Err(e)
                &&& e@ == named(
                    failure_at(
                        old(s).src@,
                        ParseErrorKind::UnclosedComment,
                        old(s).src@.len() as int,
                    ),
                    old(s).name@,
                )
            },
        },
{
    let mut boundary = false;
    let mut docs: Vec<String> = Vec::new();
    let ghost goal = skip_from(s.src@, s.pos.pos as int, false, Seq::empty());
    proof {
        lemma_marks();
        assert(texts(docs@) =~= Seq::<Seq<char>>::empty());
    }
    while !s.is_eof()
        invariant
            s.wf(),
            classes.wf(),
            s.src == old(s).src,
            s.name == old(s).name,
            skip_from(s.src@, s.pos.pos as int, boundary, texts(docs@)) == goal,
            goal == skip_from(old(s).src@, old(s).pos.pos as int, false, Seq::empty()),
            "///".spec_bytes() == doc_mark(),
            "//".spec_bytes() == line_mark(),
            "#!".spec_bytes() == shebang_mark(),
            "/*".spec_bytes() == block_open_mark(),
            "*/".spec_bytes() == block_close_mark(),
        ensures
            s.wf(),
            s.src == old(s).src,
            s.name == old(s).name,
            goal == Some(Skipped { end: s.pos.pos as int, boundary, docs: texts(docs@) }),
        decreases s.src@.len() - s.pos.pos,
    {
        let ghost here = s.pos.pos as int;
        let ghost bytes = s.src@;
        if s.one_of(&classes.separators) {
            boundary = true;
            s.skip(1);
        } else if s.str("///") {
            s.skip(3);
            let from = s.pos.pos;
            proof {
                lemma_line_end(bytes, from as int);
            }
            skip_until_newline(s);
            let (first, last) = trimmed(s.src, from, s.pos.pos);
            let line = bytes_to_string(slice_subrange(s.src, first, last));
            assert(line@ == doc_text(bytes, here + 3, s.pos.pos as int));
            assert(texts(docs@.push(line)) =~= texts(docs@).push(line@));
            docs.push(line);
        } else if s.str("//") || s.str("#!") {
            proof {
                lemma_line_end(bytes, here);
                assert(bytes[here] != NEWLINE) by {
                    if has_prefix_at(bytes, here, line_mark()) {
                        assert(bytes.subrange(here, here + 2)[0] == SLASH);
                    } else {
                        assert(bytes.subrange(here, here + 2)[0] == HASH);
                    }
                }
            }
            skip_until_newline(s);
        } else if s.str("/*") {
            proof {
                assert(bytes.subrange(here, here + 2)[0] == SLASH);
                assert(!has_prefix_at(bytes, here, block_close_mark())) by {
                    if has_prefix_at(bytes, here, block_close_mark()) {
                        assert(bytes.subrange(here, here + 2)[0] == STAR);
                    }
                }
                assert(comment_close(bytes, here) == comment_close(bytes, here + 1));
                lemma_comment_close(bytes, here + 1);
            }
            let ghost after = match comment_close(bytes, here + 1) {
                Some(end) => skip_from(bytes, end, boundary, texts(docs@)),
                None => None,
            };
            assert(goal == after);
            loop
                invariant_except_break
                    s.wf(),
                    goal == after,
                    goal == skip_from(old(s).src@, old(s).pos.pos as int, false, Seq::empty()),
                    after == match comment_close(bytes, here + 1) {
                        Some(end) => skip_from(bytes, end, boundary, texts(docs@)),
                        None => None,
                    },
                    s.src == old(s).src,
                    s.name == old(s).name,
                    here <= s.pos.pos,
                    comment_close(bytes, s.pos.pos as int) == comment_close(bytes, here + 1),
                    "*/".spec_bytes() == block_close_mark(),
                    bytes == s.src@,
                ensures
                    s.wf(),
                    s.src == old(s).src,
                    s.name == old(s).name,
                    comment_close(bytes, here + 1) == Some(s.pos.pos as int),
                decreases s.src@.len() - s.pos.pos,
            {
                if s.is_eof() {
                    return s.err_result(ParseErrorKind::UnclosedComment, "Unclosed comment");
                }
                if s.str("*/") {
                    s.skip(2);
                    break ;
                }
                s.skip(1);
            }
        } else if s.one_of(&classes.whites) {
            s.skip(1);
        } else {
            break ;
        }
    }
    Ok(
        if docs.len() > 0 {
            Some(join_lines(&docs))
        } else if boundary {
            Some(String::new())
        } else {
            None
        },
    )
}

/// Whether the byte under the cursor is a digit of the given base.
fn at_digit(s: &ParseState, base: u8) -> (d: Option<u8>)
    ensures
        match d {
            Some(v) => s.current() is Some && digit_value(s.current()->0 as int) == Some(v as int)
                && v < base,
            None => !(s.current() is Some && is_digit_in(s.current()->0 as int, base as int)),
        },
{
    match s.cur_digit() {
        Some(v) => if v < base {
            Some(v)
        } else {
            None
        },
        None => None,
    }
}

/// Reads a number at the cursor, if one stands there; else leaves the cursor where it is.
///
/// A number is an optional sign `-` or `+`, an optional prefix `0x`, `0b` or `0o` for base 16,
/// 2 or 8, and at least one digit of the base, which is 10 without a prefix. Where a `.`
/// follows, the digits after it are the fractional part and the result is a `Float`; else it
/// is an `Int`. The whole part wraps around where it does not fit an `i64`.
pub fn parse_num(s: &mut ParseState) -> (r: Option<Expr>)
    requires
        old(s).wf(),
    ensures
        final(s).wf(),
        final(s).src == old(s).src,
        final(s).name == old(s).name,
        match number_at(old(s).src@, old(s).pos.pos as int) {
            Some(lexeme) => {
                &&& r matches Some(e)
                &&& e@ == (ExprView { pos: old(s).pos, kind: lexeme.kind })
                &&& final(s).pos.pos == lexeme.end
            },
            None => r is None && final(s).pos == old(s).pos,
        },
{
    let pos = s.pos;
    let ghost bytes = s.src@;
    proof {
        lemma_marks();
    }
    let mut negative = false;
    if s.char('-') {
        negative = true;
        s.skip(1);
    } else if s.char('+') {
        s.skip(1);
    }
    let mut base: u8 = 10;
    if s.str("0x") {
        base = 16;
        s.skip(2);
    } else if s.str("0b") {
        base = 2;
        s.skip(2);
    } else if s.str("0o") {
        base = 8;
        s.skip(2);
    }
    let ghost first = s.pos.pos as int;
    if at_digit(s, base).is_none() {
        s.restore(&pos);
        return None;
    }
    let mut num: i64 = 0;
    assert(bytes.subrange(first, first) =~= Seq::<u8>::empty());
    loop
        invariant
            s.wf(),
            s.src == old(s).src,
            s.name == old(s).name,
            bytes == s.src@,
            2 <= base <= 16,
            first <= s.pos.pos <= bytes.len(),
            num == signed_crop(digits_value(bytes.subrange(first, s.pos.pos as int), base as int)),
            digit_run(bytes, first, base as int) == s.pos.pos - first + digit_run(
                bytes,
                s.pos.pos as int,
                base as int,
            ),
        ensures
            s.wf(),
            s.src == old(s).src,
            s.name == old(s).name,
            first <= s.pos.pos <= bytes.len(),
            num == signed_crop(digits_value(bytes.subrange(first, s.pos.pos as int), base as int)),
            digit_run(bytes, first, base as int) == s.pos.pos - first,
        decreases bytes.len() - s.pos.pos,
    {
        let digit = at_digit(s, base);
        if digit.is_none() {
            break ;
        }
        let d = digit.unwrap();
        proof {
            let here = s.pos.pos as int;
            let seen = bytes.subrange(first, here);
            let next = bytes.subrange(first, here + 1);
            assert(next.drop_last() =~= seen);
            lemma_crop_push(digits_value(seen, base as int), base as int, d as int);
        }
        num = num.wrapping_mul(base as i64).wrapping_add(d as i64);
        s.skip(1);
    }
    let expr = if s.char('.') {
        s.skip(1);
        let mut frac: Vec<u8> = Vec::new();
        let ghost frac_first = s.pos.pos as int;
        assert(digit_values(bytes.subrange(frac_first, frac_first)) =~= frac@);
        loop
            invariant
                s.wf(),
                s.src == old(s).src,
                s.name == old(s).name,
                bytes == s.src@,
                frac_first <= s.pos.pos <= bytes.len(),
                frac@ == digit_values(bytes.subrange(frac_first, s.pos.pos as int)),
                digit_run(bytes, frac_first, base as int) == s.pos.pos - frac_first + digit_run(
                    bytes,
                    s.pos.pos as int,
                    base as int,
                ),
            ensures
                s.wf(),
                s.src == old(s).src,
                s.name == old(s).name,
                frac_first <= s.pos.pos <= bytes.len(),
                frac@ == digit_values(bytes.subrange(frac_first, s.pos.pos as int)),
                digit_run(bytes, frac_first, base as int) == s.pos.pos - frac_first,
            decreases bytes.len() - s.pos.pos,
        {
            let digit = at_digit(s, base);
            if digit.is_none() {
                break ;
            }
            let d = digit.unwrap();
            proof {
                let here = s.pos.pos as int;
                assert(digit_values(bytes.subrange(frac_first, here + 1)) =~= digit_values(
                    bytes.subrange(frac_first, here),
                ).push(d));
            }
            frac.push(d);
            s.skip(1);
        }
        GeneralExprBase::Float(FloatParts { negative, whole: num, base, frac })
    } else if negative {
        proof {
            lemma_crop_negate(digits_value(bytes.subrange(first, s.pos.pos as int), base as int));
        }
        GeneralExprBase::Int(num.wrapping_mul(-1))
    } else {
        GeneralExprBase::Int(num)
    };
    Some(Expr { pos, expr })
}

/// Reads a string literal at the cursor.
///
/// The literal opens with `'` or `"` and closes with the next such quote that no backslash
/// stands before; a backslash takes the byte after it with it. Its value is what stands
/// between the quotes, unescaped. Where the text ends before the literal is closed, reading
/// fails at the end of the text. Where no quote stands at the cursor, reading fails there.
pub fn parse_string(s: &mut ParseState) -> (r: Result<Expr, ParseError>)
    requires
        old(s).wf(),
    ensures
        final(s).wf(),
        final(s).src == old(s).src,
        final(s).name == old(s).name,
        if old(s).current() is Some && is_quote(old(s).current()->0) {
            match string_at(old(s).src@, old(s).pos.pos as int) {
                Some(lexeme) => {
                    &&& r matches Ok(e)
                    &&& e@ == (ExprView { pos: old(s).pos, kind: lexeme.kind })
                    &&& final(s).pos.pos == lexeme.end
                },
                None => {
                    &&& r matches Err(e)
                    &&& e@ == named(
                        failure_at(
                            old(s).src@,
                            ParseErrorKind::UnclosedString,
                            old(s).src@.len() as int,
                        ),
                        old(s).name@,
                    )
                    &&& final(s).pos.pos == old(s).src@.len()
                },
            }
        } else {
            &&& r matches Err(e)
            &&& e@ == named(
                failure_at(old(s).src@, ParseErrorKind::InvalidToken, old(s).pos.pos as int),
                old(s).name@,
            )
            &&& final(s).pos == old(s).pos
        },
{
    if s.is_eof() {
        return s.err_result(ParseErrorKind::InvalidToken, "Unexpected token");
    }
    let quote = s.src[s.pos.pos];
    if quote != QUOTE && quote != DOUBLE_QUOTE {
        return s.err_result(ParseErrorKind::InvalidToken, "Unexpected token");
    }
    let pos = s.pos;
    let ghost bytes = s.src@;
    s.skip(1);
    let start_pos = s.pos;
    loop
        invariant_except_break
            s.wf(),
            s.src == old(s).src,
            s.name == old(s).name,
            bytes == s.src@,
            old(s).current() == Some(quote),
            is_quote(quote),
            old(s).pos == pos,
            start_pos.pos == pos.pos + 1,
            start_pos.pos <= s.pos.pos,
            string_close(bytes, s.pos.pos as int, quote) == string_close(
                bytes,
                start_pos.pos as int,
                quote,
            ),
        ensures
            s.wf(),
            s.src == old(s).src,
            s.name == old(s).name,
            start_pos.pos <= s.pos.pos < bytes.len(),
            string_close(bytes, start_pos.pos as int, quote) == Some(s.pos.pos as int),
        decreases bytes.len() - s.pos.pos,
    {
        if s.is_eof() {
            return s.err_result(ParseErrorKind::UnclosedString, "Unclosed string literal");
        }
        let b = s.src[s.pos.pos];
        if b == quote {
            break ;
        }
        if b == BACKSLASH {
            s.skip(1);
            if s.is_eof() {
                return s.err_result(ParseErrorKind::UnclosedString, "Unclosed string literal");
            }
        }
        s.skip(1);
    }
    let raw = s.cur_from(&start_pos);
    let contents = unescape(raw.as_str());
    s.skip(1);
    Ok(Expr { pos, expr: GeneralExprBase::String(contents) })
}

/// Reads an identifier at the cursor, if one stands there: every byte up to the next that
/// cannot be part of an identifier.
pub fn parse_id(s: &mut ParseState, classes: &Classifier) -> (r: Option<Expr>)
    requires
        old(s).wf(),
        classes.wf(),
    ensures
        final(s).wf(),
        final(s).src == old(s).src,
        final(s).name == old(s).name,
        final(s).pos.pos == old(s).pos.pos + id_run(old(s).src@, old(s).pos.pos as int),
        match r {
            Some(e) => id_run(old(s).src@, old(s).pos.pos as int) > 0 && e@ == (ExprView {
                pos: old(s).pos,
                kind: ExprKind::Id(
                    utf8_lossy(
                        old(s).src@.subrange(old(s).pos.pos as int, final(s).pos.pos as int),
                    ),
                ),
            }),
            None => id_run(old(s).src@, old(s).pos.pos as int) == 0,
        },
{
    let pos = s.pos;
    let ghost bytes = s.src@;
    while !s.is_eof() && !s.one_of(&classes.non_id_chars)
        invariant
            s.wf(),
            classes.wf(),
            s.src == old(s).src,
            s.name == old(s).name,
            bytes == s.src@,
            pos.pos <= s.pos.pos <= bytes.len(),
            id_run(bytes, pos.pos as int) == s.pos.pos - pos.pos + id_run(bytes, s.pos.pos as int),
        decreases bytes.len() - s.pos.pos,
    {
        s.skip(1);
    }
    if s.pos.pos == pos.pos {
        None
    } else {
        Some(Expr { pos, expr: GeneralExprBase::Id(s.cur_from(&pos)) })
    }
}

/// The error for a list of the given kind, opened at `pos`, that the text leaves open.
fn unclosed_error(name: &String, kind: ExprListType, pos: Pos) -> (e: ParseError)
    ensures
        e@ == (ParseErrorView {
            name: name@,
            pos,
            kind: ParseErrorKind::UnclosedDelimiter,
            message: unclosed_message(kind, pos),
        }),
{
    let mut message = String::from_str("Unclosed delimiter");
    message.push(' ');
    message.push(kind.open_byte() as char);
    message.append(" opened at ");
    push_decimal(&mut message, pos.line);
    message.push(':');
    push_decimal(&mut message, pos.col);
    assert(message@ =~= unclosed_message(kind, pos));
    ParseError { name: name.clone(), pos, kind: ParseErrorKind::UnclosedDelimiter, message }
}

/// Reads the token at the cursor, which stands before the end of the text, and takes it into
/// `stack`: a string literal, a number or an identifier is added as an expression, an opening
/// delimiter opens a list and a closing delimiter closes the innermost.
///
/// Fails, with the stack as it was, where a string is not closed, where the byte at the cursor
/// begins no token, and where a closing delimiter does not close the innermost open list.
pub fn read_token(s: &mut ParseState, classes: &Classifier, stack: &mut FrameStack) -> (r: Result<
    (),
    ParseError,
>)
    requires
        old(s).wf(),
        classes.wf(),
        old(s).pos.pos < old(s).src@.len(),
    ensures
        final(s).wf(),
        final(s).src == old(s).src,
        final(s).name == old(s).name,
        match token_at(old(s).src@, old(s).pos.pos as int) {
            Lexed::Failure { kind, at } => {
                &&& r matches Err(e)
                &&& e@ == named(failure_at(old(s).src@, kind, at), old(s).name@)
                &&& final(stack)@ == old(stack)@
                &&& final(s).pos.pos == at
            },
            Lexed::Token { token, end } => match old(stack)@.after(token) {
                Some(next) => {
                    &&& r is Ok
                    &&& final(stack)@ == next
                    &&& final(s).pos.pos == end
                },
                None => {
                    &&& r matches Err(e)
                    &&& e@ == named(
                        failure_at(
                            old(s).src@,
                            ParseErrorKind::UnexpectedClosingDelimiter,
                            old(s).pos.pos as int,
                        ),
                        old(s).name@,
                    )
                    &&& final(stack)@ == old(stack)@
                    &&& final(s).pos == old(s).pos
                },
            },
        },
{
    let at = s.pos;
    let b = s.src[s.pos.pos];
    if b == QUOTE || b == DOUBLE_QUOTE {
        match parse_string(s) {
            Ok(e) => {
                stack.push(e);
                Ok(())
            },
            Err(e) => Err(e),
        }
    } else if ExprListType::from_opener(b).is_some() {
        stack.open(ExprListType::from_opener(b).unwrap(), at);
        s.skip(1);
        Ok(())
    } else if ExprListType::from_closer(b).is_some() {
        if stack.close(ExprListType::from_closer(b).unwrap()) {
            s.skip(1);
            Ok(())
        } else {
            s.err_result(
                ParseErrorKind::UnexpectedClosingDelimiter,
                "Unexpected closing delimiter",
            )
        }
    } else {
        match parse_num(s) {
            Some(e) => {
                stack.push(e);
                Ok(())
            },
            None => match parse_id(s, classes) {
                Some(e) => {
                    stack.push(e);
                    Ok(())
                },
                None => s.err_result(ParseErrorKind::InvalidToken, "Unexpected token"),
            },
        }
    }
}

/// Reads expressions from the cursor to the end of the text, and returns those at top level
/// in the order in which they stand.
///
/// Ignorable text is skipped before each token; a separator or a doc-comment in it commits the
/// expressions that are pending in the innermost open list. A string literal, a number and an
/// identifier are expressions. An opening delimiter opens a list, and the closing delimiter of
/// the same kind closes it and makes it one expression. Reading fails at the first comment or
/// string that is not closed, the first byte that begins no token, and the first closing
/// delimiter that does not close the innermost open list; and at the end of the text where a
/// list is still open.
pub fn parse_exprs(s: &mut ParseState, classes: &Classifier) -> (r: Result<Vec<Expr>, ParseError>)
    requires
        old(s).wf(),
        classes.wf(),
    ensures
        final(s).wf(),
        final(s).src == old(s).src,
        final(s).name == old(s).name,
        match read_from(old(s).src@, old(s).pos.pos as int, Nest::empty()) {
            Ok(items) => {
                &&& r matches Ok(read)
                &&& views(read@) == items
                &&& final(s).pos.pos == old(s).src@.len()
            },
            Err(failure) => {
                &&& r matches Err(e)
                &&& e@ == named(failure, old(s).name@)
                &&& final(s).pos == if failure.kind == ParseErrorKind::UnclosedDelimiter {
                    position_at(old(s).src@, old(s).src@.len() as int)
                } else {
                    failure.pos
                }
            },
        },
{
    let mut stack = FrameStack::new();
    let ghost bytes = s.src@;
    let ghost goal = read_from(bytes, s.pos.pos as int, Nest::empty());
    loop
        invariant_except_break
            s.wf(),
            classes.wf(),
            s.src == old(s).src,
            s.name == old(s).name,
            bytes == s.src@,
            read_from(bytes, s.pos.pos as int, stack@) == goal,
            goal == read_from(old(s).src@, old(s).pos.pos as int, Nest::empty()),
        ensures
            s.wf(),
            s.src == old(s).src,
            s.name == old(s).name,
            s.pos.pos == bytes.len(),
            goal == if stack@.open.len() > 0 {
                Err::<Seq<ExprView>, Failure>(unclosed(stack@))
            } else {
                Ok(stack@.root)
            },
        decreases bytes.len() - s.pos.pos,
    {
        let ghost from = s.pos.pos as int;
        proof {
            lemma_skip_from(bytes, from, false, Seq::empty());
        }
        match skip_ignores(s, classes) {
            Ok(doc) => {
                if doc.is_some() {
                    stack.flush();
                }
            },
            Err(e) => {
                return Err(e);
            },
        }
        if s.is_eof() {
            break ;
        }
        proof {
            lemma_token_at(bytes, s.pos.pos as int);
        }
        match read_token(s, classes, &mut stack) {
            Ok(_) => {},
            Err(e) => {
                return Err(e);
            },
        }
    }
    match stack.innermost() {
        Some((kind, pos)) => Err(unclosed_error(&s.name, kind, pos)),
        None => Ok(stack.finish()),
    }
}

/// Parses a whole text, which must hold exactly one expression at top level, and returns that
/// expression. `name` is the name of the text, for errors.
pub fn parse(name: String, source: String) -> (r: Result<Expr, ParseError>)
    ensures
        match parse_spec(encode_utf8(source@)) {
            Ok(expr) => {
                &&& r matches Ok(e)
                &&& e@ == expr
            },
            Err(failure) => {
                &&& r matches Err(e)
                &&& e@ == named(failure, name@)
            },
        },
{
    let classes = Classifier::new();
    let mut s = ParseState::new(name, source.as_str());
    match parse_exprs(&mut s, &classes) {
        Ok(read) => {
            let mut read = read;
            if read.len() != 1 {
                return s.err_result(
                    ParseErrorKind::ExpectedSingleExpression,
                    "Expected a single expression",
                );
            }
            Ok(read.pop().unwrap())
        },
        Err(e) => Err(e),
    }
}

} // verus!
