//! What the parser reads from a text, stated over the bytes of the text and offsets into them.
//!
//! Ignorable text is white space, separators and comments. A token is a string literal, a
//! number, an identifier or a delimiter. Expressions are what the tokens build: a literal or an
//! identifier each time, and a list for each pair of matching delimiters.

use super::charset::{
    is_non_id, is_separator, is_white, BACKSLASH, BANG, DIGIT_ZERO, DOT, DOUBLE_QUOTE, HASH,
    LOWER_B, LOWER_O, LOWER_X, MINUS, NEWLINE, PLUS, QUOTE, SLASH, STAR,
};
use super::expr::{ExprKind, ExprListType, ExprView, FloatView};
use super::file::{has_prefix_at, position_at, Pos};
use super::parser::{decimal, utf8_lossy, ParseErrorKind};
use crate::utils::string::unescape_spec;
use crate::utils::text::{digit_value, is_digit_in};
use vstd::prelude::*;
use vstd::wrapping::i64_specs::signed_crop;

verus! {

/// `///`, which begins a doc-comment.
pub open spec fn doc_mark() -> Seq<u8> {
    seq![SLASH, SLASH, SLASH]
}

/// `//`, which begins a line comment.
pub open spec fn line_mark() -> Seq<u8> {
    seq![SLASH, SLASH]
}

/// `#!`, which begins a line comment too.
pub open spec fn shebang_mark() -> Seq<u8> {
    seq![HASH, BANG]
}

/// `/*`, which begins a block comment.
pub open spec fn block_open_mark() -> Seq<u8> {
    seq![SLASH, STAR]
}

/// `*/`, which ends a block comment.
pub open spec fn block_close_mark() -> Seq<u8> {
    seq![STAR, SLASH]
}

/// The offset at which the line that holds offset `i` ends: that of the first newline from `i`
/// on, or the length of the text where there is none.
pub open spec fn line_end(bytes: Seq<u8>, i: int) -> int
    decreases bytes.len() - i,
{
    if i >= bytes.len() || bytes[i] == NEWLINE {
        i
    } else {
        line_end(bytes, i + 1)
    }
}

/// The offset just after the first `*/` that begins at `i` or later, if there is one.
pub open spec fn comment_close(bytes: Seq<u8>, i: int) -> Option<int>
    decreases bytes.len() - i,
{
    if i + 2 > bytes.len() {
        None
    } else if has_prefix_at(bytes, i, block_close_mark()) {
        Some(i + 2)
    } else {
        comment_close(bytes, i + 1)
    }
}

/// `bytes` without the bytes from 0 to 32 at its start.
pub open spec fn trim_start(bytes: Seq<u8>) -> Seq<u8>
    decreases bytes.len(),
{
    if bytes.len() > 0 && bytes[0] <= 32 {
        trim_start(bytes.skip(1))
    } else {
        bytes
    }
}

/// `bytes` without the bytes from 0 to 32 at its end.
pub open spec fn trim_end(bytes: Seq<u8>) -> Seq<u8>
    decreases bytes.len(),
{
    if bytes.len() > 0 && bytes.last() <= 32 {
        trim_end(bytes.drop_last())
    } else {
        bytes
    }
}

/// The text of a doc-comment whose marker ends at `from` and whose line ends at `to`: what
/// stands between, without the white space around it.
pub open spec fn doc_text(bytes: Seq<u8>, from: int, to: int) -> Seq<char> {
    utf8_lossy(trim_end(trim_start(bytes.subrange(from, to))))
}

/// What skipping ignorable text found.
pub struct Skipped {
    /// The offset of the first byte that is not ignorable, or the length of the text.
    pub end: int,
    /// Whether a separator was passed.
    pub boundary: bool,
    /// The texts of the doc-comments that were passed, in order.
    pub docs: Seq<Seq<char>>,
}

/// Skips ignorable text from offset `i` on, having already passed a separator if `boundary`
/// and the doc-comments `docs`. `None` where a block comment is not closed.
///
/// A separator is passed and remembered. `///` begins a doc-comment, which runs to the end of
/// its line and whose text is kept. `//` and `#!` begin a comment that runs to the end of its
/// line. `/*` begins a comment that runs to the first `*/` that starts after its first byte.
/// Other white space is passed. Anything else ends the ignorable text.
pub open spec fn skip_from(bytes: Seq<u8>, i: int, boundary: bool, docs: Seq<Seq<char>>) -> Option<
    Skipped,
>
    decreases bytes.len() - i,
    when i >= 0
    via skip_from_decreases
{
    if i >= bytes.len() {
        Some(Skipped { end: i, boundary, docs })
    } else if is_separator(bytes[i]) {
        skip_from(bytes, i + 1, true, docs)
    } else if has_prefix_at(bytes, i, doc_mark()) {
        let end = line_end(bytes, i + 3);
        skip_from(bytes, end, boundary, docs.push(doc_text(bytes, i + 3, end)))
    } else if has_prefix_at(bytes, i, line_mark()) || has_prefix_at(bytes, i, shebang_mark()) {
        skip_from(bytes, line_end(bytes, i), boundary, docs)
    } else if has_prefix_at(bytes, i, block_open_mark()) {
        match comment_close(bytes, i + 1) {
            Some(end) => skip_from(bytes, end, boundary, docs),
            None => None,
        }
    } else if is_white(bytes[i]) {
        skip_from(bytes, i + 1, boundary, docs)
    } else {
        Some(Skipped { end: i, boundary, docs })
    }
}

#[via_fn]
proof fn skip_from_decreases(bytes: Seq<u8>, i: int, boundary: bool, docs: Seq<Seq<char>>) {
    if i < bytes.len() {
        lemma_line_end(bytes, i);
        lemma_line_end(bytes, i + 3);
        lemma_comment_close(bytes, i + 1);
        if has_prefix_at(bytes, i, line_mark()) {
            assert(bytes.subrange(i, i + 2)[0] == SLASH);
            assert(line_end(bytes, i) == line_end(bytes, i + 1));
            lemma_line_end(bytes, i + 1);
        }
        if has_prefix_at(bytes, i, shebang_mark()) {
            assert(bytes.subrange(i, i + 2)[0] == HASH);
            assert(line_end(bytes, i) == line_end(bytes, i + 1));
            lemma_line_end(bytes, i + 1);
        }
    }
}

/// A line ends at or after the offset it is asked for, inside the text, at a newline or at the
/// end of the text, and no newline stands before its end.
pub proof fn lemma_line_end(bytes: Seq<u8>, i: int)
    requires
        0 <= i,
    ensures
        i <= line_end(bytes, i),
        i <= bytes.len() ==> line_end(bytes, i) <= bytes.len(),
        line_end(bytes, i) < bytes.len() ==> bytes[line_end(bytes, i)] == NEWLINE,
        forall|k: int| i <= k < line_end(bytes, i) ==> bytes[k] != NEWLINE,
    decreases bytes.len() - i,
{
    if i >= bytes.len() || bytes[i] == NEWLINE {
    } else {
        lemma_line_end(bytes, i + 1);
    }
}

/// A block comment closes at least two bytes after the offset the search began at, and inside
/// the text.
pub proof fn lemma_comment_close(bytes: Seq<u8>, i: int)
    requires
        0 <= i,
    ensures
        comment_close(bytes, i) matches Some(end) ==> i + 2 <= end <= bytes.len(),
    decreases bytes.len() - i,
{
    if i + 2 > bytes.len() {
    } else if has_prefix_at(bytes, i, block_close_mark()) {
    } else {
        lemma_comment_close(bytes, i + 1);
    }
}

/// The doc-comments of a run of ignorable text as one text: the lines joined by newlines.
pub open spec fn joined(docs: Seq<Seq<char>>) -> Seq<char>
    decreases docs.len(),
{
    if docs.len() == 0 {
        Seq::empty()
    } else if docs.len() == 1 {
        docs[0]
    } else {
        joined(docs.drop_last()) + seq!['\n'] + docs.last()
    }
}

/// What skipping ignorable text reports: the doc-comments joined where there are any, the
/// empty text where only a separator was passed, and nothing where neither was.
pub open spec fn reported(skipped: Skipped) -> Option<Seq<char>> {
    if skipped.docs.len() > 0 {
        Some(joined(skipped.docs))
    } else if skipped.boundary {
        Some(Seq::empty())
    } else {
        None
    }
}

/// How many bytes from offset `i` on are digits of the given base, one after the other.
pub open spec fn digit_run(bytes: Seq<u8>, i: int, base: int) -> nat
    decreases bytes.len() - i,
{
    if 0 <= i < bytes.len() && is_digit_in(bytes[i] as int, base) {
        1 + digit_run(bytes, i + 1, base)
    } else {
        0
    }
}

/// The number that the digits `digits` spell in the given base. Each must be a digit.
pub open spec fn digits_value(digits: Seq<u8>, base: int) -> int
    decreases digits.len(),
{
    if digits.len() == 0 {
        0
    } else {
        digits_value(digits.drop_last(), base) * base + digit_value(digits.last() as int)->0
    }
}

/// What each of the digits `digits` counts.
pub open spec fn digit_values(digits: Seq<u8>) -> Seq<u8> {
    Seq::new(digits.len(), |k: int| digit_value(digits[k] as int)->0 as u8)
}

/// The base that the prefix at offset `i` announces: 16 for `0x`, 2 for `0b`, 8 for `0o`, and
/// 10 where there is no such prefix.
pub open spec fn base_at(bytes: Seq<u8>, i: int) -> int {
    if has_prefix_at(bytes, i, seq![DIGIT_ZERO, LOWER_X]) {
        16
    } else if has_prefix_at(bytes, i, seq![DIGIT_ZERO, LOWER_B]) {
        2
    } else if has_prefix_at(bytes, i, seq![DIGIT_ZERO, LOWER_O]) {
        8
    } else {
        10
    }
}

/// A token as read from a text: what it is and the offset just after it.
pub struct Lexeme {
    pub kind: ExprKind,
    pub end: int,
}

/// The number that begins at offset `i`, if one does.
///
/// A number is an optional sign `-` or `+`, an optional prefix `0x`, `0b` or `0o`, and at least
/// one digit of the base. Where a `.` follows the digits, the digits after it are its
/// fractional part, and it is a `Float`; else it is an `Int`. The whole part is reduced to the
/// range of `i64` by wrapping, the sign of an `Int` included.
pub open spec fn number_at(bytes: Seq<u8>, i: int) -> Option<Lexeme> {
    let signed = 0 <= i < bytes.len() && (bytes[i] == MINUS || bytes[i] == PLUS);
    let negative = signed && bytes[i] == MINUS;
    let after_sign = if signed {
        i + 1
    } else {
        i
    };
    let base = base_at(bytes, after_sign);
    let first = if base == 10 {
        after_sign
    } else {
        after_sign + 2
    };
    let whole_len = digit_run(bytes, first, base);
    let whole_end = first + whole_len;
    let whole = digits_value(bytes.subrange(first, whole_end), base);
    if whole_len == 0 {
        None
    } else if whole_end < bytes.len() && bytes[whole_end] == DOT {
        let frac_end = whole_end + 1 + digit_run(bytes, whole_end + 1, base);
        Some(
            Lexeme {
                kind: ExprKind::Float(
                    FloatView {
                        negative,
                        whole: signed_crop(whole),
                        base: base as u8,
                        frac: digit_values(bytes.subrange(whole_end + 1, frac_end)),
                    },
                ),
                end: frac_end,
            },
        )
    } else {
        Some(
            Lexeme {
                kind: ExprKind::Int(
                    signed_crop(
                        if negative {
                            -whole
                        } else {
                            whole
                        },
                    ),
                ),
                end: whole_end,
            },
        )
    }
}

/// The offset of the quote that closes a string literal, searching from offset `i` on: that of
/// the first byte `quote` that no backslash stands before. A backslash takes the byte after it
/// with it, whatever that is. `None` where the text ends first.
pub open spec fn string_close(bytes: Seq<u8>, i: int, quote: u8) -> Option<int>
    decreases bytes.len() - i,
{
    if i < 0 || i >= bytes.len() {
        None
    } else if bytes[i] == quote {
        Some(i)
    } else if bytes[i] == BACKSLASH {
        if i + 1 >= bytes.len() {
            None
        } else {
            string_close(bytes, i + 2, quote)
        }
    } else {
        string_close(bytes, i + 1, quote)
    }
}

/// The string literal that begins with the quote at offset `i`, if it is closed: its value is
/// what stands between the quotes, unescaped.
pub open spec fn string_at(bytes: Seq<u8>, i: int) -> Option<Lexeme> {
    match string_close(bytes, i + 1, bytes[i]) {
        Some(close) => Some(
            Lexeme {
                kind: ExprKind::String(unescape_spec(utf8_lossy(bytes.subrange(i + 1, close)))),
                end: close + 1,
            },
        ),
        None => None,
    }
}

/// How many bytes from offset `i` on can be part of an identifier, one after the other.
pub open spec fn id_run(bytes: Seq<u8>, i: int) -> nat
    decreases bytes.len() - i,
{
    if 0 <= i < bytes.len() && !is_non_id(bytes[i]) {
        1 + id_run(bytes, i + 1)
    } else {
        0
    }
}

/// A token, by what it does to the expressions being built.
pub enum Token {
    /// It opens a list of the given kind, at the given position.
    Open(ExprListType, Pos),
    /// It closes a list of the given kind.
    Close(ExprListType),
    /// It is an expression by itself.
    Atom(ExprView),
}

/// What reading one token gave.
pub enum Lexed {
    /// A token, and the offset just after it.
    Token { token: Token, end: int },
    /// A failure of the given kind at the given offset.
    Failure { kind: ParseErrorKind, at: int },
}

/// Whether `b` is one of the two quotes that open a string literal.
pub open spec fn is_quote(b: u8) -> bool {
    b == QUOTE || b == DOUBLE_QUOTE
}

/// The token that begins at offset `i`, which lies inside the text.
///
/// A quote begins a string literal, which fails where it is not closed. A delimiter is a token
/// by itself. Anything else is a number where one can be read, else an identifier, which is
/// every byte up to the next that cannot be part of one; where there is no such byte at all,
/// reading fails.
pub open spec fn token_at(bytes: Seq<u8>, i: int) -> Lexed {
    let b = bytes[i];
    let pos = position_at(bytes, i);
    if is_quote(b) {
        match string_at(bytes, i) {
            Some(lexeme) => Lexed::Token {
                token: Token::Atom(ExprView { pos, kind: lexeme.kind }),
                end: lexeme.end,
            },
            None => Lexed::Failure {
                kind: ParseErrorKind::UnclosedString,
                at: bytes.len() as int,
            },
        }
    } else if ExprListType::opened_by(b) is Some {
        Lexed::Token { token: Token::Open(ExprListType::opened_by(b)->0, pos), end: i + 1 }
    } else if ExprListType::closed_by(b) is Some {
        Lexed::Token { token: Token::Close(ExprListType::closed_by(b)->0), end: i + 1 }
    } else {
        match number_at(bytes, i) {
            Some(lexeme) => Lexed::Token {
                token: Token::Atom(ExprView { pos, kind: lexeme.kind }),
                end: lexeme.end,
            },
            None => if id_run(bytes, i) > 0 {
                Lexed::Token {
                    token: Token::Atom(
                        ExprView {
                            pos,
                            kind: ExprKind::Id(
                                utf8_lossy(bytes.subrange(i, i + id_run(bytes, i))),
                            ),
                        },
                    ),
                    end: i + id_run(bytes, i),
                }
            } else {
                Lexed::Failure { kind: ParseErrorKind::InvalidToken, at: i }
            },
        }
    }
}

/// A list that has been opened and not yet closed.
pub struct OpenList {
    pub kind: ExprListType,
    /// The position of its opening delimiter.
    pub pos: Pos,
    /// The expressions read inside it so far.
    pub items: Seq<ExprView>,
}

/// The expressions being built: those at top level, and the lists that are open, the outermost
/// first.
pub struct Nest {
    pub root: Seq<ExprView>,
    pub open: Seq<OpenList>,
}

impl Nest {
    /// Nothing read yet.
    pub open spec fn empty() -> Nest {
        Nest { root: Seq::empty(), open: Seq::empty() }
    }

    /// This nest with `e` added to the innermost open list, or at top level where none is open.
    pub open spec fn add(self, e: ExprView) -> Nest {
        if self.open.len() == 0 {
            Nest { root: self.root.push(e), open: self.open }
        } else {
            let top = self.open.last();
            Nest {
                root: self.root,
                open: self.open.drop_last().push(
                    OpenList { kind: top.kind, pos: top.pos, items: top.items.push(e) },
                ),
            }
        }
    }

    /// This nest with a new, empty list of the given kind opened at `pos`.
    pub open spec fn opened(self, kind: ExprListType, pos: Pos) -> Nest {
        Nest { root: self.root, open: self.open.push(OpenList { kind, pos, items: Seq::empty() }) }
    }

    /// This nest with its innermost open list closed and added, as one expression, to what
    /// encloses it. `None` where no list is open or the innermost is of another kind.
    pub open spec fn closed(self, kind: ExprListType) -> Option<Nest> {
        if self.open.len() == 0 || self.open.last().kind != kind {
            None
        } else {
            let top = self.open.last();
            Some(
                Nest { root: self.root, open: self.open.drop_last() }.add(
                    ExprView { pos: top.pos, kind: ExprKind::List(top.kind, top.items) },
                ),
            )
        }
    }

    /// This nest after the given token. `None` where the token closes nothing.
    pub open spec fn after(self, token: Token) -> Option<Nest> {
        match token {
            Token::Atom(e) => Some(self.add(e)),
            Token::Open(kind, pos) => Some(self.opened(kind, pos)),
            Token::Close(kind) => self.closed(kind),
        }
    }
}

/// Why parsing failed, and where.
pub struct Failure {
    pub kind: ParseErrorKind,
    pub pos: Pos,
    pub message: Seq<char>,
}

/// The message of a failure of the given kind that is not about an open list.
pub open spec fn message_of(kind: ParseErrorKind) -> Seq<char> {
    match kind {
        ParseErrorKind::UnclosedComment => "Unclosed comment"@,
        ParseErrorKind::UnclosedString => "Unclosed string literal"@,
        ParseErrorKind::UnclosedDelimiter => "Unclosed delimiter"@,
        ParseErrorKind::UnexpectedClosingDelimiter => "Unexpected closing delimiter"@,
        ParseErrorKind::ExpectedSingleExpression => "Expected a single expression"@,
        ParseErrorKind::InvalidToken => "Unexpected token"@,
    }
}

/// The message for a list of the given kind, opened at `pos`, that is not closed: the general
/// message, the opening delimiter, and the line and column where it stands.
pub open spec fn unclosed_message(kind: ExprListType, pos: Pos) -> Seq<char> {
    "Unclosed delimiter"@ + seq![' ', kind.opener() as char] + " opened at "@ + decimal(
        pos.line as nat,
    ) + seq![':'] + decimal(pos.col as nat)
}

/// A failure of the given kind at offset `at` of `bytes`.
pub open spec fn failure_at(bytes: Seq<u8>, kind: ParseErrorKind, at: int) -> Failure {
    Failure { kind, pos: position_at(bytes, at), message: message_of(kind) }
}

/// The failure for the innermost open list of `nest`, which the text leaves open.
pub open spec fn unclosed(nest: Nest) -> Failure {
    Failure {
        kind: ParseErrorKind::UnclosedDelimiter,
        pos: nest.open.last().pos,
        message: unclosed_message(nest.open.last().kind, nest.open.last().pos),
    }
}

/// The expressions at top level that reading `bytes` from offset `i` on gives, having built
/// `nest` so far; or the first failure met.
///
/// Ignorable text is skipped, and then one token is read and taken into the nest, again and
/// again. An unclosed comment, a token that cannot be read and a closing delimiter that closes
/// nothing each end the reading with a failure at their place. At the end of the text an open
/// list is a failure at the place where the innermost was opened.
pub open spec fn read_from(bytes: Seq<u8>, i: int, nest: Nest) -> Result<Seq<ExprView>, Failure>
    decreases bytes.len() - i,
    when i >= 0
    via read_from_decreases
{
    match skip_from(bytes, i, false, Seq::empty()) {
        None => Err(failure_at(bytes, ParseErrorKind::UnclosedComment, bytes.len() as int)),
        Some(skipped) => if skipped.end >= bytes.len() {
            if nest.open.len() > 0 {
                Err(unclosed(nest))
            } else {
                Ok(nest.root)
            }
        } else {
            match token_at(bytes, skipped.end) {
                Lexed::Failure { kind, at } => Err(failure_at(bytes, kind, at)),
                Lexed::Token { token, end } => match nest.after(token) {
                    Some(next) => read_from(bytes, end, next),
                    None => Err(
                        failure_at(
                            bytes,
                            ParseErrorKind::UnexpectedClosingDelimiter,
                            skipped.end,
                        ),
                    ),
                },
            }
        },
    }
}

#[via_fn]
proof fn read_from_decreases(bytes: Seq<u8>, i: int, nest: Nest) {
    if i <= bytes.len() {
        lemma_skip_from(bytes, i, false, Seq::empty());
        match skip_from(bytes, i, false, Seq::empty()) {
            Some(skipped) => {
                if skipped.end < bytes.len() {
                    lemma_token_at(bytes, skipped.end);
                }
            },
            None => {},
        }
    }
}

/// Skipping ends at or after the offset it began at and inside the text, keeps the separator
/// and the doc-comments it was given, and stops before a byte that is not white space.
pub proof fn lemma_skip_from(bytes: Seq<u8>, i: int, boundary: bool, docs: Seq<Seq<char>>)
    requires
        0 <= i <= bytes.len(),
    ensures
        skip_from(bytes, i, boundary, docs) matches Some(skipped) ==> {
            &&& i <= skipped.end <= bytes.len()
            &&& boundary ==> skipped.boundary
            &&& docs.len() <= skipped.docs.len()
            &&& skipped.end < bytes.len() ==> !is_white(bytes[skipped.end])
        },
    decreases bytes.len() - i,
{
    if i >= bytes.len() {
    } else if is_separator(bytes[i]) {
        lemma_skip_from(bytes, i + 1, true, docs);
    } else if has_prefix_at(bytes, i, doc_mark()) {
        let end = line_end(bytes, i + 3);
        lemma_line_end(bytes, i + 3);
        lemma_skip_from(bytes, end, boundary, docs.push(doc_text(bytes, i + 3, end)));
    } else if has_prefix_at(bytes, i, line_mark()) || has_prefix_at(bytes, i, shebang_mark()) {
        lemma_line_end(bytes, i);
        if has_prefix_at(bytes, i, line_mark()) {
            assert(bytes.subrange(i, i + 2)[0] == SLASH);
        } else {
            assert(bytes.subrange(i, i + 2)[0] == HASH);
        }
        assert(line_end(bytes, i) == line_end(bytes, i + 1));
        lemma_line_end(bytes, i + 1);
        lemma_skip_from(bytes, line_end(bytes, i), boundary, docs);
    } else if has_prefix_at(bytes, i, block_open_mark()) {
        lemma_comment_close(bytes, i + 1);
        match comment_close(bytes, i + 1) {
            Some(end) => {
                lemma_skip_from(bytes, end, boundary, docs);
            },
            None => {},
        }
    } else if is_white(bytes[i]) {
        lemma_skip_from(bytes, i + 1, boundary, docs);
    } else {
    }
}

/// The closing quote of a string literal stands at or after the offset the search began at,
/// and inside the text.
pub proof fn lemma_string_close(bytes: Seq<u8>, i: int, quote: u8)
    ensures
        string_close(bytes, i, quote) matches Some(close) ==> 0 <= i <= close < bytes.len()
            && bytes[close] == quote,
    decreases bytes.len() - i,
{
    if i < 0 || i >= bytes.len() {
    } else if bytes[i] == quote {
    } else if bytes[i] == BACKSLASH {
        if i + 1 < bytes.len() {
            lemma_string_close(bytes, i + 2, quote);
        }
    } else {
        lemma_string_close(bytes, i + 1, quote);
    }
}

/// A run of digits and a run of identifier bytes end inside the text.
pub proof fn lemma_runs(bytes: Seq<u8>, i: int, base: int)
    requires
        0 <= i,
    ensures
        i <= bytes.len() ==> i + digit_run(bytes, i, base) <= bytes.len(),
        i <= bytes.len() ==> i + id_run(bytes, i) <= bytes.len(),
        forall|k: int|
            i <= k < i + digit_run(bytes, i, base) ==> is_digit_in(bytes[k] as int, base),
        forall|k: int| i <= k < i + id_run(bytes, i) ==> !is_non_id(bytes[k]),
        i + digit_run(bytes, i, base) < bytes.len() ==> !is_digit_in(
            bytes[i + digit_run(bytes, i, base)] as int,
            base,
        ),
        i + id_run(bytes, i) < bytes.len() ==> is_non_id(bytes[i + id_run(bytes, i)]),
    decreases bytes.len() - i,
{
    if i < bytes.len() {
        lemma_runs(bytes, i + 1, base);
    }
}

/// A number ends after the offset it begins at, and inside the text.
pub proof fn lemma_number_at(bytes: Seq<u8>, i: int)
    requires
        0 <= i < bytes.len(),
    ensures
        number_at(bytes, i) matches Some(lexeme) ==> i < lexeme.end <= bytes.len(),
{
    let signed = bytes[i] == MINUS || bytes[i] == PLUS;
    let after_sign = if signed {
        i + 1
    } else {
        i
    };
    let base = base_at(bytes, after_sign);
    let first = if base == 10 {
        after_sign
    } else {
        after_sign + 2
    };
    lemma_runs(bytes, first, base);
    let whole_end = first + digit_run(bytes, first, base);
    if digit_run(bytes, first, base) > 0 {
        lemma_runs(bytes, whole_end + 1, base);
    }
}

/// A token ends after the offset it begins at, and inside the text.
pub proof fn lemma_token_at(bytes: Seq<u8>, i: int)
    requires
        0 <= i < bytes.len(),
    ensures
        token_at(bytes, i) matches Lexed::Token { end, .. } ==> i < end <= bytes.len(),
{
    lemma_string_close(bytes, i + 1, bytes[i]);
    lemma_number_at(bytes, i);
    lemma_runs(bytes, i, 10);
}

/// What parsing a whole text gives: the one expression at its top level, or the first failure
/// met. A text with no expression at top level, or with more than one, fails at its end.
pub open spec fn parse_spec(bytes: Seq<u8>) -> Result<ExprView, Failure> {
    match read_from(bytes, 0, Nest::empty()) {
        Ok(items) => if items.len() == 1 {
            Ok(items[0])
        } else {
            Err(
                failure_at(bytes, ParseErrorKind::ExpectedSingleExpression, bytes.len() as int),
            )
        },
        Err(failure) => Err(failure),
    }
}

} // verus!
