use intj::token::charset::Classifier;
use intj::token::file::Pos;
use intj::token::parser::{ParseError, ParseErrorKind, ParseState};

fn cursor(text: &str) -> ParseState<'_> {
    ParseState::new("t.intj".to_string(), text)
}

#[test]
fn new_cursor_stands_at_the_start() {
    let s = cursor("abc");
    assert_eq!(s.name, "t.intj");
    assert_eq!(s.src, b"abc");
    assert_eq!(s.pos, Pos { pos: 0, line: 1, col: 1 });
}

#[test]
fn skip_counts_lines_and_columns() {
    let mut s = cursor("a\nbc");
    s.skip(1);
    assert_eq!(s.pos, Pos { pos: 1, line: 1, col: 2 });
    s.skip(1);
    assert_eq!(s.pos, Pos { pos: 2, line: 2, col: 1 });
    s.skip(5);
    assert_eq!(s.pos, Pos { pos: 4, line: 2, col: 3 });
    assert!(s.is_eof());
    s.skip(1);
    assert_eq!(s.pos, Pos { pos: 4, line: 2, col: 3 });
}

#[test]
fn restore_puts_the_cursor_back() {
    let mut s = cursor("a\nbc");
    s.skip(1);
    let saved = s.pos;
    s.skip(2);
    s.restore(&saved);
    assert_eq!(s.pos, Pos { pos: 1, line: 1, col: 2 });
    assert_eq!(s.cur(), '\n');
}

#[test]
fn cur_gives_the_byte_or_zero_at_the_end() {
    let mut s = cursor("ab");
    assert_eq!(s.cur(), 'a');
    s.skip(1);
    assert_eq!(s.cur(), 'b');
    s.skip(1);
    assert_eq!(s.cur(), '\0');
}

#[test]
fn cur_digit_reads_digits_and_letters() {
    let mut s = cursor("7fZ-");
    assert_eq!(s.cur_digit(), Some(7));
    s.skip(1);
    assert_eq!(s.cur_digit(), Some(15));
    s.skip(1);
    assert_eq!(s.cur_digit(), Some(35));
    s.skip(1);
    assert_eq!(s.cur_digit(), None);
    s.skip(1);
    assert_eq!(s.cur_digit(), None);
}

#[test]
fn char_compares_the_current_byte() {
    let mut s = cursor("-x");
    assert!(s.char('-'));
    assert!(!s.char('x'));
    s.skip(2);
    assert!(!s.char('-'));
    assert!(!s.char('\0'));
}

#[test]
fn char_does_not_confuse_a_byte_with_a_wide_character() {
    let s = cursor("A");
    assert!(!s.char('\u{141}'));
    assert!(s.char('A'));
}

#[test]
fn str_compares_without_running_over_the_end() {
    let mut s = cursor("a//");
    assert!(!s.str("//"));
    assert!(s.str("a/"));
    assert!(s.str(""));
    s.skip(1);
    assert!(s.str("//"));
    assert!(!s.str("///"));
    s.skip(1);
    assert!(!s.str("//"));
    assert!(s.str("/"));
    s.skip(1);
    assert!(!s.str("/"));
    assert!(s.str(""));
}

#[test]
fn range_checks_both_bounds() {
    let mut s = cursor("m");
    assert!(s.range('a', 'z'));
    assert!(s.range('m', 'm'));
    assert!(!s.range('n', 'z'));
    assert!(!s.range('a', 'l'));
    s.skip(1);
    assert!(!s.range('\0', 'z'));
}

#[test]
fn one_of_looks_the_byte_up() {
    let classes = Classifier::new();
    let mut s = cursor(", x\u{e9}");
    assert!(s.one_of(&classes.separators));
    assert!(s.one_of(&classes.whites));
    s.skip(1);
    assert!(!s.one_of(&classes.separators));
    assert!(s.one_of(&classes.whites));
    s.skip(1);
    assert!(!s.one_of(&classes.non_id_chars));
    s.skip(1);
    assert!(!s.one_of(&classes.non_id_chars));
    assert!(!s.one_of(&classes.whites));
    s.skip(2);
    assert!(s.is_eof());
    assert!(!s.one_of(&classes.whites));
}

#[test]
fn cur_str_takes_the_bytes_before_the_cursor() {
    let mut s = cursor("hello");
    s.skip(4);
    assert_eq!(s.cur_str(2), "ll");
    assert_eq!(s.cur_str(0), "");
    assert_eq!(s.cur_str(4), "hell");
    assert_eq!(s.cur_str(9), "hell");
}

#[test]
fn cur_from_takes_the_bytes_since_a_position() {
    let mut s = cursor("hello");
    s.skip(1);
    let from = s.pos;
    s.skip(3);
    assert_eq!(s.cur_from(&from), "ell");
    let here = s.pos;
    assert_eq!(s.cur_from(&here), "");
    s.restore(&from);
    assert_eq!(s.cur_from(&here), "");
}

#[test]
fn cur_from_decodes_utf8() {
    let mut s = cursor("x한글y");
    s.skip(1);
    let from = s.pos;
    s.skip(6);
    assert_eq!(s.cur_from(&from), "한글");
}

#[test]
fn cur_from_replaces_what_is_not_utf8() {
    let bytes: [u8; 4] = [b'a', 0xFF, b'b', b'c'];
    let mut s = ParseState { name: "t".to_string(), src: &bytes, pos: Pos { pos: 0, line: 1, col: 1 } };
    let from = s.pos;
    s.skip(3);
    assert_eq!(s.cur_from(&from), "a\u{FFFD}b");
    assert_eq!(s.cur_str(2), "\u{FFFD}b");
}

#[test]
fn err_carries_name_position_kind_and_message() {
    let mut s = cursor("a\nbc");
    s.skip(3);
    let e = s.err(ParseErrorKind::InvalidToken, "Unexpected token");
    assert_eq!(e.name, "t.intj");
    assert_eq!(e.pos, Pos { pos: 3, line: 2, col: 2 });
    assert_eq!(e.kind, ParseErrorKind::InvalidToken);
    assert_eq!(e.message, "Unexpected token");
    let r: Result<u8, ParseError> = s.err_result(ParseErrorKind::UnclosedComment, "Unclosed comment");
    let e = r.unwrap_err();
    assert_eq!(e.kind, ParseErrorKind::UnclosedComment);
    assert_eq!(e.pos, Pos { pos: 3, line: 2, col: 2 });
    assert_eq!(e.message, "Unclosed comment");
}

#[test]
fn error_renders_as_name_line_column_message() {
    let e = ParseError {
        name: "main.intj".to_string(),
        pos: Pos { pos: 1234, line: 107, col: 20 },
        kind: ParseErrorKind::InvalidToken,
        message: "Unexpected token".to_string(),
    };
    assert_eq!(e.to_string(), "main.intj:107:20: Unexpected token");
    let e = ParseError {
        name: "".to_string(),
        pos: Pos { pos: 0, line: 0, col: 9 },
        kind: ParseErrorKind::UnclosedString,
        message: "".to_string(),
    };
    assert_eq!(e.to_string(), ":0:9: ");
}
