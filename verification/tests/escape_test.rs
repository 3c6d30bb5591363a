use intj::utils::string::{escape, unescape};
use intj::utils::text::{byte_digit, to_chars};

#[test]
fn escape_gives_short_forms() {
    assert_eq!(escape("\\"), "\\\\");
    assert_eq!(escape("\""), "\\\"");
    assert_eq!(escape("'"), "\\'");
    assert_eq!(escape("\n"), "\\n");
    assert_eq!(escape("\r"), "\\r");
    assert_eq!(escape("\t"), "\\t");
    assert_eq!(escape("\x08"), "\\b");
    assert_eq!(escape("\x0C"), "\\f");
}

#[test]
fn escape_gives_four_hex_digits_for_other_controls() {
    assert_eq!(escape("\x00"), "\\u0000");
    assert_eq!(escape("\x07"), "\\u0007");
    assert_eq!(escape("\x0B"), "\\u000b");
    assert_eq!(escape("\x1F"), "\\u001f");
    assert_eq!(escape("\x7F"), "\\u007f");
    assert_eq!(escape("\u{80}"), "\\u0080");
    assert_eq!(escape("\u{9F}"), "\\u009f");
}

#[test]
fn escape_keeps_everything_else() {
    assert_eq!(escape(""), "");
    assert_eq!(escape(" ~"), " ~");
    assert_eq!(escape("\u{A0}"), "\u{A0}");
    assert_eq!(escape("한글 😀"), "한글 😀");
}

#[test]
fn unescape_reads_control_letters() {
    assert_eq!(unescape("\\n\\r\\t\\b\\f\\a\\v"), "\n\r\t\x08\x0C\x07\x0B");
}

#[test]
fn unescape_reads_octal_runs_of_up_to_three_digits() {
    assert_eq!(unescape("\\101"), "A");
    assert_eq!(unescape("\\1019"), "A9");
    assert_eq!(unescape("\\18"), "\x018");
    assert_eq!(unescape("\\777"), "\u{1FF}");
    assert_eq!(unescape("\\7"), "\x07");
    assert_eq!(unescape("\\8"), "8");
}

#[test]
fn unescape_reads_hexadecimal_numbers() {
    assert_eq!(unescape("\\x41"), "A");
    assert_eq!(unescape("\\x4a"), "J");
    assert_eq!(unescape("\\x4A!"), "J!");
    assert_eq!(unescape("\\x412"), "A2");
    assert_eq!(unescape("\\u00e9"), "é");
    assert_eq!(unescape("\\uD55C"), "한");
    assert_eq!(unescape("\\u12"), "\x12");
}

#[test]
fn unescape_drops_what_is_no_character() {
    assert_eq!(unescape("a\\uD800b"), "ab");
    assert_eq!(unescape("a\\uDFFFb"), "ab");
    assert_eq!(unescape("a\\xZZb"), "ab");
    assert_eq!(unescape("a\\x+1b"), "ab");
    assert_eq!(unescape("a\\u12G4b"), "ab");
    assert_eq!(unescape("a\\x"), "a");
    assert_eq!(unescape("a\\u"), "a");
}

#[test]
fn unescape_drops_a_backslash_at_the_end() {
    assert_eq!(unescape("abc\\"), "abc");
    assert_eq!(unescape("\\"), "");
}

#[test]
fn unescape_takes_other_characters_literally() {
    assert_eq!(unescape("\\\\"), "\\");
    assert_eq!(unescape("\\\""), "\"");
    assert_eq!(unescape("\\'"), "'");
    assert_eq!(unescape("\\q"), "q");
    assert_eq!(unescape("\\한"), "한");
}

#[test]
fn unescape_of_escape_is_identity_on_every_low_code() {
    let mut all = String::new();
    let mut code: u32 = 0;
    while code < 0x300 {
        all.push(char::from_u32(code).unwrap());
        code += 1;
    }
    all.push('\u{D7FF}');
    all.push('\u{E000}');
    all.push('\u{10FFFF}');
    assert_eq!(unescape(escape(&all).as_str()), all);
}

#[test]
fn unescape_of_escape_is_identity_before_digits() {
    let text = "\x011\x7f0abc\u{9f}ff";
    assert_eq!(escape(text), "\\u00011\\u007f0abc\\u009fff");
    assert_eq!(unescape(escape(text).as_str()), text);
}

#[test]
fn to_chars_gives_the_characters() {
    assert_eq!(to_chars("a한b"), vec!['a', '한', 'b']);
    assert_eq!(to_chars(""), Vec::<char>::new());
}

#[test]
fn byte_digit_counts_digits_and_letters() {
    assert_eq!(byte_digit(b'0'), Some(0));
    assert_eq!(byte_digit(b'9'), Some(9));
    assert_eq!(byte_digit(b'a'), Some(10));
    assert_eq!(byte_digit(b'F'), Some(15));
    assert_eq!(byte_digit(b'z'), Some(35));
    assert_eq!(byte_digit(b'Z'), Some(35));
    assert_eq!(byte_digit(b'/'), None);
    assert_eq!(byte_digit(b':'), None);
    assert_eq!(byte_digit(b'@'), None);
    assert_eq!(byte_digit(b'['), None);
    assert_eq!(byte_digit(b'`'), None);
    assert_eq!(byte_digit(b'{'), None);
    assert_eq!(byte_digit(0xC3), None);
}
