use intj::token::charset::Classifier;
use intj::token::file::Pos;
use intj::token::parser::{skip_ignores, skip_until_newline, ParseErrorKind, ParseState};

fn skipped(text: &str) -> (Option<String>, usize) {
    let classes = Classifier::new();
    let mut s = ParseState::new("t".to_string(), text);
    let doc = skip_ignores(&mut s, &classes).unwrap();
    (doc, s.pos.pos)
}

#[test]
fn skip_until_newline_stops_at_the_newline() {
    let mut s = ParseState::new("t".to_string(), "ab\ncd");
    skip_until_newline(&mut s);
    assert_eq!(s.pos, Pos { pos: 2, line: 1, col: 3 });
    skip_until_newline(&mut s);
    assert_eq!(s.pos.pos, 2);
    s.skip(1);
    skip_until_newline(&mut s);
    assert_eq!(s.pos, Pos { pos: 5, line: 2, col: 3 });
}

#[test]
fn doc_comment_text_is_reported() {
    let (doc, end) = skipped("/// doc\nx");
    assert_eq!(doc, Some("doc".to_string()));
    assert_eq!(end, 8);
}

#[test]
fn nothing_to_skip_reports_nothing() {
    assert_eq!(skipped("x"), (None, 0));
    assert_eq!(skipped(""), (None, 0));
}

#[test]
fn blanks_alone_report_nothing() {
    assert_eq!(skipped("  \t x"), (None, 4));
    assert_eq!(skipped(" \r\x00x"), (None, 3));
}

#[test]
fn a_separator_reports_the_empty_text() {
    assert_eq!(skipped("\nx"), (Some(String::new()), 1));
    assert_eq!(skipped(" , x"), (Some(String::new()), 3));
    assert_eq!(skipped(" \n\n"), (Some(String::new()), 3));
}

#[test]
fn line_comments_are_dropped() {
    assert_eq!(skipped("// note\nx"), (Some(String::new()), 8));
    assert_eq!(skipped("#! shebang\nx"), (Some(String::new()), 11));
    assert_eq!(skipped("// note"), (None, 7));
    assert_eq!(skipped("  // a\n // b\n  x"), (Some(String::new()), 15));
}

#[test]
fn a_lone_hash_or_slash_is_not_ignorable() {
    assert_eq!(skipped(" #x"), (None, 1));
    assert_eq!(skipped(" / x"), (None, 1));
}

#[test]
fn block_comments_are_dropped() {
    assert_eq!(skipped("/* a */x"), (None, 7));
    assert_eq!(skipped("/* a\nb */ x"), (None, 10));
    assert_eq!(skipped("/**/x"), (None, 4));
    assert_eq!(skipped("/* a */ /* b */\nx"), (Some(String::new()), 16));
    assert_eq!(skipped("/* // */x"), (None, 8));
}

#[test]
fn block_comment_closes_at_the_first_close_after_its_first_byte() {
    assert_eq!(skipped("/*/x"), (None, 3));
    assert_eq!(skipped("/* /* a */ b"), (None, 11));
}

#[test]
fn unclosed_block_comment_fails_at_the_end() {
    let classes = Classifier::new();
    for text in ["/* a", "x /*", "/*", "/* *", "/* a\n b"] {
        let mut s = ParseState::new("t".to_string(), text);
        s.skip(if text.starts_with('x') { 1 } else { 0 });
        let e = skip_ignores(&mut s, &classes).unwrap_err();
        assert_eq!(e.kind, ParseErrorKind::UnclosedComment);
        assert_eq!(e.pos.pos, text.len());
        assert_eq!(e.message, "Unclosed comment");
        assert_eq!(e.name, "t");
        assert_eq!(s.pos.pos, text.len());
    }
    let mut s = ParseState::new("t".to_string(), "/* a\n b");
    let e = skip_ignores(&mut s, &classes).unwrap_err();
    assert_eq!(e.pos, Pos { pos: 7, line: 2, col: 3 });
}

#[test]
fn doc_comments_are_joined_by_newlines() {
    let (doc, end) = skipped("/// one\n  /// two\n///three\nx");
    assert_eq!(doc, Some("one\ntwo\nthree".to_string()));
    assert_eq!(end, 27);
}

#[test]
fn doc_comment_text_loses_the_blanks_around_it() {
    assert_eq!(skipped("///   spaced out  \t\r\nx").0, Some("spaced out".to_string()));
    assert_eq!(skipped("///\nx").0, Some(String::new()));
    assert_eq!(skipped("///    \nx").0, Some(String::new()));
    assert_eq!(skipped("///a, b\nx").0, Some("a, b".to_string()));
}

#[test]
fn doc_comment_at_the_end_of_the_text_is_reported() {
    assert_eq!(skipped("/// last"), (Some("last".to_string()), 8));
}

#[test]
fn doc_comment_between_other_comments_is_kept() {
    let (doc, _) = skipped("// a\n/// kept\n/* b */ /// also\n\nx");
    assert_eq!(doc, Some("kept\nalso".to_string()));
}

#[test]
fn doc_comment_text_is_decoded_as_utf8() {
    assert_eq!(skipped("/// 한글 doc\nx").0, Some("한글 doc".to_string()));
}

#[test]
fn four_slashes_are_a_doc_comment_that_begins_with_a_slash() {
    assert_eq!(skipped("//// x\ny").0, Some("/ x".to_string()));
}

#[test]
fn skipping_stops_before_a_token() {
    let classes = Classifier::new();
    let mut s = ParseState::new("t".to_string(), "  \n  (a)");
    skip_ignores(&mut s, &classes).unwrap();
    assert_eq!(s.pos, Pos { pos: 5, line: 2, col: 3 });
    assert_eq!(s.cur(), '(');
}
