use intj::token::file::{starts_with_at, File, Pos};

fn at(pos: usize, line: usize, col: usize) -> Pos {
    Pos { pos, line, col }
}

#[test]
fn next_counts_lines_and_columns() {
    let src = "ab\ncd\n\nx";
    let mut p = at(0, 1, 1);
    p.next(src, 1);
    assert_eq!(p, at(1, 1, 2));
    p.next(src, 1);
    assert_eq!(p, at(2, 1, 3));
    p.next(src, 1);
    assert_eq!(p, at(3, 2, 1));
    p.next(src, 3);
    assert_eq!(p, at(6, 3, 1));
    p.next(src, 1);
    assert_eq!(p, at(7, 4, 1));
}

#[test]
fn next_stops_at_the_end() {
    let src = "ab\nc";
    let mut p = at(0, 1, 1);
    p.next(src, 100);
    assert_eq!(p, at(4, 2, 2));
    p.next(src, 1);
    assert_eq!(p, at(4, 2, 2));
    p.next(src, 0);
    assert_eq!(p, at(4, 2, 2));
}

#[test]
fn next_counts_bytes_not_characters() {
    let src = "한x";
    let mut p = at(0, 1, 1);
    p.next(src, 3);
    assert_eq!(p, at(3, 1, 4));
    assert_eq!(p.char(src, 0), Some('x'));
}

#[test]
fn is_eof_at_and_past_the_end() {
    assert!(!at(0, 1, 1).is_eof("a"));
    assert!(at(1, 1, 2).is_eof("a"));
    assert!(at(5, 1, 6).is_eof("a"));
    assert!(at(0, 1, 1).is_eof(""));
}

#[test]
fn char_looks_ahead_without_failing() {
    let src = "abc";
    let p = at(1, 1, 2);
    assert_eq!(p.char(src, 0), Some('b'));
    assert_eq!(p.char(src, 1), Some('c'));
    assert_eq!(p.char(src, 2), None);
    assert_eq!(p.char(src, usize::MAX), None);
    assert_eq!(at(7, 1, 8).char(src, 0), None);
}

#[test]
fn eq_str_checks_the_bounds() {
    let src = "hello world";
    let p = at(6, 1, 7);
    assert!(p.eq_str(src, 0, "world"));
    assert!(p.eq_str(src, 0, "wor"));
    assert!(p.eq_str(src, 0, ""));
    assert!(p.eq_str(src, 2, "rld"));
    assert!(!p.eq_str(src, 0, "world!"));
    assert!(!p.eq_str(src, 0, "word"));
    assert!(!p.eq_str(src, 5, "x"));
    assert!(p.eq_str(src, 5, ""));
    assert!(!p.eq_str(src, 6, ""));
    assert!(!p.eq_str(src, usize::MAX, "w"));
}

#[test]
fn starts_with_at_compares_bytes() {
    assert!(starts_with_at(b"abcd", 1, b"bc"));
    assert!(!starts_with_at(b"abcd", 1, b"bd"));
    assert!(!starts_with_at(b"abcd", 3, b"de"));
    assert!(starts_with_at(b"abcd", 4, b""));
    assert!(!starts_with_at(b"abcd", 5, b""));
}

#[test]
fn find_position_scans_from_the_start() {
    let file = File { name: "f".to_string(), contents: "ab\ncd\n\nx".to_string() };
    assert_eq!(file.find_position(0), at(0, 1, 1));
    assert_eq!(file.find_position(2), at(2, 1, 3));
    assert_eq!(file.find_position(3), at(3, 2, 1));
    assert_eq!(file.find_position(6), at(6, 3, 1));
    assert_eq!(file.find_position(7), at(7, 4, 1));
    assert_eq!(file.find_position(8), at(8, 4, 2));
    assert_eq!(file.find_position(50), at(50, 4, 2));
}

#[test]
fn counting_on_the_way_agrees_with_scanning_from_the_start() {
    let text = "one\ntwo, three\n\n  four /* x\ny */ five\n";
    let file = File { name: "f".to_string(), contents: text.to_string() };
    let steps = [1usize, 2, 0, 5, 1, 1, 7, 3, 11, 2, 40];
    let mut p = at(0, 1, 1);
    for n in steps {
        p.next(text, n);
        assert_eq!(p, file.find_position(p.pos));
    }
    assert_eq!(p.pos, text.len());
}

#[test]
fn file_can_be_cloned() {
    let file = File { name: "f".to_string(), contents: "x".to_string() };
    let copy = file.clone();
    assert_eq!(copy.name, "f");
    assert_eq!(copy.contents, "x");
}
