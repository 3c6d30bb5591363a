use intj::token::charset::Classifier;
use intj::token::expr::{Expr, ExprListType, FloatParts, GeneralExprBase};
use intj::token::file::Pos;
use intj::token::parser::{
    parse, parse_exprs, parse_id, read_token, ParseError, ParseErrorKind, ParseState,
};
use intj::token::frame::FrameStack;

fn parse_text(text: &str) -> Result<Expr, ParseError> {
    parse("test.intj".to_string(), text.to_string())
}

fn top_level(text: &str) -> Result<Vec<Expr>, ParseError> {
    let classes = Classifier::new();
    let mut s = ParseState::new("test.intj".to_string(), text);
    parse_exprs(&mut s, &classes)
}

fn integer(v: i64) -> GeneralExprBase {
    GeneralExprBase::Int(v)
}

fn id(name: &str) -> GeneralExprBase {
    GeneralExprBase::Id(name.to_string())
}

fn items(e: &Expr) -> &Vec<Expr> {
    match &e.expr {
        GeneralExprBase::List(_, items) => items,
        other => panic!("not a list: {:?}", other),
    }
}

fn depth(e: &Expr) -> usize {
    match &e.expr {
        GeneralExprBase::List(_, items) => 1 + items.iter().map(depth).max().unwrap_or(0),
        _ => 0,
    }
}

#[test]
fn single_list_of_two_integers() {
    let e = parse_text("(1 2)").unwrap();
    assert_eq!(e.pos, Pos { pos: 0, line: 1, col: 1 });
    match e.expr {
        GeneralExprBase::List(kind, items) => {
            assert_eq!(kind, ExprListType::Code);
            assert_eq!(items.len(), 2);
            assert_eq!(items[0].expr, integer(1));
            assert_eq!(items[0].pos, Pos { pos: 1, line: 1, col: 2 });
            assert_eq!(items[1].expr, integer(2));
            assert_eq!(items[1].pos, Pos { pos: 3, line: 1, col: 4 });
        }
        other => panic!("not a list: {:?}", other),
    }
}

#[test]
fn two_top_level_literals_are_rejected() {
    let e = parse_text("1 2").unwrap_err();
    assert_eq!(e.kind, ParseErrorKind::ExpectedSingleExpression);
    assert_eq!(e.pos, Pos { pos: 3, line: 1, col: 4 });
    assert_eq!(e.message, "Expected a single expression");
    assert_eq!(e.to_string(), "test.intj:1:4: Expected a single expression");
}

#[test]
fn empty_text_is_rejected() {
    for text in ["", "  \n ", "// only a comment\n", "/* */"] {
        let e = parse_text(text).unwrap_err();
        assert_eq!(e.kind, ParseErrorKind::ExpectedSingleExpression, "{:?}", text);
        assert_eq!(e.pos.pos, text.len());
    }
}

#[test]
fn mismatched_closing_delimiter_fails_where_it_stands() {
    let e = parse_text("(]").unwrap_err();
    assert_eq!(e.kind, ParseErrorKind::UnexpectedClosingDelimiter);
    assert_eq!(e.pos, Pos { pos: 1, line: 1, col: 2 });
    assert_eq!(e.to_string(), "test.intj:1:2: Unexpected closing delimiter");
}

#[test]
fn closing_delimiter_with_nothing_open_fails() {
    for (text, at) in [(")", 0), ("1 ]", 2), ("(1) }", 4), ("[(1)]\n)", 6), ("{(})", 2), ("([)]", 2)] {
        let e = parse_text(text).unwrap_err();
        assert_eq!(e.kind, ParseErrorKind::UnexpectedClosingDelimiter, "{:?}", text);
        assert_eq!(e.pos.pos, at, "{:?}", text);
    }
}

#[test]
fn unclosed_list_fails_at_its_opening_delimiter() {
    let e = parse_text("(1 2 3").unwrap_err();
    assert_eq!(e.kind, ParseErrorKind::UnclosedDelimiter);
    assert_eq!(e.pos, Pos { pos: 0, line: 1, col: 1 });
    assert_eq!(e.message, "Unclosed delimiter ( opened at 1:1");
    assert_eq!(e.to_string(), "test.intj:1:1: Unclosed delimiter ( opened at 1:1");
}

#[test]
fn unclosed_list_names_the_innermost_open_list() {
    let e = parse_text("(1\n  [2 {3} ").unwrap_err();
    assert_eq!(e.kind, ParseErrorKind::UnclosedDelimiter);
    assert_eq!(e.pos, Pos { pos: 5, line: 2, col: 3 });
    assert_eq!(e.message, "Unclosed delimiter [ opened at 2:3");
    let e = parse_text("({").unwrap_err();
    assert_eq!(e.pos.pos, 1);
    assert_eq!(e.message, "Unclosed delimiter { opened at 1:2");
}

#[test]
fn invalid_token_fails_where_it_stands() {
    for (text, at) in [("#", 0), (":", 0), ("`", 0), ("(1 : 2)", 3), ("-", 0), ("a = 1", 2), ("1 /", 2)] {
        let e = parse_text(text).unwrap_err();
        assert_eq!(e.kind, ParseErrorKind::InvalidToken, "{:?}", text);
        assert_eq!(e.pos.pos, at, "{:?}", text);
        assert_eq!(e.message, "Unexpected token");
    }
}

#[test]
fn unclosed_string_in_a_list_fails_at_the_end() {
    let e = parse_text("(\"abc").unwrap_err();
    assert_eq!(e.kind, ParseErrorKind::UnclosedString);
    assert_eq!(e.pos, Pos { pos: 5, line: 1, col: 6 });
    assert_eq!(e.message, "Unclosed string literal");
}

#[test]
fn unclosed_comment_in_a_list_fails_at_the_end() {
    let e = parse_text("(1 /* 2)").unwrap_err();
    assert_eq!(e.kind, ParseErrorKind::UnclosedComment);
    assert_eq!(e.pos.pos, 8);
    assert_eq!(e.message, "Unclosed comment");
}

#[test]
fn the_first_failure_wins() {
    assert_eq!(parse_text("(] \"abc").unwrap_err().kind, ParseErrorKind::UnexpectedClosingDelimiter);
    assert_eq!(parse_text("# (]").unwrap_err().kind, ParseErrorKind::InvalidToken);
    assert_eq!(parse_text("( /* ").unwrap_err().kind, ParseErrorKind::UnclosedComment);
    assert_eq!(parse_text("1 2 (").unwrap_err().kind, ParseErrorKind::UnclosedDelimiter);
}

#[test]
fn single_literals_parse() {
    assert_eq!(parse_text("42").unwrap().expr, integer(42));
    assert_eq!(parse_text("  -7\n").unwrap().expr, integer(-7));
    assert_eq!(parse_text("'x'").unwrap().expr, GeneralExprBase::String("x".to_string()));
    assert_eq!(parse_text("name").unwrap().expr, id("name"));
    assert_eq!(
        parse_text("2.5").unwrap().expr,
        GeneralExprBase::Float(FloatParts { negative: false, whole: 2, base: 10, frac: vec![5] })
    );
}

#[test]
fn list_kinds_follow_their_delimiters() {
    for (text, kind) in [("()", ExprListType::Code), ("[]", ExprListType::Array), ("{}", ExprListType::Object)] {
        match parse_text(text).unwrap().expr {
            GeneralExprBase::List(k, items) => {
                assert_eq!(k, kind);
                assert!(items.is_empty());
            }
            other => panic!("not a list: {:?}", other),
        }
    }
}

#[test]
fn items_keep_the_order_in_which_they_stand() {
    let e = parse_text("(1, 2\n3 4 /// note\n 5 6, 7)").unwrap();
    let found: Vec<&GeneralExprBase> = items(&e).iter().map(|e| &e.expr).collect();
    assert_eq!(found, vec![&integer(1), &integer(2), &integer(3), &integer(4), &integer(5), &integer(6), &integer(7)]);
}

#[test]
fn lists_nest() {
    let e = parse_text("(a [1 {\"k\" 2}] b)").unwrap();
    let outer = items(&e);
    assert_eq!(outer.len(), 3);
    assert_eq!(outer[0].expr, id("a"));
    assert_eq!(outer[2].expr, id("b"));
    let array = items(&outer[1]);
    assert_eq!(outer[1].pos.pos, 3);
    assert_eq!(array.len(), 2);
    assert_eq!(array[0].expr, integer(1));
    let object = items(&array[1]);
    assert_eq!(array[1].pos.pos, 6);
    assert_eq!(object.len(), 2);
    assert_eq!(object[0].expr, GeneralExprBase::String("k".to_string()));
    assert_eq!(object[1].expr, integer(2));
    assert_eq!(depth(&e), 3);
}

#[test]
fn balanced_nesting_gives_a_tree_of_the_same_depth() {
    let openers = ['(', '[', '{'];
    let closers = [')', ']', '}'];
    let literals = ["1", "-0x1F", "'s'", "\"t\\n\"", "name", "2.5", "0b11"];
    let mut seed: u64 = 0x2545F4914F6CDD1D;
    let mut next = move |n: u64| {
        seed ^= seed << 13;
        seed ^= seed >> 7;
        seed ^= seed << 17;
        seed % n
    };
    for _ in 0..200 {
        let mut text = String::new();
        let mut open: Vec<usize> = vec![next(3) as usize];
        text.push(openers[open[0]]);
        let mut deepest = 1;
        let steps = 5 + next(40);
        for _ in 0..steps {
            match next(4) {
                0 if open.len() < 12 => {
                    let k = next(3) as usize;
                    open.push(k);
                    text.push(' ');
                    text.push(openers[k]);
                    deepest = deepest.max(open.len());
                }
                1 if open.len() > 1 => {
                    text.push(closers[open.pop().unwrap()]);
                }
                2 => {
                    text.push_str(if next(2) == 0 { "\n" } else { ", " });
                }
                _ => {
                    text.push(' ');
                    text.push_str(literals[next(literals.len() as u64) as usize]);
                }
            }
        }
        while let Some(k) = open.pop() {
            text.push(closers[k]);
        }
        let e = parse_text(&text).unwrap();
        assert_eq!(depth(&e), deepest, "{:?}", text);
    }
}

#[test]
fn deep_nesting_does_not_overflow_the_stack() {
    let n = 100_000;
    let mut text = String::new();
    for _ in 0..n {
        text.push('[');
    }
    for _ in 0..n {
        text.push(']');
    }
    let e = parse_text(&text).unwrap();
    let mut level = 0;
    let mut at = &e;
    loop {
        let inner = items(at);
        level += 1;
        if inner.is_empty() {
            break;
        }
        at = &inner[0];
    }
    assert_eq!(level, n);
    std::mem::forget(e);
}

#[test]
fn identifiers_run_up_to_the_next_byte_that_cannot_be_part_of_one() {
    let found = top_level("abc d_e9 f.g한글(x)y;z 0xg").unwrap();
    let names: Vec<&GeneralExprBase> = found.iter().map(|e| &e.expr).collect();
    assert_eq!(names.len(), 6);
    assert_eq!(names[0], &id("abc"));
    assert_eq!(names[1], &id("d_e9"));
    assert_eq!(names[2], &id("f.g한글"));
    assert_eq!(items(&found[3])[0].expr, id("x"));
    assert_eq!(names[4], &id("y;z"));
    assert_eq!(names[5], &id("0xg"));
}

#[test]
fn a_number_ends_where_an_identifier_begins() {
    let found = top_level("12abc").unwrap();
    assert_eq!(found.len(), 2);
    assert_eq!(found[0].expr, integer(12));
    assert_eq!(found[1].expr, id("abc"));
    assert_eq!(found[1].pos.pos, 2);
}

#[test]
fn parse_id_reads_one_identifier() {
    let classes = Classifier::new();
    let mut s = ParseState::new("t".to_string(), "ab-c");
    let e = parse_id(&mut s, &classes).unwrap();
    assert_eq!(e.expr, id("ab"));
    assert_eq!(e.pos.pos, 0);
    assert_eq!(s.pos.pos, 2);
    assert!(parse_id(&mut s, &classes).is_none());
    assert_eq!(s.pos.pos, 2);
    s.skip(2);
    assert!(parse_id(&mut s, &classes).is_none());
}

#[test]
fn read_token_takes_one_token_into_the_stack() {
    let classes = Classifier::new();
    let mut stack = FrameStack::new();
    let mut s = ParseState::new("t".to_string(), "(7]");
    read_token(&mut s, &classes, &mut stack).unwrap();
    assert_eq!(stack.depth(), 1);
    assert_eq!(s.pos.pos, 1);
    read_token(&mut s, &classes, &mut stack).unwrap();
    assert_eq!(stack.frames[0].pending.len(), 1);
    assert_eq!(s.pos.pos, 2);
    let e = read_token(&mut s, &classes, &mut stack).unwrap_err();
    assert_eq!(e.kind, ParseErrorKind::UnexpectedClosingDelimiter);
    assert_eq!(stack.depth(), 1);
    assert_eq!(s.pos.pos, 2);
}

#[test]
fn top_level_may_hold_any_number_of_expressions() {
    assert_eq!(top_level("").unwrap().len(), 0);
    assert_eq!(top_level("1").unwrap().len(), 1);
    let found = top_level("1 (2 3)\n'four'").unwrap();
    assert_eq!(found.len(), 3);
    assert_eq!(found[0].expr, integer(1));
    assert_eq!(items(&found[1]).len(), 2);
    assert_eq!(found[2].expr, GeneralExprBase::String("four".to_string()));
    assert_eq!(found[2].pos, Pos { pos: 8, line: 2, col: 1 });
}

#[test]
fn positions_count_lines() {
    let e = parse_text("// head\n(\n  one\n  [two]\n)\n").unwrap();
    assert_eq!(e.pos, Pos { pos: 8, line: 2, col: 1 });
    let inner = items(&e);
    assert_eq!(inner[0].pos, Pos { pos: 12, line: 3, col: 3 });
    assert_eq!(inner[1].pos, Pos { pos: 18, line: 4, col: 3 });
    assert_eq!(items(&inner[1])[0].pos, Pos { pos: 19, line: 4, col: 4 });
}

#[test]
fn error_carries_the_name_of_the_text() {
    let e = parse("dir/한글.intj".to_string(), "\n\n  #".to_string()).unwrap_err();
    assert_eq!(e.name, "dir/한글.intj");
    assert_eq!(e.to_string(), "dir/한글.intj:3:3: Unexpected token");
}

#[test]
fn expressions_can_be_cloned() {
    let e = parse_text("(a [1 2.5 'x'] {})").unwrap();
    let copy = e.clone();
    assert_eq!(copy, e);
    assert_eq!(copy.expr.clone(), e.expr);
}
