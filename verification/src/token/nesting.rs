//! Balanced nesting: a text whose tokens are those of an expression parses to that expression,
//! and the expression is as deep as its delimiters are nested.

use super::expr::{deepest, ExprKind, ExprView};
use super::grammar::{
    failure_at, lemma_skip_from, lemma_token_at, parse_spec, read_from, skip_from, token_at,
    unclosed, Failure, Lexed, Nest, OpenList, Token,
};
use super::parser::ParseErrorKind;
use vstd::prelude::*;

verus! {

/// The tokens that spell the expression `e`: itself where it is no list, and for a list its
/// opening delimiter, the tokens of its items, and its closing delimiter.
pub open spec fn tokens_of(e: ExprView) -> Seq<Token>
    decreases e,
{
    match e.kind {
        ExprKind::List(kind, items) => seq![Token::Open(kind, e.pos)] + tokens_of_all(items)
            + seq![Token::Close(kind)],
        _ => seq![Token::Atom(e)],
    }
}

/// The tokens that spell the expressions `items`, one after the other.
pub open spec fn tokens_of_all(items: Seq<ExprView>) -> Seq<Token>
    decreases items,
{
    if items.len() == 0 {
        Seq::empty()
    } else {
        tokens_of(items[0]) + tokens_of_all(items.skip(1))
    }
}

/// The tokens of `bytes` from offset `i` to the end, or the first failure to read one.
pub open spec fn tokens_from(bytes: Seq<u8>, i: int) -> Result<Seq<Token>, Failure>
    decreases bytes.len() - i,
    when i >= 0
    via tokens_from_decreases
{
    match skip_from(bytes, i, false, Seq::empty()) {
        None => Err(failure_at(bytes, ParseErrorKind::UnclosedComment, bytes.len() as int)),
        Some(skipped) => if skipped.end >= bytes.len() {
            Ok(Seq::empty())
        } else {
            match token_at(bytes, skipped.end) {
                Lexed::Failure { kind, at } => Err(failure_at(bytes, kind, at)),
                Lexed::Token { token, end } => match tokens_from(bytes, end) {
                    Ok(rest) => Ok(seq![token] + rest),
                    Err(failure) => Err(failure),
                },
            }
        },
    }
}

#[via_fn]
proof fn tokens_from_decreases(bytes: Seq<u8>, i: int) {
    if i <= bytes.len() {
        lemma_skip_from(bytes, i, false, Seq::empty());
        match skip_from(bytes, i, false, Seq::empty()) {
            Some(skipped) => {
                if skipped.end < bytes.len() {
                    lemma_token_at(bytes, skipped.end);
                }
            },
            None => {},
        }
    }
}

/// The nest after the given tokens, taken one after the other. `None` where one of them closes
/// nothing.
pub open spec fn fed(nest: Nest, tokens: Seq<Token>) -> Option<Nest>
    decreases tokens.len(),
{
    if tokens.len() == 0 {
        Some(nest)
    } else {
        match nest.after(tokens[0]) {
            Some(next) => fed(next, tokens.skip(1)),
            None => None,
        }
    }
}

/// The nest with the expressions `items` added, one after the other.
pub open spec fn add_all(nest: Nest, items: Seq<ExprView>) -> Nest
    decreases items.len(),
{
    if items.len() == 0 {
        nest
    } else {
        add_all(nest.add(items[0]), items.skip(1))
    }
}

/// What the end of the text makes of a nest: the expressions at top level, or a failure where
/// a list is still open.
pub open spec fn finished(nest: Nest) -> Result<Seq<ExprView>, Failure> {
    if nest.open.len() > 0 {
        Err(unclosed(nest))
    } else {
        Ok(nest.root)
    }
}

/// By how much a token changes the number of open lists.
pub open spec fn rise(token: Token) -> int {
    match token {
        Token::Open(_, _) => 1,
        Token::Close(_) => -1,
        Token::Atom(_) => 0,
    }
}

/// By how much the tokens change the number of open lists, all together.
pub open spec fn net_rise(tokens: Seq<Token>) -> int
    decreases tokens.len(),
{
    if tokens.len() == 0 {
        0
    } else {
        rise(tokens[0]) + net_rise(tokens.skip(1))
    }
}

/// The greatest number of open lists that is reached before, between or after the tokens,
/// where `level` lists are open before the first.
pub open spec fn peak(tokens: Seq<Token>, level: int) -> int
    decreases tokens.len(),
{
    if tokens.len() == 0 {
        level
    } else {
        let rest = peak(tokens.skip(1), level + rise(tokens[0]));
        if rest >= level {
            rest
        } else {
            level
        }
    }
}

/// Taking tokens in two parts gives what taking them at once gives.
pub proof fn lemma_fed_concat(nest: Nest, a: Seq<Token>, b: Seq<Token>)
    ensures
        fed(nest, a + b) == match fed(nest, a) {
            Some(next) => fed(next, b),
            None => None,
        },
    decreases a.len(),
{
    if a.len() == 0 {
        assert(a + b =~= b);
    } else {
        assert((a + b)[0] == a[0]);
        assert((a + b).skip(1) =~= a.skip(1) + b);
        match nest.after(a[0]) {
            Some(next) => {
                lemma_fed_concat(next, a.skip(1), b);
            },
            None => {},
        }
    }
}

/// Expressions added while a list is open go into the innermost open list, behind what it
/// holds.
pub proof fn lemma_add_all_open(nest: Nest, items: Seq<ExprView>)
    requires
        nest.open.len() > 0,
    ensures
        add_all(nest, items) == (Nest {
            root: nest.root,
            open: nest.open.drop_last().push(
                OpenList {
                    kind: nest.open.last().kind,
                    pos: nest.open.last().pos,
                    items: nest.open.last().items + items,
                },
            ),
        }),
    decreases items.len(),
{
    let top = nest.open.last();
    if items.len() == 0 {
        assert(top.items + items =~= top.items);
        assert(nest.open.drop_last().push(top) =~= nest.open);
    } else {
        let next = nest.add(items[0]);
        lemma_add_all_open(next, items.skip(1));
        assert(next.open.drop_last() =~= nest.open.drop_last());
        assert(top.items.push(items[0]) + items.skip(1) =~= top.items + items);
    }
}

/// The tokens of an expression build that expression: taking them adds it to the nest,
/// whatever the nest holds.
pub proof fn lemma_fed_expr(nest: Nest, e: ExprView)
    ensures
        fed(nest, tokens_of(e)) == Some(nest.add(e)),
    decreases e, 1int,
{
    match e.kind {
        ExprKind::List(kind, items) => {
            let open = seq![Token::Open(kind, e.pos)];
            let close = seq![Token::Close(kind)];
            let inner = tokens_of_all(items);
            let opened = nest.opened(kind, e.pos);
            assert(open.skip(1) =~= Seq::<Token>::empty());
            assert(fed(opened, open.skip(1)) == Some(opened));
            assert(fed(nest, open) == Some(opened));
            lemma_fed_concat(nest, open, inner + close);
            assert(open + (inner + close) =~= tokens_of(e));
            lemma_fed_concat(opened, inner, close);
            lemma_fed_items(opened, items);
            let filled = add_all(opened, items);
            lemma_add_all_open(opened, items);
            assert(opened.open.drop_last() =~= nest.open);
            assert(Seq::<ExprView>::empty() + items =~= items);
            assert(filled.open.drop_last() =~= nest.open);
            assert(filled.closed(kind) == Some(nest.add(e)));
            assert(close.skip(1) =~= Seq::<Token>::empty());
            assert(fed(nest.add(e), close.skip(1)) == Some(nest.add(e)));
            assert(fed(filled, close) == Some(nest.add(e)));
        },
        _ => {
            let tokens = seq![Token::Atom(e)];
            assert(tokens.skip(1) =~= Seq::<Token>::empty());
            assert(fed(nest.add(e), tokens.skip(1)) == Some(nest.add(e)));
        },
    }
}

/// The tokens of several expressions build those expressions, in order.
pub proof fn lemma_fed_items(nest: Nest, items: Seq<ExprView>)
    ensures
        fed(nest, tokens_of_all(items)) == Some(add_all(nest, items)),
    decreases items, 0int,
{
    if items.len() > 0 {
        lemma_fed_expr(nest, items[0]);
        lemma_fed_items(nest.add(items[0]), items.skip(1));
        lemma_fed_concat(nest, tokens_of(items[0]), tokens_of_all(items.skip(1)));
    }
}

/// Reading a text whose tokens can all be read gives what the end of the text makes of the
/// nest that the tokens build.
pub proof fn lemma_read_tokens(bytes: Seq<u8>, i: int, nest: Nest)
    requires
        0 <= i <= bytes.len(),
        tokens_from(bytes, i) is Ok,
        fed(nest, tokens_from(bytes, i)->Ok_0) is Some,
    ensures
        read_from(bytes, i, nest) == finished(fed(nest, tokens_from(bytes, i)->Ok_0)->0),
    decreases bytes.len() - i,
{
    lemma_skip_from(bytes, i, false, Seq::empty());
    let skipped = skip_from(bytes, i, false, Seq::empty())->0;
    if skipped.end < bytes.len() {
        lemma_token_at(bytes, skipped.end);
        match token_at(bytes, skipped.end) {
            Lexed::Token { token, end } => {
                let rest = tokens_from(bytes, end)->Ok_0;
                let tokens = seq![token] + rest;
                assert(tokens[0] == token);
                assert(tokens.skip(1) =~= rest);
                lemma_read_tokens(bytes, end, nest.after(token)->0);
            },
            Lexed::Failure { .. } => {},
        }
    }
}

/// The rise and the peak of tokens in two parts.
pub proof fn lemma_peak_concat(a: Seq<Token>, b: Seq<Token>, level: int)
    ensures
        net_rise(a + b) == net_rise(a) + net_rise(b),
        peak(a + b, level) == if peak(a, level) >= peak(b, level + net_rise(a)) {
            peak(a, level)
        } else {
            peak(b, level + net_rise(a))
        },
        peak(a, level) >= level,
    decreases a.len(),
{
    if a.len() == 0 {
        assert(a + b =~= b);
        lemma_peak_floor(b, level);
    } else {
        assert((a + b)[0] == a[0]);
        assert((a + b).skip(1) =~= a.skip(1) + b);
        lemma_peak_concat(a.skip(1), b, level + rise(a[0]));
    }
}

/// The peak is never below the level before the first token.
pub proof fn lemma_peak_floor(tokens: Seq<Token>, level: int)
    ensures
        peak(tokens, level) >= level,
{
}

/// The tokens of an expression leave as many lists open as there were, and on the way reach
/// as many more as the expression is deep.
pub proof fn lemma_peak_expr(e: ExprView, level: int)
    ensures
        net_rise(tokens_of(e)) == 0,
        peak(tokens_of(e), level) == level + e.depth(),
    decreases e, 1int,
{
    match e.kind {
        ExprKind::List(kind, items) => {
            let open = seq![Token::Open(kind, e.pos)];
            let close = seq![Token::Close(kind)];
            let inner = tokens_of_all(items);
            lemma_peak_items(items, level + 1);
            assert(open.skip(1) =~= Seq::<Token>::empty());
            assert(close.skip(1) =~= Seq::<Token>::empty());
            assert(net_rise(open.skip(1)) == 0);
            assert(net_rise(close.skip(1)) == 0);
            assert(net_rise(open) == 1);
            assert(net_rise(close) == -1);
            assert(peak(open.skip(1), level + 1) == level + 1);
            assert(peak(open, level) == level + 1);
            assert(peak(close.skip(1), level) == level);
            assert(peak(close, level + 1) == level + 1);
            lemma_peak_concat(inner, close, level + 1);
            lemma_peak_concat(open, inner + close, level);
            assert(open + (inner + close) =~= tokens_of(e));
        },
        _ => {
            let tokens = seq![Token::Atom(e)];
            assert(tokens.skip(1) =~= Seq::<Token>::empty());
            assert(net_rise(tokens.skip(1)) == 0);
            assert(peak(tokens.skip(1), level) == level);
        },
    }
}

/// The tokens of several expressions leave as many lists open as there were, and on the way
/// reach as many more as the deepest of the expressions is deep.
pub proof fn lemma_peak_items(items: Seq<ExprView>, level: int)
    ensures
        net_rise(tokens_of_all(items)) == 0,
        peak(tokens_of_all(items), level) == level + deepest(items),
    decreases items, 0int,
{
    if items.len() > 0 {
        lemma_peak_expr(items[0], level);
        lemma_peak_items(items.skip(1), level);
        lemma_peak_concat(tokens_of(items[0]), tokens_of_all(items.skip(1)), level);
    }
}

/// Balanced nesting. Where the tokens of a text are those of one expression, that is literals
/// and identifiers between delimiters that match in pairs, parsing the text gives that
/// expression, and the expression is as deep as the delimiters of the text are nested.
pub proof fn lemma_balanced_nesting(bytes: Seq<u8>, e: ExprView)
    requires
        tokens_from(bytes, 0) == Ok::<Seq<Token>, Failure>(tokens_of(e)),
    ensures
        parse_spec(bytes) == Ok::<ExprView, Failure>(e),
        peak(tokens_from(bytes, 0)->Ok_0, 0) == e.depth(),
{
    lemma_fed_expr(Nest::empty(), e);
    lemma_read_tokens(bytes, 0, Nest::empty());
    lemma_peak_expr(e, 0);
    assert(Nest::empty().add(e).root =~= seq![e]);
}

/// Balanced nesting for several expressions at top level: where the tokens of a text from
/// some offset on are those of the expressions `items`, reading from there gives `items`, and
/// the deepest of them is as deep as the delimiters are nested.
pub proof fn lemma_balanced_items(bytes: Seq<u8>, i: int, items: Seq<ExprView>)
    requires
        0 <= i <= bytes.len(),
        tokens_from(bytes, i) == Ok::<Seq<Token>, Failure>(tokens_of_all(items)),
    ensures
        read_from(bytes, i, Nest::empty()) == Ok::<Seq<ExprView>, Failure>(items),
        peak(tokens_from(bytes, i)->Ok_0, 0) == deepest(items),
{
    lemma_fed_items(Nest::empty(), items);
    lemma_read_tokens(bytes, i, Nest::empty());
    lemma_peak_items(items, 0);
    lemma_add_all_root(Nest::empty(), items);
    assert(Seq::<ExprView>::empty() + items =~= items);
}

/// Expressions added while no list is open go to the top level, behind what is there.
pub proof fn lemma_add_all_root(nest: Nest, items: Seq<ExprView>)
    requires
        nest.open.len() == 0,
    ensures
        add_all(nest, items) == (Nest { root: nest.root + items, open: nest.open }),
    decreases items.len(),
{
    if items.len() == 0 {
        assert(nest.root + items =~= nest.root);
    } else {
        lemma_add_all_root(nest.add(items[0]), items.skip(1));
        assert(nest.root.push(items[0]) + items.skip(1) =~= nest.root + items);
    }
}

} // verus!
