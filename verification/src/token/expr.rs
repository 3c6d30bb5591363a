//! Expressions: what the parser produces.

use super::charset::{
    BRACE_CLOSE, BRACE_OPEN, BRACKET_CLOSE, BRACKET_OPEN, PAREN_CLOSE, PAREN_OPEN,
};
use super::file::Pos;
use vstd::prelude::*;

verus! {

/// The kind of a list: which pair of delimiters encloses it.
#[derive(Debug, Clone, Copy, PartialEq, Eq, Structural)]
pub enum ExprListType {
    /// Code, between `(` and `)`.
    Code,
    /// An array, between `[` and `]`.
    Array,
    /// An object, between `{` and `}`.
    Object,
}

impl ExprListType {
    /// The byte that opens a list of this kind.
    pub open spec fn opener(self) -> u8 {
        match self {
            ExprListType::Code => PAREN_OPEN,
            ExprListType::Array => BRACKET_OPEN,
            ExprListType::Object => BRACE_OPEN,
        }
    }

    /// The byte that closes a list of this kind.
    pub open spec fn closer(self) -> u8 {
        match self {
            ExprListType::Code => PAREN_CLOSE,
            ExprListType::Array => BRACKET_CLOSE,
            ExprListType::Object => BRACE_CLOSE,
        }
    }

    /// The kind of list that the byte `b` opens, if it opens one.
    pub open spec fn opened_by(b: u8) -> Option<ExprListType> {
        if b == PAREN_OPEN {
            Some(ExprListType::Code)
        } else if b == BRACKET_OPEN {
            Some(ExprListType::Array)
        } else if b == BRACE_OPEN {
            Some(ExprListType::Object)
        } else {
            None
        }
    }

    /// The kind of list that the byte `b` closes, if it closes one.
    pub open spec fn closed_by(b: u8) -> Option<ExprListType> {
        if b == PAREN_CLOSE {
            Some(ExprListType::Code)
        } else if b == BRACKET_CLOSE {
            Some(ExprListType::Array)
        } else if b == BRACE_CLOSE {
            Some(ExprListType::Object)
        } else {
            None
        }
    }

    /// The byte that opens a list of this kind.
    pub fn open_byte(self) -> (b: u8)
        ensures
            b == self.opener(),
    {
        match self {
            ExprListType::Code => PAREN_OPEN,
            ExprListType::Array => BRACKET_OPEN,
            ExprListType::Object => BRACE_OPEN,
        }
    }

    /// The byte that closes a list of this kind.
    pub fn close_byte(self) -> (b: u8)
        ensures
            b == self.closer(),
    {
        match self {
            ExprListType::Code => PAREN_CLOSE,
            ExprListType::Array => BRACKET_CLOSE,
            ExprListType::Object => BRACE_CLOSE,
        }
    }

    /// The kind of list that the byte `b` opens, if it opens one.
    pub fn from_opener(b: u8) -> (kind: Option<ExprListType>)
        ensures
            kind == Self::opened_by(b),
    {
        if b == PAREN_OPEN {
            Some(ExprListType::Code)
        } else if b == BRACKET_OPEN {
            Some(ExprListType::Array)
        } else if b == BRACE_OPEN {
            Some(ExprListType::Object)
        } else {
            None
        }
    }

    /// The kind of list that the byte `b` closes, if it closes one.
    pub fn from_closer(b: u8) -> (kind: Option<ExprListType>)
        ensures
            kind == Self::closed_by(b),
    {
        if b == PAREN_CLOSE {
            Some(ExprListType::Code)
        } else if b == BRACKET_CLOSE {
            Some(ExprListType::Array)
        } else if b == BRACE_CLOSE {
            Some(ExprListType::Object)
        } else {
            None
        }
    }
}

/// A number with a fractional part, as it was written: `whole` before the point and the digits
/// `frac` after it, in the given base, negated where `negative`. Its value is
/// `whole + frac[0] / base + frac[1] / base^2 + ...`, with the sign applied to the sum.
#[derive(Debug, PartialEq, Eq)]
pub struct FloatParts {
    pub negative: bool,
    pub whole: i64,
    pub base: u8,
    pub frac: Vec<u8>,
}

/// What a `FloatParts` holds.
pub struct FloatView {
    pub negative: bool,
    pub whole: i64,
    pub base: u8,
    pub frac: Seq<u8>,
}

impl View for FloatParts {
    type V = FloatView;

    open spec fn view(&self) -> FloatView {
        FloatView { negative: self.negative, whole: self.whole, base: self.base, frac: self.frac@ }
    }
}

/// The forms of an expression.
#[derive(Debug, PartialEq, Eq)]
pub enum GeneralExprBase {
    /// Identifier
    Id(String),
    /// Symbol literal
    Sym(String),
    /// Integer literal
    Int(i64),
    /// Number with a fractional part
    Float(FloatParts),
    /// String literal, unescaped
    String(String),
    /// Import: target name, file name
    Import(String, String),
    /// Assignment: name, docstring
    Assign(String, String),
    /// Expression list
    List(ExprListType, Vec<Expr>),
}

pub type ExprBase = GeneralExprBase;

/// An expression and the position of its first byte.
#[derive(Debug, PartialEq, Eq)]
pub struct Expr {
    pub pos: Pos,
    pub expr: ExprBase,
}

/// What an expression is, apart from its position.
pub enum ExprKind {
    Id(Seq<char>),
    Sym(Seq<char>),
    Int(i64),
    Float(FloatView),
    String(Seq<char>),
    Import(Seq<char>, Seq<char>),
    Assign(Seq<char>, Seq<char>),
    List(ExprListType, Seq<ExprView>),
}

/// What an `Expr` holds: its position and what it is.
pub struct ExprView {
    pub pos: Pos,
    pub kind: ExprKind,
}

impl View for GeneralExprBase {
    type V = ExprKind;

    open spec fn view(&self) -> ExprKind
        decreases self,
    {
        match self {
            GeneralExprBase::Id(name) => ExprKind::Id(name@),
            GeneralExprBase::Sym(name) => ExprKind::Sym(name@),
            GeneralExprBase::Int(value) => ExprKind::Int(*value),
            GeneralExprBase::Float(parts) => ExprKind::Float(parts@),
            GeneralExprBase::String(value) => ExprKind::String(value@),
            GeneralExprBase::Import(target, file) => ExprKind::Import(target@, file@),
            GeneralExprBase::Assign(name, doc) => ExprKind::Assign(name@, doc@),
            GeneralExprBase::List(kind, items) => ExprKind::List(*kind, views(items@)),
        }
    }
}

impl View for Expr {
    type V = ExprView;

    open spec fn view(&self) -> ExprView
        decreases self,
    {
        ExprView { pos: self.pos, kind: self.expr@ }
    }
}

impl Clone for FloatParts {
    fn clone(&self) -> (copy: Self)
        ensures
            copy@ == self@,
    {
        let frac = self.frac.clone();
        assert(frac@ =~= self.frac@);
        FloatParts { negative: self.negative, whole: self.whole, base: self.base, frac }
    }
}

impl Clone for GeneralExprBase {
    fn clone(&self) -> (copy: Self)
        ensures
            copy@ == self@,
        decreases self,
    {
        match self {
            GeneralExprBase::Id(name) => GeneralExprBase::Id(name.clone()),
            GeneralExprBase::Sym(name) => GeneralExprBase::Sym(name.clone()),
            GeneralExprBase::Int(value) => GeneralExprBase::Int(*value),
            GeneralExprBase::Float(parts) => GeneralExprBase::Float(parts.clone()),
            GeneralExprBase::String(value) => GeneralExprBase::String(value.clone()),
            GeneralExprBase::Import(target, file) => GeneralExprBase::Import(
                target.clone(),
                file.clone(),
            ),
            GeneralExprBase::Assign(name, doc) => GeneralExprBase::Assign(
                name.clone(),
                doc.clone(),
            ),
            GeneralExprBase::List(kind, items) => {
                let mut copies: Vec<Expr> = Vec::new();
                let mut i: usize = 0;
                assert(decreases_to!(self => items));
                while i < items.len()
                    invariant
                        i <= items.len(),
                        copies@.len() == i,
                        forall|k: int| 0 <= k < i ==> copies@[k]@ == items@[k]@,
                        decreases_to!(self => items),
                    decreases items.len() - i,
                {
                    proof {
                        vstd::std_specs::vec::axiom_vec_index_decreases(*items, i as int);
                    }
                    copies.push(items[i].clone());
                    i += 1;
                }
                assert(views(copies@) =~= views(items@));
                GeneralExprBase::List(*kind, copies)
            },
        }
    }
}

impl Clone for Expr {
    fn clone(&self) -> (copy: Self)
        ensures
            copy@ == self@,
        decreases self,
    {
        Expr { pos: self.pos, expr: self.expr.clone() }
    }
}

/// The views of the expressions in `items`, in order.
pub open spec fn views(items: Seq<Expr>) -> Seq<ExprView>
    decreases items,
{
    Seq::new(
        items.len(),
        |i: int|
            if 0 <= i < items.len() {
                items[i]@
            } else {
                arbitrary()
            },
    )
}

/// The views of a sequence with one more expression are the views of the sequence with one
/// more view.
pub proof fn lemma_views_push(items: Seq<Expr>, e: Expr)
    ensures
        views(items.push(e)) == views(items).push(e@),
{
    assert(views(items.push(e)) =~= views(items).push(e@));
}

/// The views of two sequences, one after the other, are the views of the one and then those
/// of the other.
pub proof fn lemma_views_concat(a: Seq<Expr>, b: Seq<Expr>)
    ensures
        views(a + b) == views(a) + views(b),
{
    assert(views(a + b) =~= views(a) + views(b));
}

impl ExprView {
    /// How deep lists are nested in this expression: 0 for anything but a list, and for a list
    /// one more than the deepest of its items.
    pub open spec fn depth(self) -> nat
        decreases self,
    {
        match self.kind {
            ExprKind::List(_, items) => 1 + deepest(items),
            _ => 0,
        }
    }
}

/// The greatest depth among `items`, 0 where there are none.
pub open spec fn deepest(items: Seq<ExprView>) -> nat
    decreases items,
{
    if items.len() == 0 {
        0
    } else {
        let head = items[0].depth();
        let tail = deepest(items.skip(1));
        if head >= tail {
            head
        } else {
            tail
        }
    }
}

} // verus!
