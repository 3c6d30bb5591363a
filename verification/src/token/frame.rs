//! The lists that are open while a text is read, and the expressions gathered in each.
//!
//! Every list that has been opened and not yet closed has a frame. A frame gathers the
//! expressions read inside its list: first as pending, then, once a separator has been passed
//! or the list is closed, as completed. Both keep the order in which the expressions were
//! read, and the completed ones come before the pending ones.

use super::expr::{
    lemma_views_concat, lemma_views_push, views, Expr, ExprKind, ExprListType, ExprView,
    GeneralExprBase,
};
use super::file::Pos;
use super::grammar::{Nest, OpenList};
use vstd::prelude::*;

verus! {

/// An open list: its kind, where it was opened, and the expressions read inside it so far.
#[derive(Debug)]
pub struct ListFrame {
    pub kind: ExprListType,
    /// The position of the opening delimiter.
    pub pos: Pos,
    /// The expressions that a separator has committed.
    pub completed: Vec<Expr>,
    /// The expressions read since the last separator.
    pub pending: Vec<Expr>,
}

impl View for ListFrame {
    type V = OpenList;

    open spec fn view(&self) -> OpenList {
        OpenList {
            kind: self.kind,
            pos: self.pos,
            items: views(self.completed@) + views(self.pending@),
        }
    }
}

impl ListFrame {
    /// The frame of a list of the given kind, opened at `pos`, with nothing in it.
    pub fn new(kind: ExprListType, pos: Pos) -> (frame: ListFrame)
        ensures
            frame.kind == kind,
            frame.pos == pos,
            frame.completed@.len() == 0,
            frame.pending@.len() == 0,
            frame@ == (OpenList { kind, pos, items: Seq::empty() }),
    {
        let frame = ListFrame { kind, pos, completed: Vec::new(), pending: Vec::new() };
        assert(frame@.items =~= Seq::<ExprView>::empty());
        frame
    }

    /// Commits the pending expressions: they move behind the completed ones, in their order.
    pub fn flush(&mut self)
        ensures
            final(self).completed@ == old(self).completed@ + old(self).pending@,
            final(self).pending@.len() == 0,
            final(self).kind == old(self).kind,
            final(self).pos == old(self).pos,
            final(self)@ == old(self)@,
    {
        proof {
            lemma_views_concat(self.completed@, self.pending@);
        }
        self.completed.append(&mut self.pending);
        assert(self@.items =~= old(self)@.items);
    }

    /// The list that this frame has gathered, as one expression at the place where the list was
    /// opened.
    pub fn into_list(self) -> (list: Expr)
        ensures
            list@ == (ExprView { pos: self.pos, kind: ExprKind::List(self.kind, self@.items) }),
    {
        let mut frame = self;
        frame.flush();
        assert(views(frame.completed@) =~= self@.items);
        Expr { pos: frame.pos, expr: GeneralExprBase::List(frame.kind, frame.completed) }
    }
}

/// The frames of the lists that are open, the outermost first, and the expressions gathered at
/// top level.
#[derive(Debug)]
pub struct FrameStack {
    /// The expressions at top level that a separator has committed.
    pub completed: Vec<Expr>,
    /// The expressions read at top level since the last separator.
    pub pending: Vec<Expr>,
    /// The open lists, the outermost first.
    pub frames: Vec<ListFrame>,
}

impl View for FrameStack {
    type V = Nest;

    open spec fn view(&self) -> Nest {
        Nest {
            root: views(self.completed@) + views(self.pending@),
            open: Seq::new(self.frames@.len(), |i: int| self.frames@[i]@),
        }
    }
}

impl FrameStack {
    /// The completed expressions at the given level: level 0 is the top level, and level `k` is
    /// the `k`-th open list, counted from the outermost.
    pub open spec fn completed_at(&self, level: int) -> Seq<ExprView> {
        if level == 0 {
            views(self.completed@)
        } else {
            views(self.frames@[level - 1].completed@)
        }
    }

    /// The pending expressions at the given level.
    pub open spec fn pending_at(&self, level: int) -> Seq<ExprView> {
        if level == 0 {
            views(self.pending@)
        } else {
            views(self.frames@[level - 1].pending@)
        }
    }

    /// Whether the first `levels` levels of this stack are those of `other`: the same lists
    /// are open there, with the same completed and the same pending expressions.
    pub open spec fn agrees_below(&self, other: &FrameStack, levels: int) -> bool {
        forall|level: int|
            #![trigger self.completed_at(level)]
            #![trigger self.pending_at(level)]
            0 <= level < levels ==> {
                &&& self.completed_at(level) == other.completed_at(level)
                &&& self.pending_at(level) == other.pending_at(level)
                &&& level > 0 ==> self.frames@[level - 1].kind == other.frames@[level - 1].kind
                    && self.frames@[level - 1].pos == other.frames@[level - 1].pos
            }
    }

    /// No list open and nothing read.
    pub fn new() -> (stack: FrameStack)
        ensures
            stack@ == Nest::empty(),
            stack.completed@.len() == 0,
            stack.pending@.len() == 0,
            stack.frames@.len() == 0,
    {
        let stack = FrameStack { completed: Vec::new(), pending: Vec::new(), frames: Vec::new() };
        assert(stack@.root =~= Seq::<ExprView>::empty());
        assert(stack@.open =~= Seq::<OpenList>::empty());
        stack
    }

    /// How many lists are open.
    pub fn depth(&self) -> (n: usize)
        ensures
            n == self@.open.len(),
    {
        self.frames.len()
    }

    /// Adds an expression to the innermost open list, or at top level where none is open. It
    /// is pending until the next flush.
    pub fn push(&mut self, e: Expr)
        ensures
            final(self)@ == old(self)@.add(e@),
            final(self).frames@.len() == old(self).frames@.len(),
            final(self).agrees_below(old(self), old(self).frames@.len() as int),
            final(self).completed_at(old(self).frames@.len() as int) == old(self).completed_at(
                old(self).frames@.len() as int,
            ),
            final(self).pending_at(old(self).frames@.len() as int) == old(self).pending_at(
                old(self).frames@.len() as int,
            ).push(e@),
            old(self).frames@.len() > 0 ==> final(self).frames@.last().kind == old(
                self,
            ).frames@.last().kind && final(self).frames@.last().pos == old(self).frames@.last().pos,
    {
        let n = self.frames.len();
        if n == 0 {
            proof {
                lemma_views_push(self.pending@, e);
            }
            self.pending.push(e);
            assert(self@.root =~= old(self)@.root.push(e@));
            assert(self@.open =~= old(self)@.open);
        } else {
            proof {
                lemma_views_push(self.frames@[n - 1].pending@, e);
            }
            self.frames[n - 1].pending.push(e);
            assert(self.frames@[n - 1]@.items =~= old(self).frames@[n - 1]@.items.push(e@));
            assert(self@.open =~= old(self)@.add(e@).open);
        }
    }

    /// Commits the pending expressions of the innermost open list, or those at top level where
    /// none is open: a separator has been passed.
    pub fn flush(&mut self)
        ensures
            final(self)@ == old(self)@,
            final(self).frames@.len() == old(self).frames@.len(),
            final(self).agrees_below(old(self), old(self).frames@.len() as int),
            final(self).completed_at(old(self).frames@.len() as int) == old(self).completed_at(
                old(self).frames@.len() as int,
            ) + old(self).pending_at(old(self).frames@.len() as int),
            final(self).pending_at(old(self).frames@.len() as int).len() == 0,
            old(self).frames@.len() > 0 ==> final(self).frames@.last().kind == old(
                self,
            ).frames@.last().kind && final(self).frames@.last().pos == old(self).frames@.last().pos,
    {
        let n = self.frames.len();
        if n == 0 {
            proof {
                lemma_views_concat(self.completed@, self.pending@);
            }
            self.completed.append(&mut self.pending);
            assert(self@.root =~= old(self)@.root);
            assert(self@.open =~= old(self)@.open);
        } else {
            self.frames[n - 1].flush();
            assert(self@.open =~= old(self)@.open);
        }
    }

    /// Opens a list of the given kind at `pos`: its frame becomes the innermost.
    pub fn open(&mut self, kind: ExprListType, pos: Pos)
        ensures
            final(self)@ == old(self)@.opened(kind, pos),
            final(self).frames@.len() == old(self).frames@.len() + 1,
            final(self).agrees_below(old(self), old(self).frames@.len() as int + 1),
            final(self).frames@.last().kind == kind,
            final(self).frames@.last().pos == pos,
            final(self).frames@.last().completed@.len() == 0,
            final(self).frames@.last().pending@.len() == 0,
    {
        self.frames.push(ListFrame::new(kind, pos));
        assert(self@.open =~= old(self)@.opened(kind, pos).open);
    }

    /// Closes the innermost open list, if it is of the given kind: the list becomes one
    /// expression, pending in the frame that encloses it. Where no list is open or the
    /// innermost is of another kind, nothing changes and the result is `false`.
    pub fn close(&mut self, kind: ExprListType) -> (closed: bool)
        ensures
            match old(self)@.closed(kind) {
                Some(nest) => closed && final(self)@ == nest,
                None => !closed && *final(self) == *old(self),
            },
            closed ==> {
                let outer = old(self).frames@.len() - 1;
                &&& final(self).frames@.len() == outer
                &&& final(self).agrees_below(old(self), outer)
                &&& final(self).completed_at(outer) == old(self).completed_at(outer)
                &&& final(self).pending_at(outer) == old(self).pending_at(outer).push(
                    ExprView {
                        pos: old(self).frames@.last().pos,
                        kind: ExprKind::List(kind, old(self)@.open.last().items),
                    },
                )
                &&& outer > 0 ==> final(self).frames@.last().kind == old(self).frames@[outer
                    - 1].kind && final(self).frames@.last().pos == old(self).frames@[outer - 1].pos
            },
    {
        let n = self.frames.len();
        if n == 0 || self.frames[n - 1].kind != kind {
            return false;
        }
        let frame = self.frames.pop().unwrap();
        assert(self@.open =~= old(self)@.open.drop_last());
        self.push(frame.into_list());
        true
    }

    /// The kind of the innermost open list and the position where it was opened, if a list is
    /// open.
    pub fn innermost(&self) -> (top: Option<(ExprListType, Pos)>)
        ensures
            match top {
                Some((kind, pos)) => self@.open.len() > 0 && self@.open.last().kind == kind
                    && self@.open.last().pos == pos,
                None => self@.open.len() == 0,
            },
    {
        let n = self.frames.len();
        if n == 0 {
            None
        } else {
            Some((self.frames[n - 1].kind, self.frames[n - 1].pos))
        }
    }

    /// The expressions at top level, in the order in which they were read. It is meant for the
    /// end of the text, when no list is open.
    pub fn finish(self) -> (items: Vec<Expr>)
        ensures
            views(items@) == self@.root,
    {
        let mut stack = self;
        proof {
            lemma_views_concat(stack.completed@, stack.pending@);
        }
        stack.completed.append(&mut stack.pending);
        stack.completed
    }
}

} // verus!
