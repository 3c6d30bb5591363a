//! Source files and positions inside them.
//!
//! A position is a byte offset together with the line and column of that byte, both counted
//! from 1. A newline byte ends its line: the byte after it is in column 1 of the next line.

use super::charset::NEWLINE;
use vstd::prelude::*;
use vstd::slice::axiom_spec_len;
use vstd::string::StringSliceAdditionalSpecFns;
use vstd::utf8::encode_utf8;

verus! {

/// A source file: its name and its text.
#[derive(Debug, Clone)]
pub struct File {
    pub name: String,
    pub contents: String,
}

/// Something that can load a file by its name, or say why it could not.
pub trait FileLoader {
    fn load_file(&mut self, name: &str) -> Result<File, String>;
}

/// A place in a source text.
#[derive(Debug, Clone, Copy, PartialEq, Eq, Structural)]
pub struct Pos {
    /// Offset in bytes from the start of the text.
    pub pos: usize,
    /// Line, counted from 1.
    pub line: usize,
    /// Column in bytes, counted from 1.
    pub col: usize,
}

/// `n + 1`, or `n` where that is the largest number there is.
pub open spec fn bump(n: usize) -> usize {
    if n < usize::MAX {
        (n + 1) as usize
    } else {
        n
    }
}

/// The position just after the byte `b`, which stands at `p`.
pub open spec fn step(p: Pos, b: u8) -> Pos {
    if b == NEWLINE {
        Pos { pos: (p.pos + 1) as usize, line: bump(p.line), col: 1 }
    } else {
        Pos { pos: (p.pos + 1) as usize, line: p.line, col: bump(p.col) }
    }
}

/// The position at the start of a text.
pub open spec fn start() -> Pos {
    Pos { pos: 0, line: 1, col: 1 }
}

/// The position of the given offset in `bytes`, found by scanning from the start of the text.
/// It is meant for offsets from 0 to the length of `bytes`.
pub open spec fn position_at(bytes: Seq<u8>, offset: int) -> Pos
    decreases offset,
{
    if offset <= 0 {
        start()
    } else {
        step(position_at(bytes, offset - 1), bytes[offset - 1])
    }
}

/// The position `n` bytes after `p`, or at the end of `bytes` where fewer are left, found by
/// going on from `p`.
pub open spec fn advance(bytes: Seq<u8>, p: Pos, n: nat) -> Pos
    decreases n,
{
    if n == 0 || p.pos >= bytes.len() {
        p
    } else {
        advance(bytes, step(p, bytes[p.pos as int]), (n - 1) as nat)
    }
}

/// The position reached from `p` by advancing by each of `steps` in turn.
pub open spec fn advance_each(bytes: Seq<u8>, p: Pos, steps: Seq<nat>) -> Pos
    decreases steps.len(),
{
    if steps.len() == 0 {
        p
    } else {
        advance_each(bytes, advance(bytes, p, steps[0]), steps.skip(1))
    }
}

/// The sum of `steps`.
pub open spec fn total(steps: Seq<nat>) -> nat
    decreases steps.len(),
{
    if steps.len() == 0 {
        0
    } else {
        steps[0] + total(steps.skip(1))
    }
}

/// The smaller of two numbers.
pub open spec fn least(a: int, b: int) -> int {
    if a <= b {
        a
    } else {
        b
    }
}

/// The offset of a scanned position is the offset that was asked for.
pub proof fn lemma_position_at_offset(bytes: Seq<u8>, offset: int)
    requires
        0 <= offset <= bytes.len() <= usize::MAX,
    ensures
        position_at(bytes, offset).pos == offset,
    decreases offset,
{
    if offset > 0 {
        lemma_position_at_offset(bytes, offset - 1);
    }
}

/// Advancing from a position that a scan from the start gives leads to the position that a scan
/// from the start gives for the offset reached.
pub proof fn lemma_advance_matches_rescan(bytes: Seq<u8>, p: Pos, n: nat)
    requires
        bytes.len() <= usize::MAX,
        p.tracks(bytes),
    ensures
        advance(bytes, p, n) == position_at(bytes, least(p.pos + n, bytes.len() as int)),
        advance(bytes, p, n).pos == least(p.pos + n, bytes.len() as int),
        advance(bytes, p, n).tracks(bytes),
    decreases n,
{
    if n == 0 || p.pos >= bytes.len() {
    } else {
        let q = step(p, bytes[p.pos as int]);
        assert(q == position_at(bytes, p.pos + 1));
        lemma_position_at_offset(bytes, p.pos + 1);
        lemma_advance_matches_rescan(bytes, q, (n - 1) as nat);
    }
    lemma_position_at_offset(bytes, least(p.pos + n, bytes.len() as int));
}

/// After any sequence of advances from the start of a text, the line and column that were
/// counted on the way are those that a scan from the start to the same offset gives, and the
/// offset is the sum of the advances or the length of the text, whichever is less.
pub proof fn lemma_incremental_position(bytes: Seq<u8>, steps: Seq<nat>)
    requires
        bytes.len() <= usize::MAX,
    ensures
        advance_each(bytes, start(), steps) == position_at(
            bytes,
            least(total(steps) as int, bytes.len() as int),
        ),
{
    lemma_advance_each(bytes, start(), steps);
}

/// `lemma_incremental_position` from any position that a scan from the start gives.
pub proof fn lemma_advance_each(bytes: Seq<u8>, p: Pos, steps: Seq<nat>)
    requires
        bytes.len() <= usize::MAX,
        p.tracks(bytes),
    ensures
        advance_each(bytes, p, steps) == position_at(
            bytes,
            least(p.pos + total(steps), bytes.len() as int),
        ),
    decreases steps.len(),
{
    if steps.len() > 0 {
        lemma_advance_matches_rescan(bytes, p, steps[0]);
        lemma_position_at_offset(bytes, least(p.pos + steps[0], bytes.len() as int));
        lemma_advance_each(bytes, advance(bytes, p, steps[0]), steps.skip(1));
    }
}

/// Whether the bytes of `bytes` from offset `at` on begin with `lit`.
pub open spec fn has_prefix_at(bytes: Seq<u8>, at: int, lit: Seq<u8>) -> bool {
    0 <= at && at + lit.len() <= bytes.len() && bytes.subrange(at, at + lit.len()) == lit
}

/// Counts a line or a column up by one.
fn bump_count(n: usize) -> (m: usize)
    ensures
        m == bump(n),
{
    if n < usize::MAX {
        n + 1
    } else {
        n
    }
}

/// Whether `bytes` from offset `at` on begin with `lit`.
pub fn starts_with_at(bytes: &[u8], at: usize, lit: &[u8]) -> (b: bool)
    ensures
        b == has_prefix_at(bytes@, at as int, lit@),
{
    if at > bytes.len() || lit.len() > bytes.len() - at {
        return false;
    }
    let mut k: usize = 0;
    while k < lit.len()
        invariant
            k <= lit.len(),
            at + lit.len() <= bytes.len(),
            bytes@.subrange(at as int, at + k) == lit@.take(k as int),
        decreases lit.len() - k,
    {
        if bytes[at + k] != lit[k] {
            assert(bytes@.subrange(at as int, at + lit.len())[k as int] != lit@[k as int]);
            return false;
        }
        assert(bytes@.subrange(at as int, at + k + 1) =~= bytes@.subrange(at as int, at + k).push(
            bytes@[at + k],
        ));
        assert(lit@.take(k + 1) =~= lit@.take(k as int).push(lit@[k as int]));
        k += 1;
    }
    assert(lit@.take(k as int) =~= lit@);
    true
}

impl File {
    /// The position of the byte offset `pos` in this file, found by scanning from the start.
    /// For an offset past the end, the line and column are those of the end.
    pub fn find_position(&self, pos: usize) -> (p: Pos)
        ensures
            p.pos == pos,
            p.line == position_at(
                encode_utf8(self.contents@),
                least(pos as int, encode_utf8(self.contents@).len() as int),
            ).line,
            p.col == position_at(
                encode_utf8(self.contents@),
                least(pos as int, encode_utf8(self.contents@).len() as int),
            ).col,
    {
        let bytes = self.contents.as_str().as_bytes();
        let mut at = Pos { pos: 0, line: 1, col: 1 };
        at.advance(bytes, pos);
        proof {
            axiom_spec_len(bytes);
            lemma_advance_matches_rescan(bytes@, start(), pos as nat);
        }
        Pos { pos, line: at.line, col: at.col }
    }
}

impl Pos {
    /// Whether this position is what a scan of `bytes` from the start gives for its offset.
    pub open spec fn tracks(self, bytes: Seq<u8>) -> bool {
        self.pos <= bytes.len() && self == position_at(bytes, self.pos as int)
    }

    /// Moves `n` bytes on in `bytes`, or to the end where fewer are left, counting lines and
    /// columns on the way.
    pub fn advance(&mut self, bytes: &[u8], n: usize)
        ensures
            *final(self) == advance(bytes@, *old(self), n as nat),
            old(self).pos <= final(self).pos <= old(self).pos + n,
    {
        let mut left = n;
        while left > 0 && self.pos < bytes.len()
            invariant
                advance(bytes@, *self, left as nat) == advance(bytes@, *old(self), n as nat),
                left <= n,
                self.pos == old(self).pos + (n - left),
            decreases left,
        {
            if bytes[self.pos] == NEWLINE {
                self.line = bump_count(self.line);
                self.col = 1;
            } else {
                self.col = bump_count(self.col);
            }
            self.pos += 1;
            left -= 1;
        }
    }

    /// Whether this position is at or past the end of `src`.
    pub fn is_eof(&self, src: &str) -> (b: bool)
        ensures
            b == (self.pos >= src.spec_bytes().len()),
    {
        self.pos >= src.as_bytes().len()
    }

    /// Moves `n` bytes on in `src`, or to its end where fewer are left.
    pub fn next(&mut self, src: &str, n: usize)
        ensures
            *final(self) == advance(src.spec_bytes(), *old(self), n as nat),
            old(self).pos <= final(self).pos <= old(self).pos + n,
    {
        self.advance(src.as_bytes(), n);
    }

    /// The byte `off` bytes after this position, as a character, or `None` where `src` ends
    /// before it.
    pub fn char(&self, src: &str, off: usize) -> (c: Option<char>)
        ensures
            match c {
                Some(c) => self.pos + off < src.spec_bytes().len() && c as int
                    == src.spec_bytes()[self.pos + off],
                None => self.pos + off >= src.spec_bytes().len(),
            },
    {
        let bytes = src.as_bytes();
        if off < bytes.len() && self.pos < bytes.len() - off {
            Some(bytes[self.pos + off] as char)
        } else {
            None
        }
    }

    /// Whether the bytes of `src` that begin `off` bytes after this position are those of `s`.
    pub fn eq_str(&self, src: &str, off: usize, s: &str) -> (b: bool)
        ensures
            b == has_prefix_at(src.spec_bytes(), self.pos + off, s.spec_bytes()),
    {
        let bytes = src.as_bytes();
        if off > bytes.len() || self.pos > bytes.len() - off {
            return false;
        }
        starts_with_at(bytes, self.pos + off, s.as_bytes())
    }
}

} // verus!
