//! The structure tracker: the delimiters that are open, and whether the
//! text, scanned by the tracker alone, is balanced.

use vstd::prelude::*;
use crate::error::ErrorKind;
use crate::lexer::{carry, lexemes, mode_at, scan_line, LexMode, Lexeme};
use crate::syntax::{DelimKind, Syntax};
use crate::text::{rows, split, split_lines};

verus! {

/// One open delimiter.
#[derive(Clone, Copy, Debug, PartialEq, Eq, Structural)]
pub struct Frame {
    pub kind: DelimKind,
    /// The line of the opening character in the buffer that was handed in.
    pub line: usize,
    /// Its column there.
    pub x: usize,
    /// Its column in the corrected buffer: the indentation that a line has
    /// to exceed to lie inside this delimiter.
    pub indent: usize,
}

/// Where a string was opened.
#[derive(Clone, Copy, Debug, PartialEq, Eq, Structural)]
pub struct Mark {
    pub line: usize,
    pub x: usize,
    /// The quote's column in the corrected buffer.
    pub out_x: usize,
}

/// The open delimiters, outermost first, and the string that is open across
/// a line end, if any.
pub struct Tracker {
    pub frames: Vec<Frame>,
    pub quote: Option<Mark>,
}

/// The families of a stack of frames.
pub open spec fn kinds_of(frames: Seq<Frame>) -> Seq<DelimKind> {
    Seq::new(frames.len(), |i: int| frames[i].kind)
}

/// A closer of family `kind` closes the innermost of `frames`.
pub open spec fn closes(frames: Seq<Frame>, kind: DelimKind) -> bool {
    frames.len() > 0 && frames.last().kind == kind
}

/// The least bound above every frame's indentation.
pub open spec fn reach(frames: Seq<Frame>) -> int
    decreases frames.len(),
{
    if frames.len() == 0 {
        0
    } else if reach(frames.drop_last()) > frames.last().indent {
        reach(frames.drop_last())
    } else {
        frames.last().indent + 1
    }
}

/// Every frame's indentation lies below the reach of its stack.
pub proof fn lemma_reach_bounds(frames: Seq<Frame>, i: int)
    requires
        0 <= i < frames.len(),
    ensures
        frames[i].indent < reach(frames),
        reach(frames) >= 0,
    decreases frames.len(),
{
    if i < frames.len() - 1 {
        lemma_reach_bounds(frames.drop_last(), i);
    } else if frames.len() > 1 {
        lemma_reach_bounds(frames.drop_last(), 0);
    }
}

/// The outermost frames of a stack reach no further than the stack.
pub proof fn lemma_reach_take(frames: Seq<Frame>, n: int)
    requires
        0 <= n <= frames.len(),
    ensures
        0 <= reach(frames.take(n)) <= reach(frames),
    decreases frames.len() - n,
{
    if n < frames.len() {
        lemma_reach_take(frames, n + 1);
        assert(frames.take(n + 1).drop_last() =~= frames.take(n));
    } else {
        assert(frames.take(n) =~= frames);
        if n > 0 {
            lemma_reach_bounds(frames, 0);
        }
    }
}

/// The families open after `lex[i..]` was read with `kinds` open, or `None`
/// where a closer finds no opener of its family on top, or a character has
/// more than one role.
pub open spec fn nest(kinds: Seq<DelimKind>, lex: Seq<Lexeme>, i: int) -> Option<Seq<DelimKind>>
    decreases lex.len() - i,
{
    if i < 0 || i >= lex.len() {
        Some(kinds)
    } else {
        match lex[i] {
            Lexeme::Open(kind) => nest(kinds.push(kind), lex, i + 1),
            Lexeme::Close(kind) => if kinds.len() > 0 && kinds.last() == kind {
                nest(kinds.drop_last(), lex, i + 1)
            } else {
                None
            },
            Lexeme::Bad => None,
            _ => nest(kinds, lex, i + 1),
        }
    }
}

/// The mode and the families open after `lines[k..]` were read.
pub open spec fn nest_lines(
    syn: Syntax,
    lines: Seq<Seq<char>>,
    k: int,
    mode: LexMode,
    kinds: Seq<DelimKind>,
) -> Option<(LexMode, Seq<DelimKind>)>
    decreases lines.len() - k,
{
    if k < 0 || k >= lines.len() {
        Some((mode, kinds))
    } else {
        match nest(kinds, lexemes(syn, lines[k], mode), 0) {
            None => None,
            Some(open) => nest_lines(
                syn,
                lines,
                k + 1,
                carry(mode_at(syn, lines[k], mode, lines[k].len() as int)),
                open,
            ),
        }
    }
}

/// The lines are balanced: read by the tracker alone, every closer closes
/// the innermost open delimiter, which is of its family; at the end nothing
/// is open, neither a delimiter nor a string; and no character has more than
/// one role.
pub open spec fn balanced_lines(syn: Syntax, lines: Seq<Seq<char>>) -> bool {
    nest_lines(syn, lines, 0, LexMode::Code, Seq::empty()) == Some(
        (LexMode::Code, Seq::<DelimKind>::empty()),
    )
}

/// The buffer is balanced.
pub open spec fn balanced(syn: Syntax, text: Seq<char>) -> bool {
    balanced_lines(syn, split_lines(text))
}

impl Tracker {
    /// A tracker with nothing open.
    pub fn new() -> (t: Tracker)
        ensures
            t.frames@ == Seq::<Frame>::empty(),
            t.quote.is_none(),
    {
        Tracker { frames: Vec::new(), quote: None }
    }

    /// Whether a string is open.
    pub fn is_in_string(&self) -> (b: bool)
        ensures
            b == self.quote.is_some(),
    {
        self.quote.is_some()
    }

    /// The innermost open delimiter.
    pub fn current_frame(&self) -> (f: Option<Frame>)
        ensures
            f == if self.frames@.len() == 0 {
                None
            } else {
                Some(self.frames@.last())
            },
    {
        let n = self.frames.len();
        if n == 0 {
            None
        } else {
            Some(self.frames[n - 1])
        }
    }

    /// Opens a delimiter.
    pub fn push_frame(&mut self, frame: Frame)
        ensures
            final(self).frames@ == old(self).frames@.push(frame),
            final(self).quote == old(self).quote,
    {
        self.frames.push(frame);
    }

    /// Closes the innermost delimiter if it is of the closer's family. If it
    /// is not, or nothing is open, nothing changes and the closer is
    /// reported as unmatched.
    pub fn pop_frame(&mut self, kind: DelimKind) -> (r: Result<Frame, ErrorKind>)
        ensures
            final(self).quote == old(self).quote,
            closes(old(self).frames@, kind) ==> r == Ok::<Frame, ErrorKind>(
                old(self).frames@.last(),
            ) && final(self).frames@ == old(self).frames@.drop_last(),
            !closes(old(self).frames@, kind) ==> r == Err::<Frame, ErrorKind>(
                ErrorKind::UnmatchedCloseDelimiter,
            ) && final(self).frames@ == old(self).frames@,
    {
        let n = self.frames.len();
        if n == 0 {
            return Err(ErrorKind::UnmatchedCloseDelimiter);
        }
        let top = self.frames[n - 1];
        if top.kind == kind {
            self.frames.pop();
            Ok(top)
        } else {
            Err(ErrorKind::UnmatchedCloseDelimiter)
        }
    }
}

/// Whether the lexer stands inside a string.
pub fn in_string(mode: LexMode) -> (b: bool)
    ensures
        b == (mode == LexMode::Text || mode == LexMode::Escaped),
{
    match mode {
        LexMode::Text => true,
        LexMode::Escaped => true,
        _ => false,
    }
}

/// Whether the lexer stands inside a comment.
pub fn in_comment(mode: LexMode) -> (b: bool)
    ensures
        b == (mode == LexMode::Remark),
{
    match mode {
        LexMode::Remark => true,
        _ => false,
    }
}

/// Reads a buffer with the tracker alone and says whether it is balanced.
pub fn is_balanced(syn: &Syntax, text: &Vec<char>) -> (b: bool)
    ensures
        b == balanced(*syn, text@),
{
    let lines = split(text);
    let mut tracker = Tracker::new();
    let mut mode = LexMode::Code;
    let mut k: usize = 0;
    assert(kinds_of(tracker.frames@) =~= Seq::<DelimKind>::empty());
    while k < lines.len()
        invariant
            k <= lines.len(),
            rows(lines@) == split_lines(text@),
            balanced(*syn, text@) == (nest_lines(
                *syn,
                rows(lines@),
                k as int,
                mode,
                kinds_of(tracker.frames@),
            ) == Some((LexMode::Code, Seq::<DelimKind>::empty()))),
        decreases lines.len() - k,
    {
        let line = &lines[k];
        let scan = scan_line(syn, line, mode);
        let ghost lex = lexemes(*syn, rows(lines@)[k as int], mode);
        let ghost start = kinds_of(tracker.frames@);
        let mut i: usize = 0;
        while i < scan.lexemes.len()
            invariant
                i <= scan.lexemes.len(),
                k < lines.len(),
                scan.lexemes@ == lex,
                lex == lexemes(*syn, rows(lines@)[k as int], mode),
                nest(start, lex, 0) == nest(kinds_of(tracker.frames@), lex, i as int),
                balanced(*syn, text@) == (nest_lines(*syn, rows(lines@), k as int, mode, start)
                    == Some((LexMode::Code, Seq::<DelimKind>::empty()))),
            decreases scan.lexemes.len() - i,
        {
            let ghost before = tracker.frames@;
            match scan.lexemes[i] {
                Lexeme::Open(kind) => {
                    tracker.push_frame(Frame { kind, line: k, x: i, indent: i });
                    assert(kinds_of(tracker.frames@) =~= kinds_of(before).push(kind));
                },
                Lexeme::Close(kind) => {
                    assert(before.len() > 0 ==> kinds_of(before).last() == before.last().kind);
                    match tracker.pop_frame(kind) {
                        Ok(_) => {
                            assert(kinds_of(tracker.frames@) =~= kinds_of(before).drop_last());
                        },
                        Err(_) => {
                            return false;
                        },
                    }
                },
                Lexeme::Bad => {
                    return false;
                },
                _ => {},
            }
            i = i + 1;
        }
        mode = match scan.end {
            LexMode::Text => LexMode::Text,
            LexMode::Escaped => LexMode::Text,
            _ => LexMode::Code,
        };
        k = k + 1;
    }
    assert(kinds_of(tracker.frames@).len() == tracker.frames@.len());
    let closed = tracker.frames.len() == 0;
    if closed {
        assert(kinds_of(tracker.frames@) =~= Seq::<DelimKind>::empty());
    }
    match mode {
        LexMode::Code => closed,
        _ => false,
    }
}

} // verus!
