//! How the tracker's reading of a scan is made of its readings of the parts,
//! and how the engine's own reading of a line agrees with it.

use vstd::prelude::*;
use crate::analyzer::after_closers;
use crate::engine::{check_trail, closers_in, missing, walk};
use crate::lexer::Lexeme;
use crate::lexer_laws::closes;
use crate::syntax::DelimKind;
use crate::tracker::{kinds_of, nest, Frame};

verus! {

/// Reading from behind a prefix is reading what follows it.
pub proof fn lemma_nest_shift(kinds: Seq<DelimKind>, a: Seq<Lexeme>, b: Seq<Lexeme>, j: int)
    requires
        0 <= j <= b.len(),
    ensures
        nest(kinds, a + b, a.len() + j) == nest(kinds, b, j),
    decreases b.len() - j,
{
    if j < b.len() {
        assert((a + b)[a.len() + j] == b[j]);
        match b[j] {
            Lexeme::Open(kind) => {
                lemma_nest_shift(kinds.push(kind), a, b, j + 1);
            },
            Lexeme::Close(kind) => {
                if kinds.len() > 0 && kinds.last() == kind {
                    lemma_nest_shift(kinds.drop_last(), a, b, j + 1);
                }
            },
            Lexeme::Bad => {},
            _ => {
                lemma_nest_shift(kinds, a, b, j + 1);
            },
        }
    }
}

/// Reading `a + b` is reading `a` and then `b`.
pub proof fn lemma_nest_concat(kinds: Seq<DelimKind>, a: Seq<Lexeme>, b: Seq<Lexeme>, i: int)
    requires
        0 <= i <= a.len(),
    ensures
        nest(kinds, a + b, i) == match nest(kinds, a, i) {
            Some(open) => nest(open, b, 0),
            None => None,
        },
    decreases a.len() - i,
{
    if i == a.len() {
        lemma_nest_shift(kinds, a, b, 0);
    } else {
        assert((a + b)[i] == a[i]);
        match a[i] {
            Lexeme::Open(kind) => {
                lemma_nest_concat(kinds.push(kind), a, b, i + 1);
            },
            Lexeme::Close(kind) => {
                if kinds.len() > 0 && kinds.last() == kind {
                    lemma_nest_concat(kinds.drop_last(), a, b, i + 1);
                }
            },
            Lexeme::Bad => {},
            _ => {
                lemma_nest_concat(kinds, a, b, i + 1);
            },
        }
    }
}

/// Blanks and comments open and close nothing.
pub proof fn lemma_nest_gaps(kinds: Seq<DelimKind>, lex: Seq<Lexeme>, i: int, to: int)
    requires
        0 <= i <= to <= lex.len(),
        forall|j: int| i <= j < to ==> (#[trigger] lex[j] == Lexeme::Blank || lex[j] == Lexeme::Remark),
    ensures
        nest(kinds, lex, i) == nest(kinds, lex, to),
    decreases to - i,
{
    if i < to {
        assert(lex[i] == Lexeme::Blank || lex[i] == Lexeme::Remark);
        lemma_nest_gaps(kinds, lex, i + 1, to);
    }
}

/// The families of a stack with one more frame.
pub proof fn lemma_kinds_push(frames: Seq<Frame>, f: Frame)
    ensures
        kinds_of(frames.push(f)) == kinds_of(frames).push(f.kind),
{
    assert(kinds_of(frames.push(f)) =~= kinds_of(frames).push(f.kind));
}

/// The families of the outermost `n` frames of a stack.
pub proof fn lemma_kinds_take(frames: Seq<Frame>, n: int)
    requires
        0 < n <= frames.len(),
    ensures
        kinds_of(frames.take(n)).drop_last() == kinds_of(frames.take(n - 1)),
        kinds_of(frames.take(n)).last() == frames[n - 1].kind,
        kinds_of(frames.take(n)).len() == n,
{
    assert(kinds_of(frames.take(n)).drop_last() =~= kinds_of(frames.take(n - 1)));
}

/// Where the engine walks a line's code and ends with `open`, the tracker,
/// reading any scan that agrees with the line's up to there, has the
/// families of `open` open there.
pub proof fn lemma_walk_nests(
    frames: Seq<Frame>,
    lex: Seq<Lexeme>,
    s: Seq<Lexeme>,
    i: int,
    to: int,
    k: usize,
    shift: int,
)
    requires
        0 <= i <= to <= lex.len(),
        to <= s.len(),
        forall|j: int| 0 <= j < to ==> s[j] == lex[j],
        walk(frames, lex, i, to, k, shift) is Ok,
    ensures
        nest(kinds_of(frames), s, i) == nest(
            kinds_of(walk(frames, lex, i, to, k, shift)->Ok_0),
            s,
            to,
        ),
    decreases to - i,
{
    if i < to {
        assert(s[i] == lex[i]);
        match lex[i] {
            Lexeme::Open(kind) => {
                let f = Frame { kind, line: k, x: i as usize, indent: (i + shift) as usize };
                lemma_kinds_push(frames, f);
                lemma_walk_nests(frames.push(f), lex, s, i + 1, to, k, shift);
            },
            Lexeme::Close(kind) => {
                assert(kinds_of(frames).last() == frames.last().kind);
                assert(kinds_of(frames).drop_last() =~= kinds_of(frames.drop_last()));
                lemma_walk_nests(frames.drop_last(), lex, s, i + 1, to, k, shift);
            },
            Lexeme::Bad => {},
            _ => {
                lemma_walk_nests(frames, lex, s, i + 1, to, k, shift);
            },
        }
    }
}

/// Counting closers with a head start.
pub proof fn lemma_closers_in_acc(lex: Seq<Lexeme>, i: int, to: int, acc: int)
    ensures
        closers_in(lex, i, to, acc) == acc + closers_in(lex, i, to, 0),
    decreases to - i,
{
    if !(i < 0 || i >= to || i >= lex.len()) {
        if lex[i] is Close {
            lemma_closers_in_acc(lex, i + 1, to, acc + 1);
            lemma_closers_in_acc(lex, i + 1, to, 1);
        } else {
            lemma_closers_in_acc(lex, i + 1, to, acc);
        }
    }
}

/// Before the column behind the `count`-th closer there are `count` closers.
pub proof fn lemma_after_closers_count(lex: Seq<Lexeme>, i: int, to: int, count: int)
    requires
        0 <= i <= to <= lex.len(),
        0 <= count <= closers_in(lex, i, to, 0),
    ensures
        i <= after_closers(lex, i, count) <= to,
        closers_in(lex, i, after_closers(lex, i, count), 0) == count,
    decreases to - i,
{
    if count > 0 {
        if i < to {
            if lex[i] is Close {
                lemma_closers_in_acc(lex, i + 1, to, 1);
                lemma_after_closers_count(lex, i + 1, to, count - 1);
                lemma_closers_in_acc(lex, i + 1, after_closers(lex, i, count), 1);
            } else {
                lemma_after_closers_count(lex, i + 1, to, count);
            }
        }
    }
}

/// Where the first `kept` closers of a trail each found a frame, the
/// tracker, reading any scan that agrees with the line's up to `upto`, where
/// those closers end, has closed `kept` frames there.
pub proof fn lemma_trail_nests(
    open: Seq<Frame>,
    lex: Seq<Lexeme>,
    s: Seq<Lexeme>,
    i: int,
    upto: int,
    to: int,
    depth: int,
    kept: int,
)
    requires
        0 <= i <= upto <= to <= lex.len(),
        upto <= s.len(),
        forall|j: int| 0 <= j < upto ==> s[j] == lex[j],
        forall|j: int| i <= j < to ==> (#[trigger] lex[j] == Lexeme::Blank || lex[j] is Close),
        0 <= depth <= kept,
        depth <= open.len(),
        check_trail(open, lex, i, to, depth, kept) is None,
        closers_in(lex, i, upto, 0) == kept - depth,
    ensures
        kept <= open.len(),
        nest(kinds_of(open.take(open.len() - depth)), s, i) == nest(
            kinds_of(open.take(open.len() - kept)),
            s,
            upto,
        ),
    decreases upto - i,
{
    if i < upto {
        assert(s[i] == lex[i]);
        assert(lex[i] == Lexeme::Blank || lex[i] is Close);
        match lex[i] {
            Lexeme::Close(kind) => {
                lemma_closers_in_acc(lex, i + 1, upto, 1);
                crate::engine::lemma_closers_in_bounded(lex, i + 1, upto, 0);
                assert(depth < kept);
                assert(0 <= depth < open.len() && open[open.len() - 1 - depth].kind == kind);
                lemma_kinds_take(open, open.len() - depth);
                lemma_trail_nests(open, lex, s, i + 1, upto, to, depth + 1, kept);
            },
            _ => {
                lemma_trail_nests(open, lex, s, i + 1, upto, to, depth, kept);
            },
        }
    }
}

/// The closers that the engine inserts close the frames that the trail left
/// to close.
pub proof fn lemma_missing_nests(open: Seq<Frame>, present: int, need: int, t: int)
    requires
        0 <= present <= need <= open.len(),
        0 <= t <= need - present,
    ensures
        nest(
            kinds_of(open.take(open.len() - present - t)),
            closes(missing(open, present, need)),
            t,
        ) == Some(kinds_of(open.take(open.len() - need))),
    decreases need - present - t,
{
    if t < need - present {
        lemma_kinds_take(open, open.len() - present - t);
        lemma_missing_nests(open, present, need, t + 1);
    }
}

} // verus!
