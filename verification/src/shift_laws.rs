//! How the engine reads a line whose scan is another line's scan moved
//! sideways.

use vstd::prelude::*;
use crate::engine::{check_trail, closers_in, lemma_closers_in_bounded, pop_count, walk};
use crate::error::ErrorKind;
use crate::lexer::Lexeme;
use crate::nest_laws::lemma_closers_in_acc;
use crate::tracker::Frame;

verus! {

/// Two stacks agree in what the engine decides by: the families and the
/// indentations of their frames.
pub open spec fn alike(a: Seq<Frame>, b: Seq<Frame>) -> bool {
    &&& a.len() == b.len()
    &&& forall|i: int|
        0 <= i < a.len() ==> (#[trigger] a[i]).kind == b[i].kind && a[i].indent == b[i].indent
}

/// The columns `i..to` of `lex` stand in `other`, moved by `shift`.
pub open spec fn moved(lex: Seq<Lexeme>, other: Seq<Lexeme>, i: int, to: int, shift: int) -> bool {
    &&& 0 <= i <= to <= lex.len()
    &&& 0 <= i + shift
    &&& to + shift <= other.len()
    &&& forall|j: int| i <= j < to ==> other[j + shift] == #[trigger] lex[j]
}

/// The outermost frames of stacks that are alike are alike.
pub proof fn lemma_alike_take(a: Seq<Frame>, b: Seq<Frame>, n: int)
    requires
        alike(a, b),
        0 <= n <= a.len(),
    ensures
        alike(a.take(n), b.take(n)),
{
    assert forall|i: int| 0 <= i < n implies (#[trigger] a.take(n)[i]).kind == b.take(n)[i].kind
        && a.take(n)[i].indent == b.take(n)[i].indent by {
        assert(a[i].kind == b[i].kind);
    }
}

/// Walking a moved copy of a line's code, with a stack that is alike, ends
/// with a stack that is alike.
pub proof fn lemma_walk_moved(
    f1: Seq<Frame>,
    f2: Seq<Frame>,
    lex: Seq<Lexeme>,
    other: Seq<Lexeme>,
    i: int,
    to: int,
    k: usize,
    shift: int,
)
    requires
        alike(f1, f2),
        moved(lex, other, i, to, shift),
        walk(f1, lex, i, to, k, shift) is Ok,
    ensures
        walk(f2, other, i + shift, to + shift, k, 0) is Ok,
        alike(
            walk(f1, lex, i, to, k, shift)->Ok_0,
            walk(f2, other, i + shift, to + shift, k, 0)->Ok_0,
        ),
    decreases to - i,
{
    if i < to {
        assert(other[i + shift] == lex[i]);
        match lex[i] {
            Lexeme::Open(kind) => {
                let a = Frame { kind, line: k, x: i as usize, indent: (i + shift) as usize };
                let b = Frame {
                    kind,
                    line: k,
                    x: (i + shift) as usize,
                    indent: (i + shift + 0) as usize,
                };
                assert(alike(f1.push(a), f2.push(b))) by {
                    assert forall|j: int| 0 <= j < f1.push(a).len() implies (#[trigger] f1.push(
                        a,
                    )[j]).kind == f2.push(b)[j].kind && f1.push(a)[j].indent == f2.push(
                        b,
                    )[j].indent by {
                        if j < f1.len() {
                            assert(f1[j].kind == f2[j].kind);
                        }
                    }
                }
                lemma_walk_moved(f1.push(a), f2.push(b), lex, other, i + 1, to, k, shift);
            },
            Lexeme::Close(kind) => {
                assert(f1.last().kind == f2.last().kind);
                assert(f1.drop_last() =~= f1.take(f1.len() - 1));
                assert(f2.drop_last() =~= f2.take(f2.len() - 1));
                lemma_alike_take(f1, f2, f1.len() - 1);
                lemma_walk_moved(f1.drop_last(), f2.drop_last(), lex, other, i + 1, to, k, shift);
            },
            Lexeme::Bad => {},
            _ => {
                lemma_walk_moved(f1, f2, lex, other, i + 1, to, k, shift);
            },
        }
    }
}

/// Blanks change nothing on a walk.
pub proof fn lemma_walk_blanks(
    frames: Seq<Frame>,
    lex: Seq<Lexeme>,
    i: int,
    mid: int,
    to: int,
    k: usize,
    shift: int,
)
    requires
        0 <= i <= mid <= to <= lex.len(),
        forall|j: int| i <= j < mid ==> #[trigger] lex[j] == Lexeme::Blank,
    ensures
        walk(frames, lex, i, to, k, shift) == walk(frames, lex, mid, to, k, shift),
    decreases mid - i,
{
    if i < mid {
        assert(lex[i] == Lexeme::Blank);
        lemma_walk_blanks(frames, lex, i + 1, mid, to, k, shift);
    }
}

/// A walk can be made in two legs.
pub proof fn lemma_walk_split(
    frames: Seq<Frame>,
    lex: Seq<Lexeme>,
    i: int,
    mid: int,
    to: int,
    k: usize,
    shift: int,
)
    requires
        0 <= i <= mid <= to <= lex.len(),
    ensures
        walk(frames, lex, i, to, k, shift) == match walk(frames, lex, i, mid, k, shift) {
            Ok(open) => walk(open, lex, mid, to, k, shift),
            Err(e) => Err::<Seq<Frame>, (ErrorKind, int)>(e),
        },
    decreases mid - i,
{
    if i < mid {
        match lex[i] {
            Lexeme::Open(kind) => {
                lemma_walk_split(
                    frames.push(
                        Frame { kind, line: k, x: i as usize, indent: (i + shift) as usize },
                    ),
                    lex,
                    i + 1,
                    mid,
                    to,
                    k,
                    shift,
                );
            },
            Lexeme::Close(kind) => {
                if frames.len() > 0 && frames.last().kind == kind {
                    lemma_walk_split(frames.drop_last(), lex, i + 1, mid, to, k, shift);
                }
            },
            Lexeme::Bad => {},
            _ => {
                lemma_walk_split(frames, lex, i + 1, mid, to, k, shift);
            },
        }
    }
}

/// The columns from `p` on hold the closers of the frames of `open` below
/// its `kept` innermost, down to the `need`-th.
pub open spec fn holds_missing(other: Seq<Lexeme>, p: int, open: Seq<Frame>, kept: int, need: int)
    -> bool {
    &&& 0 <= kept <= need <= open.len()
    &&& 0 <= p
    &&& p + (need - kept) <= other.len()
    &&& forall|u: int|
        0 <= u < need - kept ==> #[trigger] other[p + u] == Lexeme::Close(
            open[open.len() - 1 - kept - u].kind,
        )
}

/// Walking over closers that were inserted for the frames on top closes
/// those frames.
pub proof fn lemma_walk_missing(
    cur: Seq<Frame>,
    open: Seq<Frame>,
    other: Seq<Lexeme>,
    p: int,
    kept: int,
    need: int,
    t: int,
    k: usize,
)
    requires
        holds_missing(other, p, open, kept, need),
        0 <= t <= need - kept,
        alike(open.take(open.len() - kept - t), cur),
    ensures
        walk(cur, other, p + t, p + (need - kept), k, 0) is Ok,
        alike(open.take(open.len() - need), walk(cur, other, p + t, p + (need - kept), k, 0)->Ok_0),
    decreases need - kept - t,
{
    if t < need - kept {
        let top = open.take(open.len() - kept - t);
        assert(other[p + t] == Lexeme::Close(open[open.len() - 1 - kept - t].kind));
        assert(top.last().kind == cur.last().kind);
        assert(cur.drop_last() =~= cur.take(cur.len() - 1));
        lemma_alike_take(top, cur, top.len() - 1);
        assert(top.take(top.len() - 1) =~= open.take(open.len() - kept - t - 1));
        lemma_walk_missing(cur.drop_last(), open, other, p, kept, need, t + 1, k);
    }
}

/// Closers that stand moved in another scan find the same frames there.
pub proof fn lemma_check_moved(
    open1: Seq<Frame>,
    open2: Seq<Frame>,
    lex: Seq<Lexeme>,
    other: Seq<Lexeme>,
    i: int,
    at: int,
    to1: int,
    to2: int,
    shift: int,
    depth: int,
    kept: int,
    limit: int,
)
    requires
        alike(open1, open2),
        moved(lex, other, i, at, shift),
        at <= to1 <= lex.len(),
        at + shift <= to2 <= other.len(),
        forall|j: int| i <= j < at ==> (#[trigger] lex[j] == Lexeme::Blank || lex[j] is Close),
        check_trail(open1, lex, i, to1, depth, kept) is None,
        closers_in(lex, i, at, 0) == kept - depth,
        0 <= depth <= kept <= limit,
    ensures
        check_trail(open2, other, i + shift, to2, depth, limit) == check_trail(
            open2,
            other,
            at + shift,
            to2,
            kept,
            limit,
        ),
    decreases at - i,
{
    if i < at {
        assert(other[i + shift] == lex[i]);
        assert(lex[i] == Lexeme::Blank || lex[i] is Close);
        match lex[i] {
            Lexeme::Close(kind) => {
                lemma_closers_in_acc(lex, i + 1, at, 1);
                lemma_closers_in_bounded(lex, i + 1, at, 0);
                assert(depth < kept);
                assert(open1[open1.len() - 1 - depth].kind == open2[open2.len() - 1 - depth].kind);
                lemma_check_moved(
                    open1,
                    open2,
                    lex,
                    other,
                    i + 1,
                    at,
                    to1,
                    to2,
                    shift,
                    depth + 1,
                    kept,
                    limit,
                );
            },
            _ => {
                lemma_check_moved(
                    open1,
                    open2,
                    lex,
                    other,
                    i + 1,
                    at,
                    to1,
                    to2,
                    shift,
                    depth,
                    kept,
                    limit,
                );
            },
        }
    }
}

/// Closers that were inserted for the frames on top find those frames.
pub proof fn lemma_check_missing(
    open1: Seq<Frame>,
    open2: Seq<Frame>,
    other: Seq<Lexeme>,
    p: int,
    to2: int,
    kept: int,
    need: int,
    t: int,
)
    requires
        alike(open1, open2),
        holds_missing(other, p, open1, kept, need),
        0 <= t <= need - kept,
        p + (need - kept) <= to2 <= other.len(),
    ensures
        check_trail(open2, other, p + t, to2, kept + t, need) is None,
    decreases need - kept - t,
{
    if t < need - kept {
        assert(other[p + t] == Lexeme::Close(open1[open1.len() - 1 - kept - t].kind));
        assert(open1[open1.len() - 1 - kept - t].kind == open2[open2.len() - 1 - kept - t].kind);
        lemma_check_missing(open1, open2, other, p, to2, kept, need, t + 1);
    }
}

/// Behind the last closer a longer trail holds no more than a shorter one.
pub proof fn lemma_check_tail(
    open: Seq<Frame>,
    lex: Seq<Lexeme>,
    i: int,
    to: int,
    far: int,
    depth: int,
    kept: int,
)
    requires
        0 <= i,
        0 <= to <= far <= lex.len(),
        forall|j: int| to <= j < far ==> !(#[trigger] lex[j] is Close),
    ensures
        check_trail(open, lex, i, to, depth, kept) == check_trail(open, lex, i, far, depth, kept),
    decreases far - i,
{
    if i < far && depth < kept {
        if i >= to {
            assert(!(lex[i] is Close));
            lemma_check_tail(open, lex, i + 1, to, far, depth, kept);
        } else {
            match lex[i] {
                Lexeme::Close(kind) => {
                    if 0 <= depth < open.len() && open[open.len() - 1 - depth].kind == kind {
                        lemma_check_tail(open, lex, i + 1, to, far, depth + 1, kept);
                    }
                },
                _ => {
                    lemma_check_tail(open, lex, i + 1, to, far, depth, kept);
                },
            }
        }
    }
}

/// Closers are counted leg by leg.
pub proof fn lemma_closers_in_split(lex: Seq<Lexeme>, i: int, mid: int, to: int)
    requires
        0 <= i <= mid <= to <= lex.len(),
    ensures
        closers_in(lex, i, to, 0) == closers_in(lex, i, mid, 0) + closers_in(lex, mid, to, 0),
    decreases mid - i,
{
    if i < mid {
        lemma_closers_in_split(lex, i + 1, mid, to);
        if lex[i] is Close {
            lemma_closers_in_acc(lex, i + 1, to, 1);
            lemma_closers_in_acc(lex, i + 1, mid, 1);
        }
    }
}

/// A moved copy holds as many closers.
pub proof fn lemma_closers_in_moved(
    lex: Seq<Lexeme>,
    other: Seq<Lexeme>,
    i: int,
    to: int,
    shift: int,
)
    requires
        moved(lex, other, i, to, shift),
    ensures
        closers_in(other, i + shift, to + shift, 0) == closers_in(lex, i, to, 0),
    decreases to - i,
{
    if i < to {
        assert(other[i + shift] == lex[i]);
        lemma_closers_in_moved(lex, other, i + 1, to, shift);
        if lex[i] is Close {
            lemma_closers_in_acc(lex, i + 1, to, 1);
            lemma_closers_in_acc(other, i + 1 + shift, to + shift, 1);
        }
    }
}

/// Columns that hold closers and nothing else hold as many closers as
/// there are columns; columns that hold none hold none.
pub proof fn lemma_closers_in_run(lex: Seq<Lexeme>, i: int, to: int)
    requires
        0 <= i <= to <= lex.len(),
    ensures
        (forall|j: int| i <= j < to ==> #[trigger] lex[j] is Close) ==> closers_in(lex, i, to, 0)
            == to - i,
        (forall|j: int| i <= j < to ==> !(#[trigger] lex[j] is Close)) ==> closers_in(
            lex,
            i,
            to,
            0,
        ) == 0,
    decreases to - i,
{
    if i < to {
        lemma_closers_in_run(lex, i + 1, to);
        lemma_closers_in_acc(lex, i + 1, to, 1);
        if forall|j: int| i <= j < to ==> #[trigger] lex[j] is Close {
            assert(lex[i] is Close);
            assert(forall|j: int| i + 1 <= j < to ==> #[trigger] lex[j] is Close);
        }
        if forall|j: int| i <= j < to ==> !(#[trigger] lex[j] is Close) {
            assert(!(lex[i] is Close));
            assert(forall|j: int| i + 1 <= j < to ==> !(#[trigger] lex[j] is Close));
        }
    }
}

/// Stacks that are alike lose as many frames to a line's indentation.
pub proof fn lemma_pop_count_alike(a: Seq<Frame>, b: Seq<Frame>, fx: int)
    requires
        alike(a, b),
    ensures
        pop_count(a, fx) == pop_count(b, fx),
    decreases a.len(),
{
    if a.len() > 0 {
        assert(a.last().indent == b.last().indent);
        assert(a.drop_last() =~= a.take(a.len() - 1));
        assert(b.drop_last() =~= b.take(b.len() - 1));
        lemma_alike_take(a, b, a.len() - 1);
        lemma_pop_count_alike(a.drop_last(), b.drop_last(), fx);
    }
}

/// What a line's indentation leaves of a stack, it leaves alone.
pub proof fn lemma_pop_count_done(frames: Seq<Frame>, fx: int)
    ensures
        0 <= pop_count(frames, fx) <= frames.len(),
        pop_count(frames.take(frames.len() - pop_count(frames, fx)), fx) == 0,
    decreases frames.len(),
{
    if frames.len() == 0 || frames.last().indent < fx {
        assert(frames.take(frames.len() as int) =~= frames);
    } else {
        lemma_pop_count_done(frames.drop_last(), fx);
        let rest = frames.drop_last();
        assert(rest.take(rest.len() - pop_count(rest, fx)) =~= frames.take(
            frames.len() - pop_count(frames, fx),
        ));
    }
}

} // verus!
