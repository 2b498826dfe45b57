//! The scan of a corrected line, and what the engine finds on it when it
//! reads it again.

use vstd::prelude::*;
use crate::analyzer::{
    anchor_of, close_end, is_solid, lemma_close_end, lemma_ends_bounded, lemma_solid_end,
    solid_end, trail_end_of, Follower,
};
use crate::balance::trail_present;
use crate::engine::{check_trail, closers_in, missing, needed, walk, Rule};
use crate::lexer::Lexeme;
use crate::lexer_laws::{blanks, closes};
use crate::shift_laws::{
    alike, holds_missing, lemma_check_missing, lemma_check_moved, lemma_check_tail,
    lemma_closers_in_moved, lemma_closers_in_run, lemma_closers_in_split, lemma_pop_count_alike,
    lemma_pop_count_done, lemma_walk_blanks, lemma_walk_moved, moved,
};
use crate::syntax::DelimKind;
use crate::tracker::Frame;

verus! {

/// The scan of a line that was corrected: blanks for its indentation of
/// width `n`, the line's scan from its old indentation `x` up to `at`, the
/// closers that were inserted, and the line's scan from `end` on.
pub open spec fn rescan(
    lex: Seq<Lexeme>,
    x: int,
    n: int,
    at: int,
    end: int,
    added: Seq<DelimKind>,
) -> Seq<Lexeme> {
    blanks(n) + lex.subrange(x, at) + closes(added) + lex.skip(end)
}

/// The columns of a rescan.
pub proof fn lemma_rescan_index(
    lex: Seq<Lexeme>,
    x: int,
    n: int,
    at: int,
    end: int,
    added: Seq<DelimKind>,
)
    requires
        0 <= x <= at <= end <= lex.len(),
        0 <= n,
    ensures
        ({
            let r = rescan(lex, x, n, at, end, added);
            let shift = n - x;
            &&& r.len() == n + (at - x) + added.len() + (lex.len() - end)
            &&& forall|j: int| 0 <= j < n ==> #[trigger] r[j] == Lexeme::Blank
            &&& moved(lex, r, x, at, shift)
            &&& forall|u: int|
                0 <= u < added.len() ==> r[at + shift + u] == Lexeme::Close(#[trigger] added[u])
            &&& forall|v: int|
                end <= v < lex.len() ==> r[v - end + at + shift + added.len()] == #[trigger] lex[v]
            &&& forall|j: int|
                at + shift + added.len() <= j < r.len() ==> #[trigger] r[j] == lex[j - (at + shift
                    + added.len()) + end]
            &&& forall|j: int|
                at + shift <= j < at + shift + added.len() ==> #[trigger] r[j] is Close
        }),
{
    let r = rescan(lex, x, n, at, end, added);
    let shift = n - x;
    assert forall|j: int| x <= j < at implies r[j + shift] == #[trigger] lex[j] by {
        assert(lex.subrange(x, at)[j - x] == lex[j]);
    }
    assert forall|u: int| 0 <= u < added.len() implies r[at + shift + u] == Lexeme::Close(
        #[trigger] added[u],
    ) by {
        assert(closes(added)[u] == Lexeme::Close(added[u]));
    }
    assert forall|j: int| at + shift <= j < at + shift + added.len() implies #[trigger] r[j] is Close by {
        assert(r[j] == closes(added)[j - at - shift]);
    }
}

/// A column is `solid_end` if it follows a solid character and none
/// follows it.
pub proof fn lemma_solid_end_is(lex: Seq<Lexeme>, i: int, e: int)
    requires
        0 <= e <= i <= lex.len(),
        e > 0 ==> is_solid(lex[e - 1]),
        forall|j: int| e <= j < i ==> !is_solid(#[trigger] lex[j]),
    ensures
        solid_end(lex, i) == e,
    decreases i - e,
{
    if i > e {
        assert(!is_solid(lex[i - 1]));
        lemma_solid_end_is(lex, i - 1, e);
    }
}

/// A column is `close_end` if it follows a closer and none follows it.
pub proof fn lemma_close_end_is(lex: Seq<Lexeme>, i: int, e: int)
    requires
        0 <= e <= i <= lex.len(),
        e > 0 ==> lex[e - 1] is Close,
        forall|j: int| e <= j < i ==> !(#[trigger] lex[j] is Close),
    ensures
        close_end(lex, i) == e,
    decreases i - e,
{
    if i > e {
        assert(!(lex[i - 1] is Close));
        lemma_close_end_is(lex, i - 1, e);
    }
}

/// What the trail of a line that ends in code looks like, in one place.
pub open spec fn trail_shape(lex: Seq<Lexeme>, x: int) -> bool {
    &&& 0 <= x <= anchor_of(lex) <= trail_end_of(lex) <= lex.len()
    &&& forall|j: int| 0 <= j < x ==> #[trigger] lex[j] == Lexeme::Blank
    &&& forall|j: int|
        anchor_of(lex) <= j < trail_end_of(lex) ==> (#[trigger] lex[j] == Lexeme::Blank || lex[j] is Close)
    &&& forall|j: int|
        trail_end_of(lex) <= j < lex.len() ==> (#[trigger] lex[j] == Lexeme::Blank || lex[j]
            == Lexeme::Remark)
}

/// On a line with solid code, the corrected line's anchor is the line's,
/// moved with the indentation.
pub proof fn lemma_rescan_anchor(
    lex: Seq<Lexeme>,
    x: int,
    n: int,
    at: int,
    added: Seq<DelimKind>,
)
    requires
        trail_shape(lex, x),
        anchor_of(lex) <= at <= trail_end_of(lex),
        0 <= n,
        solid_end(lex, lex.len() as int) > 0,
    ensures
        anchor_of(rescan(lex, x, n, at, trail_end_of(lex), added)) == anchor_of(lex) + (n - x),
{
    let end = trail_end_of(lex);
    let r = rescan(lex, x, n, at, end, added);
    let shift = n - x;
    let a = anchor_of(lex);
    lemma_rescan_index(lex, x, n, at, end, added);
    lemma_solid_end(lex, lex.len() as int);
    assert(is_solid(lex[a - 1]));
    if a - 1 < x {
        assert(lex[a - 1] == Lexeme::Blank);
    }
    assert(r[a - 1 + shift] == lex[a - 1]);
    assert forall|j: int| a + shift <= j < r.len() implies !is_solid(#[trigger] r[j]) by {
        if j < at + shift {
            assert(r[(j - shift) + shift] == lex[j - shift]);
            assert(!is_solid(lex[j - shift]));
        } else if j < at + shift + added.len() {
            assert(r[j] is Close);
        } else {
            let v = j - (at + shift + added.len()) + end;
            assert(r[j] == lex[v]);
            assert(!is_solid(lex[v]));
        }
    }
    lemma_solid_end_is(r, r.len() as int, a + shift);
}

/// On a line whose only code is closers, the corrected line's anchor lies
/// behind the closers that were inserted, and it has no trail.
pub proof fn lemma_rescan_anchor_bare(lex: Seq<Lexeme>, x: int, n: int, added: Seq<DelimKind>)
    requires
        trail_shape(lex, x),
        x < anchor_of(lex),
        0 <= n,
        solid_end(lex, lex.len() as int) == 0,
    ensures
        trail_end_of(lex) == anchor_of(lex),
        ({
            let r = rescan(lex, x, n, anchor_of(lex), anchor_of(lex), added);
            &&& anchor_of(r) == anchor_of(lex) + (n - x) + added.len()
            &&& trail_end_of(r) == anchor_of(r)
            &&& trail_present(r) == 0
        }),
{
    let a = anchor_of(lex);
    let r = rescan(lex, x, n, a, a, added);
    let shift = n - x;
    lemma_solid_end(lex, lex.len() as int);
    lemma_close_end(lex, lex.len() as int);
    lemma_ends_bounded(lex, lex.len() as int);
    lemma_rescan_index(lex, x, n, a, a, added);
    let p = a + shift + added.len();
    assert(lex[a - 1] is Close);
    if a - 1 < x {
        assert(lex[a - 1] == Lexeme::Blank);
    }
    assert(r[p - 1] is Close) by {
        if added.len() > 0 {
            assert(r[p - 1] is Close);
        } else {
            assert(r[(a - 1) + shift] == lex[a - 1]);
        }
    }
    assert forall|j: int| 0 <= j < r.len() implies !is_solid(#[trigger] r[j]) by {
        if j < n {
            assert(r[j] == Lexeme::Blank);
        } else if j < a + shift {
            assert(r[(j - shift) + shift] == lex[j - shift]);
            assert(!is_solid(lex[j - shift]));
        } else if j < p {
            assert(r[j] is Close);
        } else {
            let v = j - p + a;
            assert(r[j] == lex[v]);
            assert(!is_solid(lex[v]));
        }
    }
    lemma_solid_end_is(r, r.len() as int, 0);
    assert forall|j: int| p <= j < r.len() implies !(#[trigger] r[j] is Close) by {
        let v = j - p + a;
        assert(r[j] == lex[v]);
        assert(lex[v] == Lexeme::Blank || lex[v] == Lexeme::Remark);
    }
    lemma_close_end_is(r, r.len() as int, p);
}

/// Read again with a stack that is alike, the code of a corrected line
/// before its anchor leaves a stack that is alike.
pub proof fn lemma_rescan_walk(
    f1: Seq<Frame>,
    f2: Seq<Frame>,
    lex: Seq<Lexeme>,
    x: int,
    n: int,
    at: int,
    added: Seq<DelimKind>,
    k: usize,
)
    requires
        trail_shape(lex, x),
        anchor_of(lex) <= at <= trail_end_of(lex),
        0 <= n,
        alike(f1, f2),
        walk(f1, lex, 0, anchor_of(lex), k, n - x) is Ok,
    ensures
        ({
            let r = rescan(lex, x, n, at, trail_end_of(lex), added);
            let again = walk(f2, r, 0, anchor_of(lex) + (n - x), k, 0);
            &&& again is Ok
            &&& alike(walk(f1, lex, 0, anchor_of(lex), k, n - x)->Ok_0, again->Ok_0)
        }),
{
    let end = trail_end_of(lex);
    let r = rescan(lex, x, n, at, end, added);
    let shift = n - x;
    let a = anchor_of(lex);
    lemma_rescan_index(lex, x, n, at, end, added);
    lemma_walk_blanks(f1, lex, 0, x, a, k, shift);
    lemma_walk_blanks(f2, r, 0, n, a + shift, k, 0);
    assert(moved(lex, r, x, a, shift)) by {
        assert forall|j: int| x <= j < a implies r[j + shift] == #[trigger] lex[j] by {}
    }
    lemma_walk_moved(f1, f2, lex, r, x, a, k, shift);
}

/// Read again, the trail of a corrected line with solid code holds as many
/// closers as were needed, and each finds its frame.
pub proof fn lemma_rescan_trail(
    open1: Seq<Frame>,
    open2: Seq<Frame>,
    lex: Seq<Lexeme>,
    x: int,
    n: int,
    at: int,
    kept: int,
    need: int,
)
    requires
        trail_shape(lex, x),
        anchor_of(lex) <= at <= trail_end_of(lex),
        0 <= n,
        solid_end(lex, lex.len() as int) > 0,
        alike(open1, open2),
        0 <= kept <= need <= open1.len(),
        check_trail(open1, lex, anchor_of(lex), trail_end_of(lex), 0, kept) is None,
        closers_in(lex, anchor_of(lex), at, 0) == kept,
    ensures
        ({
            let r = rescan(lex, x, n, at, trail_end_of(lex), missing(open1, kept, need));
            &&& trail_present(r) == need
            &&& check_trail(open2, r, anchor_of(r), trail_end_of(r), 0, need) is None
        }),
{
    let end = trail_end_of(lex);
    let added = missing(open1, kept, need);
    let r = rescan(lex, x, n, at, end, added);
    let shift = n - x;
    let a = anchor_of(lex);
    let p = at + shift;
    let q = p + added.len();
    lemma_rescan_index(lex, x, n, at, end, added);
    lemma_rescan_anchor(lex, x, n, at, added);
    lemma_close_end(r, r.len() as int);
    lemma_ends_bounded(r, r.len() as int);
    let e2 = trail_end_of(r);
    let far = r.len() as int;
    assert forall|j: int| q <= j < far implies !(#[trigger] r[j] is Close) by {
        let v = j - q + end;
        assert(r[j] == lex[v]);
        assert(lex[v] == Lexeme::Blank || lex[v] == Lexeme::Remark);
    }
    assert(moved(lex, r, a, at, shift)) by {
        assert forall|j: int| a <= j < at implies r[j + shift] == #[trigger] lex[j] by {}
    }
    assert(holds_missing(r, p, open1, kept, need)) by {
        assert forall|u: int| 0 <= u < need - kept implies #[trigger] r[p + u] == Lexeme::Close(
            open1[open1.len() - 1 - kept - u].kind,
        ) by {
            assert(r[at + shift + u] == Lexeme::Close(added[u]));
        }
    }
    // the closers
    lemma_closers_in_split(r, a + shift, e2, far);
    lemma_closers_in_run(r, e2, far);
    lemma_closers_in_split(r, a + shift, p, far);
    lemma_closers_in_split(r, p, q, far);
    lemma_closers_in_moved(lex, r, a, at, shift);
    lemma_closers_in_run(r, p, q);
    lemma_closers_in_run(r, q, far);
    // each finds its frame
    lemma_check_tail(open2, r, a + shift, e2, far, 0, need);
    assert forall|j: int| a <= j < at implies (#[trigger] lex[j] == Lexeme::Blank || lex[j] is Close) by {}
    lemma_check_moved(open1, open2, lex, r, a, at, end, far, shift, 0, kept, need);
    lemma_check_missing(open1, open2, r, p, far, kept, need, 0);
}

/// Read again, a corrected line needs as many closers as it holds.
pub proof fn lemma_need_again(
    rule: Rule,
    f1: Follower,
    f2: Follower,
    open1: Seq<Frame>,
    open2: Seq<Frame>,
    present: int,
)
    requires
        alike(open1, open2),
        follows_alike(rule, f1, f2),
        0 <= present,
        needed(rule, f1, open1, present) <= open1.len(),
    ensures
        needed(rule, f2, open2, needed(rule, f1, open1, present)) == needed(
            rule,
            f1,
            open1,
            present,
        ),
        needed(
            rule,
            f2,
            open2.take(open2.len() - needed(rule, f1, open1, present)),
            0,
        ) == 0,
{
    let need = needed(rule, f1, open1, present);
    match f1 {
        Follower::Code(fx) => {
            lemma_pop_count_alike(open1, open2, fx as int);
            lemma_pop_count_done(open2, fx as int);
        },
        _ => {},
    }
}

/// The next code after a line looks the same to the rule: it is of the
/// same sort and, where the rule goes by indentation, as far indented.
pub open spec fn follows_alike(rule: Rule, f1: Follower, f2: Follower) -> bool {
    match (f1, f2) {
        (Follower::End, Follower::End) => true,
        (Follower::Closer, Follower::Closer) => true,
        (Follower::Code(a), Follower::Code(b)) => rule == Rule::Paren || a == b,
        _ => false,
    }
}

} // verus!
