//! Why a second run changes nothing: what one line's correction leaves for
//! the next reading of that line.

use vstd::prelude::*;
use crate::analyzer::{
    anchor_of, head_kind_of, indent_of, is_idle, is_solid, lemma_anchor_past_indent,
    lemma_ends_bounded, lemma_indent_from, lemma_indent_unique, lemma_solid_end, solid_end,
    trail_end_of, Follower,
};
use crate::balance::{
    entry, lemma_settle_shape, trail_edit, trail_kept, trail_need, trail_present,
};
use crate::engine::{
    check_trail, is_solid_or_close, lemma_reindented_is_patched, missing, needed, patched,
    reindented, settle, step, target_indent, walk, work, Rule, Setting,
};
use crate::lexer::{lemma_blank_prefix, lexeme_at, lexemes, mode_at, quote_at, LexMode, Lexeme};
use crate::rescan::{
    follows_alike, lemma_need_again, lemma_rescan_anchor, lemma_rescan_anchor_bare,
    lemma_rescan_index, lemma_rescan_trail, lemma_rescan_walk, rescan, trail_shape,
};
use crate::shift_laws::{
    alike, holds_missing, lemma_alike_take, lemma_pop_count_alike, lemma_walk_missing,
    lemma_walk_split,
};
use crate::syntax::{char_class, CharClass, DelimKind, Syntax};
use crate::tracker::{Frame, Mark};
use crate::trail_laws::{
    ends_in_code, lemma_patched_lexemes, lemma_string_end_anchor, lemma_string_from_before,
    lemma_trail_region,
};

verus! {

/// Inside a string whitespace is text like any other.
pub proof fn lemma_text_whitespace(syn: Syntax, line: Seq<char>, x: int)
    requires
        0 <= x <= line.len(),
        forall|j: int| 0 <= j < x ==> char_class(#[trigger] line[j], syn) == CharClass::Whitespace,
    ensures
        forall|j: int| 0 <= j <= x ==> mode_at(syn, line, LexMode::Text, j) == LexMode::Text,
    decreases x,
{
    if x > 0 {
        lemma_text_whitespace(syn, line, x - 1);
        assert(char_class(line[x - 1], syn) == CharClass::Whitespace);
        assert(mode_at(syn, line, LexMode::Text, x - 1) == LexMode::Text);
    }
}

/// On a line that is entered in a string, the anchor lies behind the first
/// character that is not whitespace.
pub proof fn lemma_text_anchor(syn: Syntax, line: Seq<char>)
    requires
        indent_of(syn, line) < line.len(),
    ensures
        indent_of(syn, line) < anchor_of(lexemes(syn, line, LexMode::Text)),
{
    let x = indent_of(syn, line);
    let lex = lexemes(syn, line, LexMode::Text);
    lemma_indent_from(syn, line, 0);
    lemma_text_whitespace(syn, line, x);
    assert(mode_at(syn, line, LexMode::Text, x) == LexMode::Text);
    assert(lex[x] == lexeme_at(syn, line, LexMode::Text, x));
    assert(is_solid(lex[x]));
    lemma_solid_end(lex, lex.len() as int);
}

/// A correction that begins behind a line's first character that is not
/// whitespace, and leaves the indentation alone, leaves the line's head
/// alone.
pub proof fn lemma_head_kept(
    syn: Syntax,
    line: Seq<char>,
    at: int,
    removed: int,
    added: Seq<DelimKind>,
)
    requires
        0 <= at,
        0 <= removed,
        at + removed <= line.len(),
        indent_of(syn, line) < at,
    ensures
        indent_of(syn, patched(line, 0, 0, at, removed, added)) == indent_of(syn, line),
        head_kind_of(syn, patched(line, 0, 0, at, removed, added)) == head_kind_of(syn, line),
{
    let out = patched(line, 0, 0, at, removed, added);
    let x = indent_of(syn, line);
    lemma_indent_from(syn, line, 0);
    assert forall|j: int| 0 <= j < at implies out[j] == line[j] by {
        assert(out[j] == line.subrange(0, at)[j]);
    }
    assert forall|j: int| 0 <= j < x implies char_class(#[trigger] out[j], syn)
        == CharClass::Whitespace by {
        assert(out[j] == line[j]);
    }
    assert(out[x] == line[x]);
    lemma_indent_unique(syn, out, x, 0);
}

/// A line that is entered in code and was corrected is indented as far as
/// the correction says, and begins with what it began with.
pub proof fn lemma_head_moved(
    syn: Syntax,
    line: Seq<char>,
    n: int,
    at: int,
    removed: int,
    added: Seq<DelimKind>,
)
    requires
        0 <= n,
        0 <= removed,
        at + removed <= line.len(),
        indent_of(syn, line) < at,
    ensures
        indent_of(syn, patched(line, indent_of(syn, line), n, at, removed, added)) == n,
        head_kind_of(syn, patched(line, indent_of(syn, line), n, at, removed, added))
            == head_kind_of(syn, line),
{
    let x = indent_of(syn, line);
    let out = patched(line, x, n, at, removed, added);
    lemma_indent_from(syn, line, 0);
    let p = crate::engine::indent_part(line, x, n);
    assert(p.len() == n);
    assert forall|j: int| 0 <= j < n implies char_class(#[trigger] out[j], syn)
        == CharClass::Whitespace by {
        assert(out[j] == p[j]);
        if n == x {
            assert(p[j] == line[j]);
        } else {
            assert(p[j] == ' ');
        }
    }
    assert(out[n] == line.subrange(x, at)[0]);
    assert(out[n] == line[x]);
    lemma_indent_unique(syn, out, n, 0);
}

/// What the first reading of a line's trail found, in one place.
pub open spec fn settled(
    rule: Rule,
    f1: Follower,
    open1: Seq<Frame>,
    lex: Seq<Lexeme>,
    x: int,
    at: int,
    kept: int,
    need: int,
) -> bool {
    &&& trail_shape(lex, x)
    &&& anchor_of(lex) <= at <= trail_end_of(lex)
    &&& 0 <= kept <= need <= open1.len()
    &&& check_trail(open1, lex, anchor_of(lex), trail_end_of(lex), 0, kept) is None
    &&& crate::engine::closers_in(lex, anchor_of(lex), at, 0) == kept
    &&& need == needed(rule, f1, open1, trail_present(lex))
    &&& 0 <= trail_present(lex)
}

/// The trail of a corrected line with solid code is left alone when it is
/// read again.
pub proof fn lemma_again_solid(
    set: Setting,
    rule: Rule,
    f1: Follower,
    f2: Follower,
    open1: Seq<Frame>,
    open2: Seq<Frame>,
    lex: Seq<Lexeme>,
    out: Seq<char>,
    k: usize,
    x: int,
    n: int,
    at: int,
    kept: int,
    need: int,
)
    requires
        settled(rule, f1, open1, lex, x, at, kept, need),
        0 <= n,
        solid_end(lex, lex.len() as int) > 0,
        alike(open1, open2),
        follows_alike(rule, f1, f2),
    ensures
        ({
            let r = rescan(lex, x, n, at, trail_end_of(lex), missing(open1, kept, need));
            let done = settle(set, rule, f2, open2, r, out, k, n, n);
            &&& done is Done
            &&& done->out == reindented(out, n, n)
            &&& done->frames == open2.take(open2.len() - need)
            &&& done->quote == None::<Mark>
        }),
{
    let r = rescan(lex, x, n, at, trail_end_of(lex), missing(open1, kept, need));
    lemma_rescan_trail(open1, open2, lex, x, n, at, kept, need);
    lemma_need_again(rule, f1, f2, open1, open2, trail_present(lex));
    crate::balance::lemma_settle_even(set, rule, f2, open2, r, out, k, n, n);
}

/// A corrected line whose only code is closers has no trail when it is
/// read again, and needs none.
pub proof fn lemma_again_bare(
    set: Setting,
    rule: Rule,
    f1: Follower,
    f2: Follower,
    open1: Seq<Frame>,
    left2: Seq<Frame>,
    lex: Seq<Lexeme>,
    out: Seq<char>,
    k: usize,
    x: int,
    n: int,
    need: int,
)
    requires
        settled(rule, f1, open1, lex, x, anchor_of(lex), 0, need),
        x < anchor_of(lex),
        0 <= n,
        solid_end(lex, lex.len() as int) == 0,
        alike(open1.take(open1.len() - need), left2),
        follows_alike(rule, f1, f2),
    ensures
        ({
            let r = rescan(lex, x, n, anchor_of(lex), anchor_of(lex), missing(open1, 0, need));
            let done = settle(set, rule, f2, left2, r, out, k, n, n);
            &&& done is Done
            &&& done->out == reindented(out, n, n)
            &&& done->frames == left2
            &&& done->quote == None::<Mark>
        }),
{
    let r = rescan(lex, x, n, anchor_of(lex), anchor_of(lex), missing(open1, 0, need));
    lemma_rescan_anchor_bare(lex, x, n, missing(open1, 0, need));
    assert(alike(open1, open1));
    lemma_need_again(rule, f1, f2, open1, open1, trail_present(lex));
    lemma_needed_alike(rule, f2, open1.take(open1.len() - need), left2, 0);
    crate::balance::lemma_settle_even(set, rule, f2, left2, r, out, k, n, n);
    assert(left2.take(left2.len() - 0) =~= left2);
}

/// Read again, the code of a corrected line before its anchor leaves a
/// stack that is alike: the stack that the first reading left behind the
/// closers that it inserted, on a line whose only code is closers, and else
/// the stack that it had before the trail.
pub proof fn lemma_again_walk_bare(
    frames1: Seq<Frame>,
    frames2: Seq<Frame>,
    lex: Seq<Lexeme>,
    k: usize,
    x: int,
    n: int,
    need: int,
)
    requires
        trail_shape(lex, x),
        x < anchor_of(lex),
        0 <= n,
        solid_end(lex, lex.len() as int) == 0,
        alike(frames1, frames2),
        walk(frames1, lex, 0, anchor_of(lex), k, n - x) is Ok,
        0 <= need <= walk(frames1, lex, 0, anchor_of(lex), k, n - x)->Ok_0.len(),
    ensures
        ({
            let open1 = walk(frames1, lex, 0, anchor_of(lex), k, n - x)->Ok_0;
            let r = rescan(lex, x, n, anchor_of(lex), anchor_of(lex), missing(open1, 0, need));
            let again = walk(frames2, r, 0, anchor_of(r), k, 0);
            &&& again is Ok
            &&& alike(open1.take(open1.len() - need), again->Ok_0)
        }),
{
    let anchor = anchor_of(lex);
    let shift = n - x;
    let open1 = walk(frames1, lex, 0, anchor, k, shift)->Ok_0;
    let added = missing(open1, 0, need);
    let r = rescan(lex, x, n, anchor, anchor, added);
    lemma_rescan_anchor_bare(lex, x, n, added);
    lemma_rescan_index(lex, x, n, anchor, anchor, added);
    lemma_rescan_walk(frames1, frames2, lex, x, n, anchor, added, k);
    let open2 = walk(frames2, r, 0, anchor + shift, k, 0)->Ok_0;
    let p = anchor + shift;
    lemma_walk_split(frames2, r, 0, p, p + need, k, 0);
    assert(holds_missing(r, p, open1, 0, need)) by {
        assert forall|u: int| 0 <= u < need - 0 implies #[trigger] r[p + u] == Lexeme::Close(
            open1[open1.len() - 1 - 0 - u].kind,
        ) by {
            assert(r[anchor + shift + u] == Lexeme::Close(added[u]));
        }
    }
    assert(open1.take(open1.len() - 0 - 0) =~= open1);
    lemma_walk_missing(open2, open1, r, p, 0, need, 0, k);
}

/// What `work` asks of its arguments.
pub open spec fn work_ready(
    syn: Syntax,
    quote: Option<Mark>,
    line: Seq<char>,
    x: int,
    n: int,
) -> bool {
    &&& 0 <= n
    &&& quote.is_some() ==> x == 0 && n == 0
    &&& quote.is_none() ==> x == indent_of(syn, line) && !is_idle(syn, line)
}

/// The first reading of a line that ends in code, in one place.
pub proof fn lemma_first_reading(
    set: Setting,
    rule: Rule,
    f1: Follower,
    frames1: Seq<Frame>,
    quote1: Option<Mark>,
    line: Seq<char>,
    k: usize,
    x: int,
    n: int,
)
    requires
        work(set, rule, f1, frames1, quote1, line, k, x, n) is Done,
        work_ready(set.syn, quote1, line, x, n),
        ends_in_code(set.syn, line, entry(quote1)),
    ensures
        ({
            let lex = lexemes(set.syn, line, entry(quote1));
            let open1 = walk(frames1, lex, 0, anchor_of(lex), k, n - x)->Ok_0;
            let need = trail_need(rule, f1, open1, lex);
            let kept = trail_kept(rule, f1, open1, lex);
            let at = trail_edit(rule, f1, open1, lex);
            let d1 = work(set, rule, f1, frames1, quote1, line, k, x, n);
            &&& walk(frames1, lex, 0, anchor_of(lex), k, n - x) is Ok
            &&& settled(rule, f1, open1, lex, x, at, kept, need)
            &&& (quote1.is_none() ==> x < anchor_of(lex))
            &&& (quote1.is_some() ==> solid_end(lex, lex.len() as int) > 0)
            &&& lexemes(set.syn, d1->out, entry(quote1)) == rescan(
                lex,
                x,
                n,
                at,
                trail_end_of(lex),
                missing(open1, kept, need),
            )
            &&& ends_in_code(set.syn, d1->out, entry(quote1))
            &&& d1->out == patched(
                line,
                x,
                n,
                at,
                trail_end_of(lex) - at,
                missing(open1, kept, need),
            )
            &&& d1->frames == open1.take(open1.len() - need)
            &&& d1->quote == None::<Mark>
            &&& x <= at
            &&& trail_end_of(lex) <= line.len()
        }),
{
    let syn = set.syn;
    let start = entry(quote1);
    let lex = lexemes(syn, line, start);
    let anchor = anchor_of(lex);
    let end = trail_end_of(lex);
    let open1 = walk(frames1, lex, 0, anchor, k, n - x)->Ok_0;
    lemma_ends_bounded(lex, lex.len() as int);
    if quote1.is_none() {
        lemma_indent_from(syn, line, 0);
        lemma_blank_prefix(syn, line, x);
        assert(is_solid_or_close(lex[x]));
        lemma_anchor_past_indent(lex, x);
    } else {
        // a line that is entered in a string and leaves it holds a quote
        if solid_end(lex, lex.len() as int) == 0 {
            lemma_solid_end(lex, lex.len() as int);
            if line.len() > 0 {
                crate::trail_laws::lemma_lexeme_modes(syn, line, start, 0);
                assert(lex[0] == lexeme_at(syn, line, start, 0));
                assert(false);
            }
            assert(false);
        }
    }
    assert(forall|j: int| 0 <= j < x ==> lex[j] == Lexeme::Blank);
    lemma_trail_region(syn, line, start);
    lemma_settle_shape(set, rule, f1, open1, lex, line, k, x, n);
    let need = trail_need(rule, f1, open1, lex);
    let kept = trail_kept(rule, f1, open1, lex);
    let at = trail_edit(rule, f1, open1, lex);
    lemma_patched_lexemes(syn, line, start, x, n, at, end - at, missing(open1, kept, need));
    crate::engine::lemma_closers_in_bounded(lex, anchor, end, 0);
}

/// A line that ends in code, was corrected and is read again, with a stack
/// that is alike and the next code alike, is left as it is, and leaves a
/// stack that is alike.
pub proof fn lemma_work_again_code(
    set: Setting,
    rule: Rule,
    f1: Follower,
    f2: Follower,
    frames1: Seq<Frame>,
    frames2: Seq<Frame>,
    quote1: Option<Mark>,
    quote2: Option<Mark>,
    line: Seq<char>,
    k: usize,
    x: int,
    n: int,
)
    requires
        work(set, rule, f1, frames1, quote1, line, k, x, n) is Done,
        work_ready(set.syn, quote1, line, x, n),
        ends_in_code(set.syn, line, entry(quote1)),
        alike(frames1, frames2),
        quote1.is_some() == quote2.is_some(),
        follows_alike(rule, f1, f2),
    ensures
        ({
            let d1 = work(set, rule, f1, frames1, quote1, line, k, x, n);
            let d2 = work(set, rule, f2, frames2, quote2, d1->out, k, n, n);
            &&& d2 is Done
            &&& d2->out == d1->out
            &&& alike(d1->frames, d2->frames)
            &&& d1->quote.is_some() == d2->quote.is_some()
        }),
{
    let syn = set.syn;
    let start = entry(quote1);
    let lex = lexemes(syn, line, start);
    let anchor = anchor_of(lex);
    let end = trail_end_of(lex);
    let shift = n - x;
    let open1 = walk(frames1, lex, 0, anchor, k, shift)->Ok_0;
    let d1 = work(set, rule, f1, frames1, quote1, line, k, x, n);
    let out = d1->out;
    lemma_first_reading(set, rule, f1, frames1, quote1, line, k, x, n);
    let need = trail_need(rule, f1, open1, lex);
    let kept = trail_kept(rule, f1, open1, lex);
    let at = trail_edit(rule, f1, open1, lex);
    let added = missing(open1, kept, need);
    let r = rescan(lex, x, n, at, end, added);
    crate::engine::lemma_patched_shape(line, x, n, at, end - at, added);
    assert(reindented(out, n, n) =~= out);
    if solid_end(lex, lex.len() as int) > 0 {
        lemma_rescan_anchor(lex, x, n, at, added);
        lemma_rescan_walk(frames1, frames2, lex, x, n, at, added, k);
        let open2 = walk(frames2, r, 0, anchor + shift, k, 0)->Ok_0;
        lemma_again_solid(set, rule, f1, f2, open1, open2, lex, out, k, x, n, at, kept, need);
        lemma_alike_take(open1, open2, open1.len() - need);
    } else {
        lemma_ends_bounded(lex, lex.len() as int);
        lemma_rescan_anchor_bare(lex, x, n, added);
        assert(trail_present(lex) == 0);
        assert(kept == 0 && at == anchor);
        lemma_again_walk_bare(frames1, frames2, lex, k, x, n, need);
        let left2 = walk(frames2, r, 0, anchor_of(r), k, 0)->Ok_0;
        lemma_again_bare(set, rule, f1, f2, open1, left2, lex, out, k, x, n, need);
    }
}

/// A line that ends inside a string, was corrected and is read again, with
/// a stack that is alike, is left as it is, and leaves a stack that is
/// alike.
pub proof fn lemma_work_again_string(
    set: Setting,
    rule: Rule,
    f1: Follower,
    f2: Follower,
    frames1: Seq<Frame>,
    frames2: Seq<Frame>,
    quote1: Option<Mark>,
    quote2: Option<Mark>,
    line: Seq<char>,
    k: usize,
    x: int,
    n: int,
)
    requires
        work(set, rule, f1, frames1, quote1, line, k, x, n) is Done,
        work_ready(set.syn, quote1, line, x, n),
        !ends_in_code(set.syn, line, entry(quote1)),
        alike(frames1, frames2),
        quote1.is_some() == quote2.is_some(),
    ensures
        ({
            let d1 = work(set, rule, f1, frames1, quote1, line, k, x, n);
            let d2 = work(set, rule, f2, frames2, quote2, d1->out, k, n, n);
            &&& d2 is Done
            &&& d2->out == d1->out
            &&& alike(d1->frames, d2->frames)
            &&& d1->quote.is_some() == d2->quote.is_some()
        }),
{
    let syn = set.syn;
    let start = entry(quote1);
    let lex = lexemes(syn, line, start);
    let total = line.len() as int;
    let d1 = work(set, rule, f1, frames1, quote1, line, k, x, n);
    let out = d1->out;
    lemma_ends_bounded(lex, lex.len() as int);
    if quote1.is_none() {
        lemma_indent_from(syn, line, 0);
        lemma_blank_prefix(syn, line, x);
    }
    assert(forall|j: int| 0 <= j < x ==> lex[j] == Lexeme::Blank);
    lemma_string_end_anchor(syn, line, start);
    lemma_reindented_is_patched(line, x, n, total);
    let none = Seq::<DelimKind>::empty();
    lemma_patched_lexemes(syn, line, start, x, n, total, 0, none);
    crate::engine::lemma_patched_shape(line, x, n, total, 0, none);
    let r = rescan(lex, x, n, total, total, none);
    assert(lexemes(syn, out, start) == r);
    lemma_string_end_anchor(syn, out, start);
    assert(trail_shape(lex, x));
    lemma_rescan_index(lex, x, n, total, total, none);
    lemma_rescan_walk(frames1, frames2, lex, x, n, total, none, k);
    assert(reindented(out, n, n) =~= out);
    if quote_at(syn, line, start, total).is_none() {
        lemma_string_from_before(syn, line, start, total);
    }
    if quote_at(syn, out, start, out.len() as int).is_none() {
        lemma_string_from_before(syn, out, start, out.len() as int);
    }
}

/// Stacks that are alike need as many closers.
pub proof fn lemma_needed_alike(
    rule: Rule,
    follower: Follower,
    a: Seq<Frame>,
    b: Seq<Frame>,
    present: int,
)
    requires
        alike(a, b),
    ensures
        needed(rule, follower, a, present) == needed(rule, follower, b, present),
{
    match follower {
        Follower::Code(fx) => {
            lemma_pop_count_alike(a, b, fx as int);
        },
        _ => {},
    }
}

/// A line that was corrected begins with what it began with. It is
/// indented as far as its rule says if it carries code and was entered in
/// code, and else as far as it was.
pub proof fn lemma_step_head(
    set: Setting,
    rule: Rule,
    follower: Follower,
    frames: Seq<Frame>,
    quote: Option<Mark>,
    line: Seq<char>,
    k: usize,
)
    requires
        step(set, rule, follower, frames, quote, line, k) is Done,
    ensures
        ({
            let out = step(set, rule, follower, frames, quote, line, k)->out;
            &&& head_kind_of(set.syn, out) == head_kind_of(set.syn, line)
            &&& indent_of(set.syn, out) == if quote.is_none() && !is_idle(set.syn, line) {
                target_indent(rule, frames, indent_of(set.syn, line))
            } else {
                indent_of(set.syn, line)
            }
        }),
{
    let syn = set.syn;
    let start = entry(quote);
    let lex = lexemes(syn, line, start);
    let total = line.len() as int;
    let none = Seq::<DelimKind>::empty();
    lemma_indent_from(syn, line, 0);
    if quote.is_some() {
        if ends_in_code(syn, line, start) {
            lemma_first_reading(set, rule, follower, frames, quote, line, k, 0, 0);
            if indent_of(syn, line) < total {
                lemma_text_anchor(syn, line);
                let open1 = walk(frames, lex, 0, anchor_of(lex), k, 0)->Ok_0;
                let at = trail_edit(rule, follower, open1, lex);
                lemma_head_kept(
                    syn,
                    line,
                    at,
                    trail_end_of(lex) - at,
                    missing(
                        open1,
                        trail_kept(rule, follower, open1, lex),
                        trail_need(rule, follower, open1, lex),
                    ),
                );
            } else {
                lemma_text_whitespace(syn, line, total);
            }
        } else {
            assert(reindented(line, 0, 0) =~= line);
        }
    } else if !is_idle(syn, line) {
        let x = indent_of(syn, line);
        let n = target_indent(rule, frames, x);
        if ends_in_code(syn, line, start) {
            lemma_first_reading(set, rule, follower, frames, quote, line, k, x, n);
            let open1 = walk(frames, lex, 0, anchor_of(lex), k, n - x)->Ok_0;
            let at = trail_edit(rule, follower, open1, lex);
            lemma_head_moved(
                syn,
                line,
                n,
                at,
                trail_end_of(lex) - at,
                missing(
                    open1,
                    trail_kept(rule, follower, open1, lex),
                    trail_need(rule, follower, open1, lex),
                ),
            );
        } else {
            lemma_reindented_is_patched(line, x, n, total);
            lemma_head_moved(syn, line, n, total, 0, none);
        }
    }
}

/// A line that was corrected and is read again, with a stack that is alike
/// and the next code alike, is left as it is, and leaves a stack that is
/// alike.
pub proof fn lemma_step_again(
    set: Setting,
    rule: Rule,
    f1: Follower,
    f2: Follower,
    frames1: Seq<Frame>,
    frames2: Seq<Frame>,
    quote1: Option<Mark>,
    quote2: Option<Mark>,
    line: Seq<char>,
    k: usize,
)
    requires
        step(set, rule, f1, frames1, quote1, line, k) is Done,
        alike(frames1, frames2),
        quote1.is_some() == quote2.is_some(),
        follows_alike(rule, f1, f2),
    ensures
        ({
            let d1 = step(set, rule, f1, frames1, quote1, line, k);
            let d2 = step(set, rule, f2, frames2, quote2, d1->out, k);
            &&& d2 is Done
            &&& d2->out == d1->out
            &&& alike(d1->frames, d2->frames)
            &&& d1->quote.is_some() == d2->quote.is_some()
        }),
{
    let syn = set.syn;
    let start = entry(quote1);
    lemma_step_head(set, rule, f1, frames1, quote1, line, k);
    if quote1.is_some() {
        if ends_in_code(syn, line, start) {
            lemma_work_again_code(
                set,
                rule,
                f1,
                f2,
                frames1,
                frames2,
                quote1,
                quote2,
                line,
                k,
                0,
                0,
            );
        } else {
            lemma_work_again_string(
                set,
                rule,
                f1,
                f2,
                frames1,
                frames2,
                quote1,
                quote2,
                line,
                k,
                0,
                0,
            );
        }
    } else if !is_idle(syn, line) {
        let x = indent_of(syn, line);
        let n = target_indent(rule, frames1, x);
        lemma_indent_from(syn, line, 0);
        if frames1.len() > 0 {
            assert(frames1.last().indent == frames2.last().indent);
        }
        assert(target_indent(rule, frames2, n) == n);
        if ends_in_code(syn, line, start) {
            lemma_work_again_code(
                set,
                rule,
                f1,
                f2,
                frames1,
                frames2,
                quote1,
                quote2,
                line,
                k,
                x,
                n,
            );
        } else {
            lemma_work_again_string(
                set,
                rule,
                f1,
                f2,
                frames1,
                frames2,
                quote1,
                quote2,
                line,
                k,
                x,
                n,
            );
        }
    }
}

/// What a line keeps when it is corrected. It always begins with what it
/// began with. Under `Rule::Indent` it keeps its indentation. Under
/// `Rule::Paren`, unless the balance is forced, it keeps everything behind
/// its indentation.
pub open spec fn line_kept(set: Setting, rule: Rule, line: Seq<char>, out: Seq<char>) -> bool {
    &&& head_kind_of(set.syn, out) == head_kind_of(set.syn, line)
    &&& (rule == Rule::Indent ==> indent_of(set.syn, out) == indent_of(set.syn, line))
    &&& (rule == Rule::Paren && !set.force_balance ==> out.skip(indent_of(set.syn, out))
        == line.skip(indent_of(set.syn, line)))
}

/// Under `Rule::Paren`, unless the balance is forced, a line's trail is
/// left as it is.
pub proof fn lemma_paren_trail_kept(
    set: Setting,
    follower: Follower,
    open: Seq<Frame>,
    lex: Seq<Lexeme>,
    line: Seq<char>,
    k: usize,
    x: int,
    n: int,
)
    requires
        !set.force_balance,
        settle(set, Rule::Paren, follower, open, lex, line, k, x, n) is Done,
    ensures
        settle(set, Rule::Paren, follower, open, lex, line, k, x, n)->out == reindented(line, x, n),
{
    reveal(settle);
}

/// Every line that is corrected keeps what its rule trusts.
pub proof fn lemma_step_keeps(
    set: Setting,
    rule: Rule,
    follower: Follower,
    frames: Seq<Frame>,
    quote: Option<Mark>,
    line: Seq<char>,
    k: usize,
)
    requires
        step(set, rule, follower, frames, quote, line, k) is Done,
    ensures
        line_kept(set, rule, line, step(set, rule, follower, frames, quote, line, k)->out),
{
    let syn = set.syn;
    let out = step(set, rule, follower, frames, quote, line, k)->out;
    lemma_step_head(set, rule, follower, frames, quote, line, k);
    lemma_indent_from(syn, line, 0);
    if rule == Rule::Paren && !set.force_balance {
        let start = entry(quote);
        let lex = lexemes(syn, line, start);
        if quote.is_some() {
            let open = walk(frames, lex, 0, anchor_of(lex), k, 0)->Ok_0;
            if ends_in_code(syn, line, start) {
                lemma_paren_trail_kept(set, follower, open, lex, line, k, 0, 0);
            }
            assert(reindented(line, 0, 0) =~= line);
        } else if !is_idle(syn, line) {
            let x = indent_of(syn, line);
            let n = target_indent(rule, frames, x);
            let open = walk(frames, lex, 0, anchor_of(lex), k, n - x)->Ok_0;
            if ends_in_code(syn, line, start) {
                lemma_paren_trail_kept(set, follower, open, lex, line, k, x, n);
            }
            assert(reindented(line, x, n).skip(n) =~= line.skip(x));
        }
    }
}

} // verus!
