//! Why a run that goes through leaves a balanced buffer.

use vstd::prelude::*;
use crate::analyzer::{
    after_closers, anchor_of, indent_of, is_idle, lemma_ends_bounded, lemma_indent_from,
    trail_end_of, Follower,
};
use crate::engine::{
    check_trail, closers_in, lemma_check_trail_depth, lemma_closers_in_bounded,
    lemma_pop_count_bounded, lemma_reindented_is_patched, missing, needed, patched, settle, step,
    target_indent, walk, work, Rule, Setting,
};
use crate::analyzer::follower_of;
use crate::engine::Note;
use crate::lexer::{carry, lexemes, LexMode, Lexeme};
use crate::run::{rule_of, run_from, Plan};
use crate::tracker::nest_lines;
use crate::lexer_laws::{blanks, closes, end_mode};
use crate::nest_laws::{
    lemma_after_closers_count, lemma_missing_nests, lemma_nest_concat, lemma_nest_gaps,
    lemma_nest_shift, lemma_trail_nests, lemma_walk_nests,
};
use crate::syntax::{DelimKind, Syntax};
use crate::tracker::{kinds_of, nest, Frame, Mark};
use crate::trail_laws::{
    ends_in_code, lemma_idle_scan, lemma_patched_lexemes, lemma_string_end_anchor,
    lemma_string_from_before, lemma_trail_region,
};

verus! {

/// The mode in which a line is entered.
pub open spec fn entry(quote: Option<Mark>) -> LexMode {
    if quote.is_some() {
        LexMode::Text
    } else {
        LexMode::Code
    }
}

/// The text holds no line feed.
pub open spec fn no_feed(s: Seq<char>) -> bool {
    forall|j: int| 0 <= j < s.len() ==> s[j] != '\n'
}

/// The number of closers in a line's trail.
pub open spec fn trail_present(lex: Seq<Lexeme>) -> int {
    closers_in(lex, anchor_of(lex), trail_end_of(lex), 0)
}

/// The number of frames that a line's trail has to close.
pub open spec fn trail_need(rule: Rule, follower: Follower, open: Seq<Frame>, lex: Seq<Lexeme>)
    -> int {
    needed(rule, follower, open, trail_present(lex))
}

/// The number of closers of a line's trail that stay.
pub open spec fn trail_kept(rule: Rule, follower: Follower, open: Seq<Frame>, lex: Seq<Lexeme>)
    -> int {
    if trail_need(rule, follower, open, lex) < trail_present(lex) {
        trail_need(rule, follower, open, lex)
    } else {
        trail_present(lex)
    }
}

/// The column at which a line's trail is edited: behind the closers that
/// stay.
pub open spec fn trail_edit(rule: Rule, follower: Follower, open: Seq<Frame>, lex: Seq<Lexeme>)
    -> int {
    if trail_need(rule, follower, open, lex) < trail_present(lex) {
        after_closers(lex, anchor_of(lex), trail_need(rule, follower, open, lex))
    } else {
        trail_end_of(lex)
    }
}

/// What a settled trail looks like: the corrected line is the line with
/// everything between the closers that stay and the end of the trail
/// replaced by the closers that were missing.
pub proof fn lemma_settle_shape(
    set: Setting,
    rule: Rule,
    follower: Follower,
    open: Seq<Frame>,
    lex: Seq<Lexeme>,
    line: Seq<char>,
    k: usize,
    x: int,
    n: int,
)
    requires
        settle(set, rule, follower, open, lex, line, k, x, n) is Done,
        0 <= x <= anchor_of(lex),
        lex.len() == line.len(),
        0 <= n,
    ensures
        ({
            let need = trail_need(rule, follower, open, lex);
            let kept = trail_kept(rule, follower, open, lex);
            let at = trail_edit(rule, follower, open, lex);
            let end = trail_end_of(lex);
            let done = settle(set, rule, follower, open, lex, line, k, x, n);
            &&& 0 <= kept <= need <= open.len()
            &&& anchor_of(lex) <= at <= end <= lex.len()
            &&& check_trail(open, lex, anchor_of(lex), end, 0, kept) is None
            &&& closers_in(lex, anchor_of(lex), at, 0) == kept
            &&& done->out == patched(line, x, n, at, end - at, missing(open, kept, need))
            &&& done->frames == open.take(open.len() - need)
            &&& done->quote == None::<Mark>
            &&& follower == Follower::End ==> need == open.len()
        }),
{
    reveal(settle);
    let anchor = anchor_of(lex);
    let end = trail_end_of(lex);
    let present = trail_present(lex);
    let need = trail_need(rule, follower, open, lex);
    let kept = trail_kept(rule, follower, open, lex);
    lemma_ends_bounded(lex, lex.len() as int);
    lemma_closers_in_bounded(lex, anchor, end, 0);
    match follower {
        Follower::Code(fx) => {
            lemma_pop_count_bounded(open, fx as int);
        },
        _ => {},
    }
    lemma_check_trail_depth(open, lex, anchor, end, 0, kept, 0);
    if need < present {
        lemma_after_closers_count(lex, anchor, end, need);
        assert(missing(open, kept, need) =~= Seq::<DelimKind>::empty());
    } else if need == present {
        lemma_reindented_is_patched(line, x, n, end);
        assert(missing(open, kept, need) =~= Seq::<DelimKind>::empty());
    }
}

/// A trail that holds as many closers as are needed, each of which finds
/// its frame, is left alone.
pub proof fn lemma_settle_even(
    set: Setting,
    rule: Rule,
    follower: Follower,
    open: Seq<Frame>,
    lex: Seq<Lexeme>,
    line: Seq<char>,
    k: usize,
    x: int,
    n: int,
)
    requires
        check_trail(open, lex, anchor_of(lex), trail_end_of(lex), 0, trail_present(lex)) is None,
        needed(rule, follower, open, trail_present(lex)) == trail_present(lex),
    ensures
        ({
            let done = settle(set, rule, follower, open, lex, line, k, x, n);
            &&& done is Done
            &&& done->out == crate::engine::reindented(line, x, n)
            &&& done->frames == open.take(open.len() - trail_present(lex))
            &&& done->quote == None::<Mark>
        }),
{
    reveal(settle);
}

/// The tracker's reading of a corrected line that ends in code.
pub proof fn lemma_corrected_reading(
    frames: Seq<Frame>,
    open: Seq<Frame>,
    lex: Seq<Lexeme>,
    k: usize,
    shift: int,
    x: int,
    n: int,
    at: int,
    kept: int,
    need: int,
)
    requires
        0 <= x <= anchor_of(lex) <= at <= trail_end_of(lex) <= lex.len(),
        0 <= n,
        forall|j: int| 0 <= j < x ==> lex[j] == Lexeme::Blank,
        walk(frames, lex, 0, anchor_of(lex), k, shift) == Ok::<Seq<Frame>, (crate::error::ErrorKind, int)>(open),
        forall|j: int|
            anchor_of(lex) <= j < trail_end_of(lex) ==> (#[trigger] lex[j] == Lexeme::Blank
                || lex[j] is Close),
        forall|j: int|
            trail_end_of(lex) <= j < lex.len() ==> (#[trigger] lex[j] == Lexeme::Blank || lex[j]
                == Lexeme::Remark),
        0 <= kept <= need <= open.len(),
        check_trail(open, lex, anchor_of(lex), trail_end_of(lex), 0, kept) is None,
        closers_in(lex, anchor_of(lex), at, 0) == kept,
    ensures
        nest(
            kinds_of(frames),
            blanks(n) + lex.subrange(x, at) + closes(missing(open, kept, need)) + lex.skip(
                trail_end_of(lex),
            ),
            0,
        ) == Some(kinds_of(open.take(open.len() - need))),
{
    let anchor = anchor_of(lex);
    let end = trail_end_of(lex);
    let k0 = kinds_of(frames);
    let added = closes(missing(open, kept, need));
    let tail = lex.skip(end);
    let y = lex.subrange(x, at) + added + tail;
    let o = blanks(n) + lex.subrange(x, at) + added + tail;
    let s = lex.take(at) + added + tail;
    // Leading blanks do not count.
    assert(o =~= blanks(n) + y);
    lemma_nest_concat(k0, blanks(n), y, 0);
    lemma_nest_gaps(k0, blanks(n), 0, n);
    assert(s =~= lex.take(x) + y);
    lemma_nest_concat(k0, lex.take(x), y, 0);
    lemma_nest_gaps(k0, lex.take(x), 0, x);
    assert(nest(k0, o, 0) == nest(k0, s, 0));
    // The code before the trail.
    lemma_walk_nests(frames, lex, s, 0, anchor, k, shift);
    // The closers that stay.
    assert(open.take(open.len() as int) =~= open);
    lemma_trail_nests(open, lex, s, anchor, at, end, 0, kept);
    // The closers that were inserted, and what follows the trail.
    let kk = kinds_of(open.take(open.len() - kept));
    assert(s =~= lex.take(at) + (added + tail));
    lemma_nest_shift(kk, lex.take(at), added + tail, 0);
    lemma_nest_concat(kk, added, tail, 0);
    lemma_missing_nests(open, kept, need, 0);
    let left = kinds_of(open.take(open.len() - need));
    lemma_nest_gaps(left, tail, 0, tail.len() as int);
}

/// What a step that went through is to the tracker: read with the families
/// of `frames` open, the corrected line leaves those of `next` open, and it
/// ends in a string exactly if `mark` says so.
pub open spec fn reads_as(
    syn: Syntax,
    frames: Seq<Frame>,
    quote: Option<Mark>,
    out: Seq<char>,
    next: Seq<Frame>,
    mark: Option<Mark>,
) -> bool {
    &&& nest(kinds_of(frames), lexemes(syn, out, entry(quote)), 0) == Some(kinds_of(next))
    &&& carry(end_mode(syn, out, entry(quote))) == entry(mark)
}

/// A line that was corrected by `work` reads as the engine read it.
pub proof fn lemma_work_reads(
    set: Setting,
    rule: Rule,
    follower: Follower,
    frames: Seq<Frame>,
    quote: Option<Mark>,
    line: Seq<char>,
    k: usize,
    x: int,
    n: int,
)
    requires
        work(set, rule, follower, frames, quote, line, k, x, n) is Done,
        0 <= n,
        quote.is_some() ==> x == 0 && n == 0,
        quote.is_none() ==> x == indent_of(set.syn, line) && !is_idle(set.syn, line),
    ensures
        ({
            let done = work(set, rule, follower, frames, quote, line, k, x, n);
            &&& reads_as(set.syn, frames, quote, done->out, done->frames, done->quote)
            &&& (done->quote.is_none() && follower == Follower::End ==> done->frames.len() == 0)
            &&& (no_feed(line) ==> no_feed(done->out))
        }),
{
    let syn = set.syn;
    let start = entry(quote);
    let lex = lexemes(syn, line, start);
    let anchor = anchor_of(lex);
    let end = trail_end_of(lex);
    let shift = n - x;
    let open = walk(frames, lex, 0, anchor, k, shift)->Ok_0;
    let done = work(set, rule, follower, frames, quote, line, k, x, n);
    lemma_ends_bounded(lex, lex.len() as int);
    if quote.is_none() {
        lemma_indent_from(syn, line, 0);
        crate::lexer::lemma_blank_prefix(syn, line, x);
        assert(crate::engine::is_solid_or_close(lex[x]));
        crate::analyzer::lemma_anchor_past_indent(lex, x);
    }
    assert(forall|j: int| 0 <= j < x ==> lex[j] == Lexeme::Blank);
    if ends_in_code(syn, line, start) {
        lemma_trail_region(syn, line, start);
        lemma_settle_shape(set, rule, follower, open, lex, line, k, x, n);
        let need = trail_need(rule, follower, open, lex);
        let kept = trail_kept(rule, follower, open, lex);
        let at = trail_edit(rule, follower, open, lex);
        let added = missing(open, kept, need);
        lemma_patched_lexemes(syn, line, start, x, n, at, end - at, added);
        lemma_corrected_reading(frames, open, lex, k, shift, x, n, at, kept, need);
        lemma_patched_feed(line, x, n, at, end - at, added);
    } else {
        lemma_string_end_anchor(syn, line, start);
        lemma_reindented_is_patched(line, x, n, line.len() as int);
        let none = Seq::<DelimKind>::empty();
        lemma_patched_lexemes(syn, line, start, x, n, line.len() as int, 0, none);
        lemma_patched_feed(line, x, n, line.len() as int, 0, none);
        let o = lexemes(syn, done->out, start);
        assert(o =~= blanks(n) + lex.skip(x));
        let k0 = kinds_of(frames);
        lemma_nest_concat(k0, blanks(n), lex.skip(x), 0);
        lemma_nest_gaps(k0, blanks(n), 0, n);
        assert(lex =~= lex.take(x) + lex.skip(x));
        lemma_nest_concat(k0, lex.take(x), lex.skip(x), 0);
        lemma_nest_gaps(k0, lex.take(x), 0, x);
        lemma_walk_nests(frames, lex, lex, 0, anchor, k, shift);
        if crate::lexer::quote_at(syn, line, start, line.len() as int).is_none() {
            lemma_string_from_before(syn, line, start, line.len() as int);
        }
    }
}

/// A corrected line holds no line feed if the line held none.
pub proof fn lemma_patched_feed(
    line: Seq<char>,
    x: int,
    n: int,
    at: int,
    removed: int,
    added: Seq<DelimKind>,
)
    requires
        0 <= x <= at,
        0 <= removed,
        at + removed <= line.len(),
        0 <= n,
    ensures
        no_feed(line) ==> no_feed(patched(line, x, n, at, removed, added)),
{
    let out = patched(line, x, n, at, removed, added);
    if no_feed(line) {
        assert forall|j: int| 0 <= j < out.len() implies out[j] != '\n' by {
            let p = crate::engine::indent_part(line, x, n);
            if j < n {
                assert(out[j] == p[j]);
            } else if j < n + (at - x) {
                assert(out[j] == line[j - n + x]);
            } else if j < n + (at - x) + added.len() {
                assert(out[j] == crate::syntax::closer_of(added[j - n - (at - x)]));
            } else {
                assert(out[j] == line[j - n - (at - x) - added.len() + at + removed]);
            }
        }
    }
}

/// Every step that goes through reads as the engine read it.
pub proof fn lemma_step_reads(
    set: Setting,
    rule: Rule,
    follower: Follower,
    frames: Seq<Frame>,
    quote: Option<Mark>,
    line: Seq<char>,
    k: usize,
)
    requires
        step(set, rule, follower, frames, quote, line, k) is Done,
    ensures
        ({
            let done = step(set, rule, follower, frames, quote, line, k);
            &&& reads_as(set.syn, frames, quote, done->out, done->frames, done->quote)
            &&& (no_feed(line) ==> no_feed(done->out))
            &&& if quote.is_none() && is_idle(set.syn, line) {
                done->frames == frames && done->quote == quote
            } else {
                done->quote.is_none() && follower == Follower::End ==> done->frames.len() == 0
            }
        }),
{
    let syn = set.syn;
    if quote.is_some() {
        lemma_work_reads(set, rule, follower, frames, quote, line, k, 0, 0);
    } else if is_idle(syn, line) {
        lemma_idle_scan(syn, line);
        let lex = lexemes(syn, line, LexMode::Code);
        lemma_nest_gaps(kinds_of(frames), lex, 0, lex.len() as int);
    } else {
        let x = indent_of(syn, line);
        let n = target_indent(rule, frames, x);
        lemma_indent_from(syn, line, 0);
        lemma_work_reads(set, rule, follower, frames, quote, line, k, x, n);
    }
}

/// A run that goes through from line `k` on leaves lines that the tracker
/// reads, from line `k` on, down to nothing open.
pub proof fn lemma_run_reads(
    set: Setting,
    plan: Plan,
    lines: Seq<Seq<char>>,
    k: int,
    frames: Seq<Frame>,
    quote: Option<Mark>,
    outs: Seq<Seq<char>>,
    notes: Seq<Note>,
)
    requires
        0 <= k <= lines.len(),
        outs.len() == k,
        run_from(set, plan, lines, k, frames, quote, outs, notes) is Done,
        quote.is_none() && follower_of(set.syn, lines, k) == Follower::End ==> frames.len() == 0,
        forall|j: int| 0 <= j < lines.len() ==> no_feed(#[trigger] lines[j]),
        forall|j: int| 0 <= j < k ==> no_feed(#[trigger] outs[j]),
    ensures
        ({
            let fin = run_from(set, plan, lines, k, frames, quote, outs, notes)->outs;
            &&& fin.len() == lines.len()
            &&& fin.take(k) == outs
            &&& nest_lines(set.syn, fin, k, entry(quote), kinds_of(frames)) == Some(
                (LexMode::Code, Seq::<DelimKind>::empty()),
            )
            &&& forall|j: int| 0 <= j < fin.len() ==> no_feed(#[trigger] fin[j])
        }),
    decreases lines.len() - k,
{
    let fin = run_from(set, plan, lines, k, frames, quote, outs, notes)->outs;
    if k >= lines.len() {
        assert(fin.take(k) =~= outs);
        assert(kinds_of(frames) =~= Seq::<DelimKind>::empty());
    } else {
        let follower = follower_of(set.syn, lines, k + 1);
        let done = step(set, rule_of(plan, k), follower, frames, quote, lines[k], k as usize);
        lemma_step_reads(set, rule_of(plan, k), follower, frames, quote, lines[k], k as usize);
        let outs2 = outs.push(done->out);
        assert forall|j: int| 0 <= j < k + 1 implies no_feed(#[trigger] outs2[j]) by {
            if j < k {
                assert(outs2[j] == outs[j]);
            }
        }
        lemma_run_reads(
            set,
            plan,
            lines,
            k + 1,
            done->frames,
            done->quote,
            outs2,
            notes.push(done->note),
        );
        assert(fin.take(k + 1) == outs2);
        assert(fin[k] == fin.take(k + 1)[k]);
        assert(fin.take(k) =~= outs) by {
            assert forall|j: int| 0 <= j < k implies fin.take(k)[j] == outs[j] by {
                assert(fin.take(k + 1)[j] == outs2[j]);
            }
        }
    }
}

/// The lines that a run leaves of a buffer's lines hold no line feed, and
/// there is one for each of the buffer's lines.
pub proof fn lemma_run_feeds(set: Setting, plan: Plan, lines: Seq<Seq<char>>)
    requires
        crate::text::single_lines(lines),
        crate::run::run(set, plan, lines) is Done,
    ensures
        crate::run::run(set, plan, lines)->outs.len() == lines.len(),
        crate::text::single_lines(crate::run::run(set, plan, lines)->outs),
{
    assert forall|j: int| 0 <= j < lines.len() implies no_feed(#[trigger] lines[j]) by {
        assert forall|i: int| 0 <= i < lines[j].len() implies lines[j][i] != '\n' by {
            assert(lines[j][i] != '\n');
        }
    }
    lemma_run_reads(
        set,
        plan,
        lines,
        0,
        Seq::<Frame>::empty(),
        None,
        Seq::<Seq<char>>::empty(),
        Seq::<Note>::empty(),
    );
    let outs = crate::run::run(set, plan, lines)->outs;
    assert forall|k: int, j: int| 0 <= k < outs.len() && 0 <= j < outs[k].len() implies (
    #[trigger] outs[k][j]) != '\n' by {
        assert(no_feed(outs[k]));
    }
}

} // verus!
