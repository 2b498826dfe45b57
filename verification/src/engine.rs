//! The mode engines, one line at a time.
//!
//! A line is corrected in two respects. Its indentation is trusted or
//! rewritten; its paren trail is trusted or made to fit the indentation of
//! the next line that carries code. Which of the two is trusted is the
//! line's rule.

use vstd::prelude::*;
use crate::analyzer::{
    after_closers, anchor_of, find_close, is_solid, find_trail, first_close, head, head_kind_of, indent_of,
    is_idle, lemma_anchor_past_indent, lemma_indent_from, skip_closers, trail_end_of, Follower,
    HeadKind,
};
use crate::error::ErrorKind;
use crate::lexer::{
    lemma_blank_prefix, lemma_quote_is_solid, lexemes, mode_at, quote_at, scan_line, LexMode,
    Lexeme,
};
use crate::syntax::{closer, closer_of, DelimKind, Syntax};
use crate::tracker::{
    in_string, lemma_reach_bounds, lemma_reach_take, reach, Frame, Mark, Tracker,
};

verus! {

/// Which side of a line is trusted.
#[derive(Clone, Copy, Debug, PartialEq, Eq, Structural)]
pub enum Rule {
    /// The indentation is kept; the paren trail is made to fit the
    /// indentation of the code that follows.
    Indent,
    /// The delimiters are kept; the indentation is rewritten to lie one
    /// column inside the innermost open delimiter.
    Paren,
}

/// What holds for a whole run.
#[derive(Clone, Copy, Debug, PartialEq, Eq, Structural)]
pub struct Setting {
    pub syn: Syntax,
    /// At the end of the buffer, close what is still open rather than fail.
    pub force_balance: bool,
}

/// How one line was changed. Columns are those of the line as it was
/// handed in, but for the trail's, which are those of the corrected line.
#[derive(Clone, Copy, Debug, PartialEq, Eq, Structural)]
pub struct Note {
    pub old_indent: usize,
    pub new_indent: usize,
    /// Where the paren trail was edited.
    pub edit_at: usize,
    /// How many characters were removed there.
    pub removed: usize,
    /// How many closing delimiters were inserted there.
    pub added: usize,
    /// The corrected line's paren trail begins at this column ...
    pub trail_from: usize,
    /// ... and ends before this one.
    pub trail_to: usize,
}

/// A failure, with the column of its cause in the corrected line.
#[derive(Clone, Copy, Debug, PartialEq, Eq, Structural)]
pub struct Fault {
    pub kind: ErrorKind,
    pub line: usize,
    pub x: usize,
    pub out_x: usize,
}

/// What became of one line.
pub enum Step {
    /// The line was corrected to `out`; `frames` and `quote` are open
    /// behind it.
    Done { frames: Seq<Frame>, quote: Option<Mark>, out: Seq<char>, note: Note },
    /// The scan failed on this line, which by then had become `base`.
    Failed { fault: Fault, base: Seq<char> },
}

/// `n` spaces.
pub open spec fn spaces(n: int) -> Seq<char> {
    Seq::new(n as nat, |i: int| ' ')
}

/// The closing characters of the given families.
pub open spec fn closers(kinds: Seq<DelimKind>) -> Seq<char> {
    Seq::new(kinds.len(), |i: int| closer_of(kinds[i]))
}

/// The indentation of a corrected line: the line's own while its width
/// stays, spaces when the width changes.
pub open spec fn indent_part(line: Seq<char>, x: int, n: int) -> Seq<char> {
    if n == x {
        line.take(x)
    } else {
        spaces(n)
    }
}

/// The line with its indentation of width `x` made `n` wide.
pub open spec fn reindented(line: Seq<char>, x: int, n: int) -> Seq<char> {
    indent_part(line, x, n) + line.skip(x)
}

/// The line with its indentation made `n` wide and, at column `at`,
/// `removed` characters replaced by the closers of `added`.
pub open spec fn patched(
    line: Seq<char>,
    x: int,
    n: int,
    at: int,
    removed: int,
    added: Seq<DelimKind>,
) -> Seq<char> {
    indent_part(line, x, n) + line.subrange(x, at) + closers(added) + line.skip(at + removed)
}

/// The indentation that a line gets: its own under `Rule::Indent`; under
/// `Rule::Paren`, one more than that of the innermost open delimiter, and 0
/// where none is open.
pub open spec fn target_indent(rule: Rule, frames: Seq<Frame>, x: int) -> int {
    match rule {
        Rule::Indent => x,
        Rule::Paren => if frames.len() == 0 {
            0
        } else {
            frames.last().indent + 1
        },
    }
}

/// The frames open after the columns `i..to` of line `k` were read with
/// `frames` open: each opener pushes, each closer pops a frame of its
/// family. Fails at the first closer that finds no such frame on top, and at
/// the first character with more than one role.
pub open spec fn walk(frames: Seq<Frame>, lex: Seq<Lexeme>, i: int, to: int, k: usize, shift: int)
    -> Result<Seq<Frame>, (ErrorKind, int)>
    decreases to - i,
{
    if i < 0 || i >= to || i >= lex.len() {
        Ok(frames)
    } else {
        match lex[i] {
            Lexeme::Open(kind) => walk(
                frames.push(Frame { kind, line: k, x: i as usize, indent: (i + shift) as usize }),
                lex,
                i + 1,
                to,
                k,
                shift,
            ),
            Lexeme::Close(kind) => if frames.len() > 0 && frames.last().kind == kind {
                walk(frames.drop_last(), lex, i + 1, to, k, shift)
            } else {
                Err((ErrorKind::UnmatchedCloseDelimiter, i))
            },
            Lexeme::Bad => Err((ErrorKind::UnhandledCharacter, i)),
            _ => walk(frames, lex, i + 1, to, k, shift),
        }
    }
}

/// The number of closers in the columns `i..to`, added to `acc`.
pub open spec fn closers_in(lex: Seq<Lexeme>, i: int, to: int, acc: int) -> int
    decreases to - i,
{
    if i < 0 || i >= to || i >= lex.len() {
        acc
    } else if lex[i] is Close {
        closers_in(lex, i + 1, to, acc + 1)
    } else {
        closers_in(lex, i + 1, to, acc)
    }
}

/// Holds the closers in the columns `i..to` against the frames, the next
/// closer against the frame below the `depth` innermost, until `kept`
/// closers were held: the column of the first closer that finds no frame of
/// its family, or `None` where each of them finds one.
pub open spec fn check_trail(
    frames: Seq<Frame>,
    lex: Seq<Lexeme>,
    i: int,
    to: int,
    depth: int,
    kept: int,
) -> Option<int>
    decreases to - i,
{
    if i < 0 || i >= to || i >= lex.len() || depth >= kept {
        None
    } else {
        match lex[i] {
            Lexeme::Close(kind) => if 0 <= depth < frames.len() && frames[frames.len() - 1
                - depth].kind == kind {
                check_trail(frames, lex, i + 1, to, depth + 1, kept)
            } else {
                Some(i)
            },
            _ => check_trail(frames, lex, i + 1, to, depth, kept),
        }
    }
}

/// How many of the innermost frames a line indented by `fx` leaves: those
/// on top whose indentation is not below `fx`.
pub open spec fn pop_count(frames: Seq<Frame>, fx: int) -> int
    decreases frames.len(),
{
    if frames.len() == 0 || frames.last().indent < fx {
        0
    } else {
        1 + pop_count(frames.drop_last(), fx)
    }
}

/// How many frames the line's trail has to close. Under `Rule::Indent`:
/// at the end of the buffer, all; before code indented by `fx`, as many as
/// that indentation leaves. Under `Rule::Paren`, and before a line that
/// begins with a closer: as many as the trail holds closers, and all at the
/// end of the buffer where the trail holds fewer.
pub open spec fn needed(rule: Rule, follower: Follower, frames: Seq<Frame>, present: int) -> int {
    match follower {
        Follower::End => match rule {
            Rule::Indent => frames.len() as int,
            Rule::Paren => if present < frames.len() {
                frames.len() as int
            } else {
                present
            },
        },
        Follower::Code(fx) => match rule {
            Rule::Indent => pop_count(frames, fx as int),
            Rule::Paren => present,
        },
        Follower::Closer => present,
    }
}

/// The families of the frames that a trail of `present` closers leaves to
/// close when `need` are to be closed, innermost first.
pub open spec fn missing(frames: Seq<Frame>, present: int, need: int) -> Seq<DelimKind> {
    Seq::new((need - present) as nat, |t: int| frames[frames.len() - 1 - present - t].kind)
}

/// A character of code.
pub open spec fn is_solid_or_close(l: Lexeme) -> bool {
    is_solid(l) || l is Close
}

/// The note of a line whose trail was left alone.
pub open spec fn plain_note(x: int, n: int, at: int, trail_from: int, trail_to: int) -> Note {
    Note {
        old_indent: x as usize,
        new_indent: n as usize,
        edit_at: at as usize,
        removed: 0,
        added: 0,
        trail_from: trail_from as usize,
        trail_to: trail_to as usize,
    }
}

/// Settles the paren trail of a line that ends in code: `open` is what the
/// line's code before the trail left open.
///
/// Of the trail's closers the first `need` stay, each of which has to find
/// a frame of its family; those behind them are removed. Where the trail
/// holds fewer, the missing ones are inserted behind it; at the end of the
/// buffer only if the setting forces the balance, and else the innermost
/// frame that stays open is reported.
#[verifier::opaque]
pub open spec fn settle(
    set: Setting,
    rule: Rule,
    follower: Follower,
    open: Seq<Frame>,
    lex: Seq<Lexeme>,
    line: Seq<char>,
    k: usize,
    x: int,
    n: int,
) -> Step {
    let anchor = anchor_of(lex);
    let end = trail_end_of(lex);
    let shift = n - x;
    let present = closers_in(lex, anchor, end, 0);
    let need = needed(rule, follower, open, present);
    let kept = if need < present {
        need
    } else {
        present
    };
    match check_trail(open, lex, anchor, end, 0, kept) {
        Some(c) => Step::Failed {
            fault: Fault {
                kind: ErrorKind::UnmatchedCloseDelimiter,
                line: k,
                x: c as usize,
                out_x: (c + shift) as usize,
            },
            base: reindented(line, x, n),
        },
        None => {
            let left = open.take(open.len() - need);
            let from = if kept == 0 {
                anchor + shift
            } else {
                first_close(lex, anchor) + shift
            };
            if need > present {
                if follower == Follower::End && !set.force_balance {
                    let f = open[open.len() - 1 - present];
                    Step::Failed {
                        fault: Fault {
                            kind: ErrorKind::UnclosedDelimiter,
                            line: f.line,
                            x: f.x,
                            out_x: f.indent,
                        },
                        base: reindented(line, x, n),
                    }
                } else {
                    Step::Done {
                        frames: left,
                        quote: None,
                        out: patched(line, x, n, end, 0, missing(open, present, need)),
                        note: Note {
                            old_indent: x as usize,
                            new_indent: n as usize,
                            edit_at: end as usize,
                            removed: 0,
                            added: (need - present) as usize,
                            trail_from: from as usize,
                            trail_to: (end + shift + need - present) as usize,
                        },
                    }
                }
            } else if need < present {
                let cut = after_closers(lex, anchor, need);
                Step::Done {
                    frames: left,
                    quote: None,
                    out: patched(line, x, n, cut, end - cut, Seq::empty()),
                    note: Note {
                        old_indent: x as usize,
                        new_indent: n as usize,
                        edit_at: cut as usize,
                        removed: (end - cut) as usize,
                        added: 0,
                        trail_from: from as usize,
                        trail_to: (cut + shift) as usize,
                    },
                }
            } else {
                Step::Done {
                    frames: left,
                    quote: None,
                    out: reindented(line, x, n),
                    note: plain_note(x, n, end, from, end + shift),
                }
            }
        },
    }
}

/// Corrects a line that carries code or lies in a string: `x` is its
/// indentation and `n` the indentation it gets.
pub open spec fn work(
    set: Setting,
    rule: Rule,
    follower: Follower,
    frames: Seq<Frame>,
    quote: Option<Mark>,
    line: Seq<char>,
    k: usize,
    x: int,
    n: int,
) -> Step {
    let start = if quote.is_some() {
        LexMode::Text
    } else {
        LexMode::Code
    };
    let lex = lexemes(set.syn, line, start);
    let shift = n - x;
    match walk(frames, lex, 0, anchor_of(lex), k, shift) {
        Err((kind, c)) => Step::Failed {
            fault: Fault { kind, line: k, x: c as usize, out_x: (c + shift) as usize },
            base: reindented(line, x, n),
        },
        Ok(open) => {
            let fin = mode_at(set.syn, line, start, line.len() as int);
            if fin == LexMode::Text || fin == LexMode::Escaped {
                Step::Done {
                    frames: open,
                    quote: match quote_at(set.syn, line, start, line.len() as int) {
                        Some(q) => Some(
                            Mark { line: k, x: q as usize, out_x: (q + shift) as usize },
                        ),
                        None => quote,
                    },
                    out: reindented(line, x, n),
                    note: plain_note(
                        x,
                        n,
                        line.len() as int,
                        line.len() + shift,
                        line.len() + shift,
                    ),
                }
            } else {
                settle(set, rule, follower, open, lex, line, k, x, n)
            }
        },
    }
}

/// What becomes of line `k` when it is read with `frames` and `quote` open,
/// under `rule`, with `follower` the next code behind it.
///
/// A line without code that is entered outside a string is left alone. So is
/// every character inside a string. Under `Rule::Paren` a line that begins
/// with a closer while nothing is open fails.
pub open spec fn step(
    set: Setting,
    rule: Rule,
    follower: Follower,
    frames: Seq<Frame>,
    quote: Option<Mark>,
    line: Seq<char>,
    k: usize,
) -> Step {
    if quote.is_some() {
        work(set, rule, follower, frames, quote, line, k, 0, 0)
    } else if is_idle(set.syn, line) {
        let x = indent_of(set.syn, line);
        Step::Done {
            frames,
            quote,
            out: line,
            note: plain_note(x, x, line.len() as int, line.len() as int, line.len() as int),
        }
    } else {
        let x = indent_of(set.syn, line);
        let n = target_indent(rule, frames, x);
        if rule == Rule::Paren && head_kind_of(set.syn, line) == HeadKind::Closer && frames.len()
            == 0 {
            Step::Failed {
                fault: Fault {
                    kind: ErrorKind::LeadingCloseParen,
                    line: k,
                    x: x as usize,
                    out_x: n as usize,
                },
                base: reindented(line, x, n),
            }
        } else {
            work(set, rule, follower, frames, quote, line, k, x, n)
        }
    }
}

/// The note accounts for the corrected line: `out` is `line` with its
/// indentation replaced and, at the place of the edit, `removed` characters
/// taken out or `added` others put in; the rest is untouched. Where the
/// indentation changed, the edit lies behind it and does not touch it.
#[verifier::opaque]
pub open spec fn explains(line: Seq<char>, out: Seq<char>, note: Note) -> bool {
    let x = note.old_indent as int;
    let n = note.new_indent as int;
    let at = note.edit_at as int;
    let rem = note.removed as int;
    let add = note.added as int;
    &&& x <= at
    &&& (x != n ==> x < at)
    &&& (rem == 0 || add == 0)
    &&& at + rem <= line.len()
    &&& out.len() == n + (at - x) + add + (line.len() - at - rem)
    &&& out.take(n) == indent_part(line, x, n)
    &&& out.subrange(n, n + at - x) == line.subrange(x, at)
    &&& out.skip(n + at - x + add) == line.skip(at + rem)
}

/// The parts of a patched line: its indentation, the line from its old
/// indentation to the edit, the closers that were put in, and the line
/// behind what was taken out.
pub proof fn lemma_patched_shape(
    line: Seq<char>,
    x: int,
    n: int,
    at: int,
    removed: int,
    added: Seq<DelimKind>,
)
    requires
        0 <= x <= at,
        0 <= removed,
        at + removed <= line.len(),
        0 <= n,
    ensures
        ({
            let out = patched(line, x, n, at, removed, added);
            &&& out.len() == n + (at - x) + added.len() + (line.len() - at - removed)
            &&& out.take(n) == indent_part(line, x, n)
            &&& out.subrange(n, n + at - x) == line.subrange(x, at)
            &&& out.subrange(n + at - x, n + at - x + added.len()) == closers(added)
            &&& out.skip(n + at - x + added.len()) == line.skip(at + removed)
        }),
{
    let out = patched(line, x, n, at, removed, added);
    assert(indent_part(line, x, n).len() == n);
    assert(out.take(n) =~= indent_part(line, x, n));
    assert(out.subrange(n, n + at - x) =~= line.subrange(x, at));
    assert(out.subrange(n + at - x, n + at - x + added.len()) =~= closers(added));
    assert(out.skip(n + at - x + added.len()) =~= line.skip(at + removed));
}

/// A note that says how a line was patched accounts for the patched line.
pub proof fn lemma_explains_patched(
    line: Seq<char>,
    out: Seq<char>,
    note: Note,
    added: Seq<DelimKind>,
)
    requires
        note.old_indent <= note.edit_at,
        note.old_indent != note.new_indent ==> note.old_indent < note.edit_at,
        note.removed == 0 || note.added == 0,
        note.edit_at + note.removed <= line.len(),
        note.added == added.len(),
        out == patched(
            line,
            note.old_indent as int,
            note.new_indent as int,
            note.edit_at as int,
            note.removed as int,
            added,
        ),
    ensures
        explains(line, out, note),
{
    reveal(explains);
    lemma_patched_shape(
        line,
        note.old_indent as int,
        note.new_indent as int,
        note.edit_at as int,
        note.removed as int,
        added,
    );
}

/// To indent a line anew is to patch it without an edit, wherever the edit
/// is said to lie.
pub proof fn lemma_reindented_is_patched(line: Seq<char>, x: int, n: int, at: int)
    requires
        0 <= x <= at <= line.len(),
        0 <= n,
    ensures
        reindented(line, x, n) == patched(line, x, n, at, 0, Seq::empty()),
{
    assert(closers(Seq::<DelimKind>::empty()) =~= Seq::<char>::empty());
    assert(line.subrange(x, at) + line.skip(at) =~= line.skip(x));
    assert(reindented(line, x, n) =~= patched(line, x, n, at, 0, Seq::empty()));
}

/// An indentation leaves no more frames than there are.
pub proof fn lemma_pop_count_bounded(frames: Seq<Frame>, fx: int)
    ensures
        0 <= pop_count(frames, fx) <= frames.len(),
    decreases frames.len(),
{
    if frames.len() > 0 && frames.last().indent >= fx {
        lemma_pop_count_bounded(frames.drop_last(), fx);
    }
}

/// Counting closers takes nothing from the count so far.
pub proof fn lemma_closers_in_bounded(lex: Seq<Lexeme>, i: int, to: int, acc: int)
    ensures
        closers_in(lex, i, to, acc) >= acc,
    decreases to - i,
{
    if !(i < 0 || i >= to || i >= lex.len()) {
        if lex[i] is Close {
            lemma_closers_in_bounded(lex, i + 1, to, acc + 1);
        } else {
            lemma_closers_in_bounded(lex, i + 1, to, acc);
        }
    }
}

/// Where `kept` closers of a trail were held against the frames and each
/// found one, there are at least `kept` frames.
pub proof fn lemma_check_trail_depth(
    frames: Seq<Frame>,
    lex: Seq<Lexeme>,
    i: int,
    to: int,
    depth: int,
    kept: int,
    acc: int,
)
    requires
        0 <= depth <= frames.len(),
        check_trail(frames, lex, i, to, depth, kept) is None,
        kept - depth <= closers_in(lex, i, to, acc) - acc,
    ensures
        kept <= frames.len(),
    decreases to - i,
{
    if !(i < 0 || i >= to || i >= lex.len() || depth >= kept) {
        match lex[i] {
            Lexeme::Close(kind) => {
                lemma_check_trail_depth(frames, lex, i + 1, to, depth + 1, kept, acc + 1);
            },
            _ => {
                lemma_check_trail_depth(frames, lex, i + 1, to, depth, kept, acc);
            },
        }
    }
}

/// A trail that holds `p` closers holds the first `count` of them, for
/// every `count` up to `p`, before its end.
pub proof fn lemma_cut_in_trail(lex: Seq<Lexeme>, i: int, to: int, acc: int, count: int)
    requires
        0 <= i <= to <= lex.len(),
        0 <= count <= closers_in(lex, i, to, acc) - acc,
    ensures
        i <= after_closers(lex, i, count) <= to,
    decreases to - i,
{
    if count > 0 && i < to {
        if lex[i] is Close {
            lemma_cut_in_trail(lex, i + 1, to, acc + 1, count - 1);
        } else {
            lemma_cut_in_trail(lex, i + 1, to, acc, count);
        }
    }
}

fn append_range(out: &mut Vec<char>, line: &Vec<char>, from: usize, to: usize)
    requires
        from <= to <= line@.len(),
    ensures
        final(out)@ == old(out)@ + line@.subrange(from as int, to as int),
{
    let ghost before = out@;
    let mut i: usize = from;
    while i < to
        invariant
            from <= i <= to <= line@.len(),
            out@ == before + line@.subrange(from as int, i as int),
        decreases to - i,
    {
        out.push(line[i]);
        assert(line@.subrange(from as int, i + 1) =~= line@.subrange(from as int, i as int).push(
            line@[i as int],
        ));
        i = i + 1;
    }
}

fn append_spaces(out: &mut Vec<char>, n: usize)
    ensures
        final(out)@ == old(out)@ + spaces(n as int),
{
    let ghost before = out@;
    let mut i: usize = 0;
    while i < n
        invariant
            i <= n,
            out@ == before + spaces(i as int),
        decreases n - i,
    {
        out.push(' ');
        assert(spaces(i + 1) =~= spaces(i as int).push(' '));
        i = i + 1;
    }
}

/// Builds the corrected line.
fn patch(
    line: &Vec<char>,
    x: usize,
    n: usize,
    at: usize,
    removed: usize,
    frames: &Vec<Frame>,
    present: usize,
    need: usize,
) -> (out: Vec<char>)
    requires
        x <= at,
        at + removed <= line@.len(),
        present <= need <= frames@.len(),
    ensures
        out@ == patched(
            line@,
            x as int,
            n as int,
            at as int,
            removed as int,
            missing(frames@, present as int, need as int),
        ),
        out@.len() == n + (at - x) + (need - present) + (line@.len() - at - removed),
{
    let mut out: Vec<char> = Vec::new();
    if n == x {
        append_range(&mut out, line, 0, x);
        assert(out@ =~= line@.take(x as int));
    } else {
        append_spaces(&mut out, n);
        assert(out@ =~= spaces(n as int));
    }
    append_range(&mut out, line, x, at);
    let ghost head = out@;
    let ghost add = missing(frames@, present as int, need as int);
    let mut t: usize = 0;
    while t < need - present
        invariant
            t <= need - present,
            present <= need <= frames@.len(),
            at + removed <= line@.len(),
            add == missing(frames@, present as int, need as int),
            out@ == head + closers(add.take(t as int)),
        decreases need - present - t,
    {
        let f = frames[frames.len() - 1 - present - t];
        out.push(closer(f.kind));
        assert(closers(add.take(t + 1)) =~= closers(add.take(t as int)).push(closer_of(f.kind)));
        t = t + 1;
    }
    assert(add.take(add.len() as int) =~= add);
    let total = line.len();
    assert(at + removed <= total);
    append_range(&mut out, line, at + removed, total);
    assert(line@.subrange(at + removed, line@.len() as int) =~= line@.skip(at + removed));
    out
}

/// Builds the line with its indentation made `n` wide.
fn reindent(line: &Vec<char>, x: usize, n: usize) -> (out: Vec<char>)
    requires
        x <= line@.len(),
    ensures
        out@ == reindented(line@, x as int, n as int),
        out@.len() == n + line@.len() - x,
{
    let none: Vec<Frame> = Vec::new();
    let out = patch(line, x, n, line.len(), 0, &none, 0, 0);
    assert(closers(missing(none@, 0, 0)) =~= Seq::<char>::empty());
    assert(line@.skip(line@.len() as int) =~= Seq::<char>::empty());
    assert(line@.subrange(x as int, line@.len() as int) =~= line@.skip(x as int));
    assert(out@ =~= reindented(line@, x as int, n as int));
    out
}

/// Reads the columns before `to` of line `k`: openers push, closers pop.
fn walk_line(
    tracker: &mut Tracker,
    lex: &Vec<Lexeme>,
    to: usize,
    k: usize,
    x: usize,
    n: usize,
) -> (r: Result<(), (ErrorKind, usize)>)
    requires
        to <= lex@.len(),
        forall|j: int| 0 <= j < x && j < lex@.len() ==> lex@[j] == Lexeme::Blank,
        to + n - x <= usize::MAX,
    ensures
        final(tracker).quote == old(tracker).quote,
        match walk(old(tracker).frames@, lex@, 0, to as int, k, n as int - x as int) {
            Ok(frames) => r is Ok && final(tracker).frames@ == frames,
            Err((kind, c)) => r == Err::<(), (ErrorKind, usize)>((kind, c as usize)) && 0 <= c < to
                && lex@[c] != Lexeme::Blank,
        },
        reach(final(tracker).frames@) <= reach(old(tracker).frames@) || reach(
            final(tracker).frames@,
        ) <= to + n - x,
{
    let ghost start = tracker.frames@;
    let ghost shift = n as int - x as int;
    let mut i: usize = 0;
    while i < to
        invariant
            i <= to <= lex@.len(),
            forall|j: int| 0 <= j < x && j < lex@.len() ==> lex@[j] == Lexeme::Blank,
            to + n - x <= usize::MAX,
            shift == n as int - x as int,
            start == old(tracker).frames@,
            tracker.quote == old(tracker).quote,
            walk(start, lex@, 0, to as int, k, shift) == walk(
                tracker.frames@,
                lex@,
                i as int,
                to as int,
                k,
                shift,
            ),
            reach(tracker.frames@) <= reach(start) || reach(tracker.frames@) <= to + n - x,
        decreases to - i,
    {
        let ghost before = tracker.frames@;
        match lex[i] {
            Lexeme::Open(kind) => {
                assert(i >= x);
                let frame = Frame { kind, line: k, x: i, indent: i - x + n };
                tracker.push_frame(frame);
                assert(before.push(frame).drop_last() =~= before);
            },
            Lexeme::Close(kind) => {
                match tracker.pop_frame(kind) {
                    Ok(_) => {},
                    Err(e) => {
                        return Err((e, i));
                    },
                }
            },
            Lexeme::Bad => {
                return Err((ErrorKind::UnhandledCharacter, i));
            },
            _ => {},
        }
        i = i + 1;
    }
    Ok(())
}

/// Counts the trail's closers.
fn count_closers(lex: &Vec<Lexeme>, from: usize, to: usize) -> (r: usize)
    requires
        from <= to <= lex@.len(),
    ensures
        r as int == closers_in(lex@, from as int, to as int, 0),
        r <= to - from,
{
    let mut count: usize = 0;
    let mut i: usize = from;
    while i < to
        invariant
            from <= i <= to <= lex@.len(),
            count <= i - from,
            closers_in(lex@, from as int, to as int, 0) == closers_in(
                lex@,
                i as int,
                to as int,
                count as int,
            ),
        decreases to - i,
    {
        match lex[i] {
            Lexeme::Close(_) => {
                count = count + 1;
            },
            _ => {},
        }
        i = i + 1;
    }
    count
}

/// Holds the first `kept` closers of the trail against the open frames.
fn check_closers(frames: &Vec<Frame>, lex: &Vec<Lexeme>, from: usize, to: usize, kept: usize) -> (r:
    Option<usize>)
    requires
        from <= to <= lex@.len(),
    ensures
        match check_trail(frames@, lex@, from as int, to as int, 0, kept as int) {
            Some(c) => r == Some(c as usize) && from <= c < to && lex@[c] is Close,
            None => r.is_none(),
        },
{
    let mut depth: usize = 0;
    let mut i: usize = from;
    while i < to && depth < kept
        invariant
            from <= i <= to <= lex@.len(),
            depth <= frames@.len(),
            check_trail(frames@, lex@, from as int, to as int, 0, kept as int) == check_trail(
                frames@,
                lex@,
                i as int,
                to as int,
                depth as int,
                kept as int,
            ),
        decreases to - i,
    {
        match lex[i] {
            Lexeme::Close(kind) => {
                if depth < frames.len() && frames[frames.len() - 1 - depth].kind == kind {
                    depth = depth + 1;
                } else {
                    return Some(i);
                }
            },
            _ => {},
        }
        i = i + 1;
    }
    None
}

/// Counts the frames that a line indented by `fx` leaves.
fn count_pops(frames: &Vec<Frame>, fx: usize) -> (c: usize)
    ensures
        c as int == pop_count(frames@, fx as int),
        c <= frames@.len(),
{
    let mut c: usize = 0;
    assert(frames@.take(frames@.len() as int) =~= frames@);
    while c < frames.len() && frames[frames.len() - 1 - c].indent >= fx
        invariant
            c <= frames@.len(),
            pop_count(frames@, fx as int) == c + pop_count(
                frames@.take(frames@.len() - c),
                fx as int,
            ),
        decreases frames@.len() - c,
    {
        assert(frames@.take(frames@.len() - c).drop_last() =~= frames@.take(
            frames@.len() - c - 1,
        ));
        c = c + 1;
    }
    c
}

/// Settles the paren trail of a line that ends in code.
fn settle_line(
    set: &Setting,
    rule: Rule,
    follower: Follower,
    tracker: &mut Tracker,
    lex: &Vec<Lexeme>,
    line: &Vec<char>,
    k: usize,
    x: usize,
    n: usize,
) -> (r: Result<(Vec<char>, Note), (Fault, Vec<char>)>)
    requires
        lex@.len() == line@.len(),
        x <= anchor_of(lex@),
        x != n ==> x < anchor_of(lex@),
        line@.len() + n - x <= usize::MAX,
    ensures
        match settle(*set, rule, follower, old(tracker).frames@, lex@, line@, k, x as int, n as int) {
            Step::Done { frames, quote, out, note } => r is Ok && r->Ok_0.0@ == out && r->Ok_0.1
                == note && final(tracker).frames@ == frames && final(tracker).quote == quote,
            Step::Failed { fault, base } => r is Err && r->Err_0.0 == fault && r->Err_0.1@ == base,
        },
        reach(final(tracker).frames@) <= reach(old(tracker).frames@),
        r is Ok ==> explains(line@, r->Ok_0.0@, r->Ok_0.1),
{
    proof {
        reveal(settle);
    }
    let ghost open = tracker.frames@;
    let trail = find_trail(lex);
    let anchor = trail.anchor;
    let end = trail.end;
    tracker.quote = None;
    let present = count_closers(lex, anchor, end);
    let depth = tracker.frames.len();
    let need = match follower {
        Follower::End => match rule {
            Rule::Indent => depth,
            Rule::Paren => if present < depth {
                depth
            } else {
                present
            },
        },
        Follower::Code(fx) => match rule {
            Rule::Indent => count_pops(&tracker.frames, fx),
            Rule::Paren => present,
        },
        Follower::Closer => present,
    };
    assert(need as int == needed(rule, follower, open, present as int));
    let kept = if need < present {
        need
    } else {
        present
    };
    match check_closers(&tracker.frames, lex, anchor, end, kept) {
        Some(c) => {
            let base = reindent(line, x, n);
            return Err(
                (
                    Fault {
                        kind: ErrorKind::UnmatchedCloseDelimiter,
                        line: k,
                        x: c,
                        out_x: c - x + n,
                    },
                    base,
                ),
            );
        },
        None => {},
    }
    proof {
        lemma_check_trail_depth(open, lex@, anchor as int, end as int, 0, kept as int, 0);
        lemma_pop_count_bounded(open, 0);
    }
    assert(need <= depth);
    let from = if kept == 0 {
        anchor - x + n
    } else {
        find_close(lex, anchor) - x + n
    };
    proof {
        lemma_reach_take(open, depth - need);
    }
    if need > present {
        let at_end = match follower {
            Follower::End => true,
            _ => false,
        };
        if at_end && !set.force_balance {
            let f = tracker.frames[depth - 1 - present];
            let base = reindent(line, x, n);
            return Err(
                (
                    Fault {
                        kind: ErrorKind::UnclosedDelimiter,
                        line: f.line,
                        x: f.x,
                        out_x: f.indent,
                    },
                    base,
                ),
            );
        }
        let out = patch(line, x, n, end, 0, &tracker.frames, present, need);
        let width = out.len();
        tracker.frames.truncate(depth - need);
        let note = Note {
            old_indent: x,
            new_indent: n,
            edit_at: end,
            removed: 0,
            added: need - present,
            trail_from: from,
            trail_to: end - x + n + (need - present),
        };
        proof {
            lemma_explains_patched(line@, out@, note, missing(open, present as int, need as int));
        }
        Ok((out, note))
    } else if need < present {
        let cut = skip_closers(lex, anchor, need);
        proof {
            lemma_cut_in_trail(lex@, anchor as int, end as int, 0, need as int);
        }
        let none: Vec<Frame> = Vec::new();
        let out = patch(line, x, n, cut, end - cut, &none, 0, 0);
        assert(missing(none@, 0, 0) =~= Seq::<DelimKind>::empty());
        tracker.frames.truncate(depth - need);
        let note = Note {
            old_indent: x,
            new_indent: n,
            edit_at: cut,
            removed: end - cut,
            added: 0,
            trail_from: from,
            trail_to: cut - x + n,
        };
        proof {
            lemma_explains_patched(line@, out@, note, Seq::<DelimKind>::empty());
        }
        Ok((out, note))
    } else {
        let out = reindent(line, x, n);
        tracker.frames.truncate(depth - need);
        let note = Note {
            old_indent: x,
            new_indent: n,
            edit_at: end,
            removed: 0,
            added: 0,
            trail_from: from,
            trail_to: end - x + n,
        };
        proof {
            lemma_reindented_is_patched(line@, x as int, n as int, end as int);
            lemma_explains_patched(line@, out@, note, Seq::<DelimKind>::empty());
        }
        Ok((out, note))
    }
}

/// Corrects a line that carries code or lies in a string.
fn work_line(
    set: &Setting,
    rule: Rule,
    follower: Follower,
    tracker: &mut Tracker,
    line: &Vec<char>,
    k: usize,
    x: usize,
    n: usize,
) -> (r: Result<(Vec<char>, Note), (Fault, Vec<char>)>)
    requires
        old(tracker).quote.is_some() ==> x == 0 && n == 0,
        old(tracker).quote.is_none() ==> x as int == indent_of(set.syn, line@) && !is_idle(
            set.syn,
            line@,
        ),
        line@.len() + n - x <= usize::MAX,
    ensures
        match work(
            *set,
            rule,
            follower,
            old(tracker).frames@,
            old(tracker).quote,
            line@,
            k,
            x as int,
            n as int,
        ) {
            Step::Done { frames, quote, out, note } => r is Ok && r->Ok_0.0@ == out && r->Ok_0.1
                == note && final(tracker).frames@ == frames && final(tracker).quote == quote,
            Step::Failed { fault, base } => r is Err && r->Err_0.0 == fault && r->Err_0.1@ == base,
        },
        reach(final(tracker).frames@) <= reach(old(tracker).frames@) || reach(
            final(tracker).frames@,
        ) <= line@.len() + n - x,
        r is Ok ==> explains(line@, r->Ok_0.0@, r->Ok_0.1),
{
    let in_text = tracker.is_in_string();
    let total = line.len();
    let start = if in_text {
        LexMode::Text
    } else {
        LexMode::Code
    };
    let scan = scan_line(&set.syn, line, start);
    let trail = find_trail(&scan.lexemes);
    let anchor = trail.anchor;
    let ghost lex = scan.lexemes@;
    proof {
        if !in_text {
            lemma_indent_from(set.syn, line@, 0);
            lemma_blank_prefix(set.syn, line@, x as int);
            assert(forall|j: int| 0 <= j < x ==> lex[j] == Lexeme::Blank);
            assert(is_solid_or_close(lex[x as int]));
            lemma_anchor_past_indent(lex, x as int);
        }
    }
    match walk_line(tracker, &scan.lexemes, anchor, k, x, n) {
        Err((kind, c)) => {
            let base = reindent(line, x, n);
            return Err((Fault { kind, line: k, x: c, out_x: c - x + n }, base));
        },
        Ok(()) => {},
    }
    if in_string(scan.end) {
        match scan.quote {
            Some(q) => {
                proof {
                    lemma_quote_is_solid(set.syn, line@, start, line@.len() as int);
                }
                tracker.quote = Some(Mark { line: k, x: q, out_x: q - x + n });
            },
            None => {},
        }
        let out = reindent(line, x, n);
        let at = total - x + n;
        let note = Note {
            old_indent: x,
            new_indent: n,
            edit_at: total,
            removed: 0,
            added: 0,
            trail_from: at,
            trail_to: at,
        };
        proof {
            lemma_reindented_is_patched(line@, x as int, n as int, total as int);
            lemma_explains_patched(line@, out@, note, Seq::<DelimKind>::empty());
        }
        return Ok((out, note));
    }
    settle_line(set, rule, follower, tracker, &scan.lexemes, line, k, x, n)
}

/// Corrects line `k` under `rule`, with `follower` the next code behind it,
/// and brings the tracker to the end of the line.
///
/// The indentation of every open frame, and of every frame that this line
/// may open, has to fit the machine's word.
pub fn correct_line(
    set: &Setting,
    rule: Rule,
    follower: Follower,
    tracker: &mut Tracker,
    line: &Vec<char>,
    k: usize,
) -> (r: Result<(Vec<char>, Note), (Fault, Vec<char>)>)
    requires
        reach(old(tracker).frames@) + line@.len() <= usize::MAX,
    ensures
        match step(*set, rule, follower, old(tracker).frames@, old(tracker).quote, line@, k) {
            Step::Done { frames, quote, out, note } => r is Ok && r->Ok_0.0@ == out && r->Ok_0.1
                == note && final(tracker).frames@ == frames && final(tracker).quote == quote,
            Step::Failed { fault, base } => r is Err && r->Err_0.0 == fault && r->Err_0.1@ == base,
        },
        r is Ok ==> reach(final(tracker).frames@) <= reach(old(tracker).frames@) + line@.len(),
        r is Ok ==> explains(line@, r->Ok_0.0@, r->Ok_0.1),
{
    let ghost frames0 = tracker.frames@;
    proof {
        lemma_reach_take(frames0, 0);
        if frames0.len() > 0 {
            lemma_reach_bounds(frames0, frames0.len() - 1);
        }
    }
    if tracker.is_in_string() {
        return work_line(set, rule, follower, tracker, line, k, 0, 0);
    }
    let total = line.len();
    let h = head(&set.syn, line);
    proof {
        lemma_indent_from(set.syn, line@, 0);
    }
    let x = h.x;
    match h.kind {
        HeadKind::Blank | HeadKind::Comment => {
            let mut out: Vec<char> = Vec::new();
            append_range(&mut out, line, 0, total);
            assert(out@ =~= line@);
            let note = Note {
                old_indent: x,
                new_indent: x,
                edit_at: total,
                removed: 0,
                added: 0,
                trail_from: total,
                trail_to: total,
            };
            proof {
                let none = Seq::<DelimKind>::empty();
                assert(closers(none) =~= Seq::<char>::empty());
                assert(line@ =~= patched(line@, x as int, x as int, total as int, 0, none));
                lemma_explains_patched(line@, out@, note, none);
            }
            return Ok((out, note));
        },
        _ => {},
    }
    let n = match rule {
        Rule::Indent => x,
        Rule::Paren => match tracker.current_frame() {
            None => 0,
            Some(f) => f.indent + 1,
        },
    };
    let leading = match h.kind {
        HeadKind::Closer => true,
        _ => false,
    };
    let paren = match rule {
        Rule::Paren => true,
        _ => false,
    };
    if paren && leading && tracker.frames.len() == 0 {
        let base = reindent(line, x, n);
        return Err((Fault { kind: ErrorKind::LeadingCloseParen, line: k, x, out_x: n }, base));
    }
    assert(n - x <= reach(frames0));
    work_line(set, rule, follower, tracker, line, k, x, n)
}

} // verus!
