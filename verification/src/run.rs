//! The three modes over a whole buffer.

use vstd::prelude::*;
use crate::analyzer::{find_follower, follower_of, head, Follower, HeadKind};
use crate::engine::{correct_line, explains, step, Fault, Note, Rule, Setting, Step};
use crate::error::ErrorKind;
use crate::text::{lemma_span_monotone, rows, span};
use crate::tracker::{reach, Frame, Mark, Tracker};

verus! {

/// The correction that a caller asks for.
#[derive(Clone, Copy, Debug, PartialEq, Eq, Structural)]
pub enum Mode {
    /// Indentation is trusted on every line.
    Indent,
    /// Delimiters are trusted on every line.
    Paren,
    /// Delimiters are trusted on the lines before the zone that is being
    /// edited, indentation from there on.
    Smart,
}

/// Which rule each line follows.
#[derive(Clone, Copy, Debug, PartialEq, Eq, Structural)]
pub struct Plan {
    pub mode: Mode,
    /// The first line of the zone that is being edited.
    pub zone_start: usize,
    /// The edit that led to this run touched a delimiter on the zone's first
    /// line: that line's delimiters are trusted.
    pub boundary_paren: bool,
}

/// The rule of line `k`.
pub open spec fn rule_of(plan: Plan, k: int) -> Rule {
    match plan.mode {
        Mode::Indent => Rule::Indent,
        Mode::Paren => Rule::Paren,
        Mode::Smart => if k < plan.zone_start || (k == plan.zone_start && plan.boundary_paren) {
            Rule::Paren
        } else {
            Rule::Indent
        },
    }
}

/// How a run ended.
pub enum Outcome {
    /// Every line was corrected.
    Done { outs: Seq<Seq<char>>, notes: Seq<Note> },
    /// The run failed; `sofar` holds the lines up to the one on which it
    /// failed, as they had become by then.
    Failed { fault: Fault, sofar: Seq<Seq<char>> },
}

/// The run from line `k` on, with `frames` and `quote` open and the lines
/// before `k` corrected to `outs`. A string that is still open at the end is
/// a failure at its opening quote.
pub open spec fn run_from(
    set: Setting,
    plan: Plan,
    lines: Seq<Seq<char>>,
    k: int,
    frames: Seq<Frame>,
    quote: Option<Mark>,
    outs: Seq<Seq<char>>,
    notes: Seq<Note>,
) -> Outcome
    decreases lines.len() - k,
{
    if k < 0 || k >= lines.len() {
        match quote {
            Some(mark) => Outcome::Failed {
                fault: Fault {
                    kind: ErrorKind::UnclosedQuote,
                    line: mark.line,
                    x: mark.x,
                    out_x: mark.out_x,
                },
                sofar: outs,
            },
            None => Outcome::Done { outs, notes },
        }
    } else {
        match step(
            set,
            rule_of(plan, k),
            follower_of(set.syn, lines, k + 1),
            frames,
            quote,
            lines[k],
            k as usize,
        ) {
            Step::Failed { fault, base } => Outcome::Failed { fault, sofar: outs.push(base) },
            Step::Done { frames: open, quote: mark, out, note } => run_from(
                set,
                plan,
                lines,
                k + 1,
                open,
                mark,
                outs.push(out),
                notes.push(note),
            ),
        }
    }
}

/// The run over all lines.
pub open spec fn run(set: Setting, plan: Plan, lines: Seq<Seq<char>>) -> Outcome {
    run_from(set, plan, lines, 0, Seq::empty(), None, Seq::empty(), Seq::empty())
}

/// The lines fit one buffer of the machine.
pub open spec fn fits(lines: Seq<Seq<char>>) -> bool {
    span(lines, lines.len() as int) - 1 <= usize::MAX
}

/// Every line's note accounts for what became of the line.
pub open spec fn accounted(lines: Seq<Seq<char>>, outs: Seq<Seq<char>>, notes: Seq<Note>) -> bool {
    &&& outs.len() == lines.len()
    &&& notes.len() == lines.len()
    &&& forall|j: int|
        0 <= j < lines.len() ==> explains(#[trigger] lines[j], outs[j], notes[j])
}

/// The lines of a run that went through.
pub struct Corrected {
    pub lines: Vec<Vec<char>>,
    pub notes: Vec<Note>,
}

/// A run that failed.
pub struct Stopped {
    pub fault: Fault,
    pub sofar: Vec<Vec<char>>,
}

/// Finds the rule of line `k`.
pub fn rule_for(plan: &Plan, k: usize) -> (rule: Rule)
    ensures
        rule == rule_of(*plan, k as int),
{
    match plan.mode {
        Mode::Indent => Rule::Indent,
        Mode::Paren => Rule::Paren,
        Mode::Smart => if k < plan.zone_start || (k == plan.zone_start && plan.boundary_paren) {
            Rule::Paren
        } else {
            Rule::Indent
        },
    }
}

/// Corrects every line of a buffer.
pub fn correct_lines(set: &Setting, plan: &Plan, lines: &Vec<Vec<char>>) -> (r: Result<
    Corrected,
    Stopped,
>)
    requires
        fits(rows(lines@)),
    ensures
        match run(*set, *plan, rows(lines@)) {
            Outcome::Done { outs, notes } => r is Ok && rows(r->Ok_0.lines@) == outs
                && r->Ok_0.notes@ == notes,
            Outcome::Failed { fault, sofar } => r is Err && r->Err_0.fault == fault && rows(
                r->Err_0.sofar@,
            ) == sofar,
        },
        r is Ok ==> accounted(rows(lines@), rows(r->Ok_0.lines@), r->Ok_0.notes@),
{
    let mut tracker = Tracker::new();
    let mut outs: Vec<Vec<char>> = Vec::new();
    let mut notes: Vec<Note> = Vec::new();
    let mut k: usize = 0;
    assert(rows(outs@) =~= Seq::<Seq<char>>::empty());
    while k < lines.len()
        invariant
            k <= lines.len(),
            fits(rows(lines@)),
            reach(tracker.frames@) + k <= span(rows(lines@), k as int),
            outs@.len() == k,
            notes@.len() == k,
            forall|j: int|
                0 <= j < k ==> explains(
                    #[trigger] rows(lines@)[j],
                    rows(outs@)[j],
                    notes@[j],
                ),
            run(*set, *plan, rows(lines@)) == run_from(
                *set,
                *plan,
                rows(lines@),
                k as int,
                tracker.frames@,
                tracker.quote,
                rows(outs@),
                notes@,
            ),
        decreases lines.len() - k,
    {
        let rule = rule_for(plan, k);
        let line = &lines[k];
        // Only a line that carries code, or lies in a string, looks ahead.
        let busy = tracker.is_in_string() || match head(&set.syn, line).kind {
            HeadKind::Blank => false,
            HeadKind::Comment => false,
            _ => true,
        };
        let follower = if busy {
            find_follower(&set.syn, lines, k + 1)
        } else {
            Follower::End
        };
        let ghost before = rows(outs@);
        proof {
            assert(rows(lines@)[k as int] == line@);
            lemma_span_monotone(rows(lines@), k + 1, lines@.len() as int);
            assert(step(*set, rule, follower, tracker.frames@, tracker.quote, line@, k) == step(
                *set,
                rule,
                follower_of(set.syn, rows(lines@), k + 1),
                tracker.frames@,
                tracker.quote,
                line@,
                k,
            ));
        }
        match correct_line(set, rule, follower, &mut tracker, line, k) {
            Err((fault, base)) => {
                outs.push(base);
                assert(rows(outs@) =~= before.push(base@));
                return Err(Stopped { fault, sofar: outs });
            },
            Ok((out, note)) => {
                let ghost text = out@;
                outs.push(out);
                notes.push(note);
                assert(rows(outs@) =~= before.push(text));
            },
        }
        k = k + 1;
    }
    match tracker.quote {
        Some(mark) => Err(
            Stopped {
                fault: Fault {
                    kind: ErrorKind::UnclosedQuote,
                    line: mark.line,
                    x: mark.x,
                    out_x: mark.out_x,
                },
                sofar: outs,
            },
        ),
        None => Ok(Corrected { lines: outs, notes }),
    }
}

} // verus!
