//! The request that a caller makes and the answer it gets.

use vstd::prelude::*;
use crate::balance::lemma_run_feeds;
use crate::changes::{
    all_changes, applied, collect_changes, consolidated, lemma_changes_consolidated,
    lemma_changes_rebuild, remap_cursor, remapped, views, Change, ChangeView, Position,
};
use crate::text::lemma_join_then_split;
use crate::engine::{Fault, Note, Setting};
use crate::error::Error;
use crate::parens::{list_parens, parens_of, Paren};
use crate::run::{correct_lines, run, Mode, Outcome, Plan};
use crate::syntax::{char_class, classify, CharClass, Syntax};
use crate::text::{
    copy_range, join, join_lines, lemma_join_len, lemma_split_then_join, rows, split, split_lines,
};

verus! {

/// Where a line's indentation ends after the run, and where it ended before.
#[derive(Clone, Copy, Debug, PartialEq, Eq, Structural)]
pub struct TabStop {
    pub line: usize,
    /// The column at which the line's content begins.
    pub x: usize,
    /// The column at which it began in the buffer that was handed in.
    pub previous_x: usize,
}

/// The paren trail of a corrected line: the columns `start_x..end_x`.
#[derive(Clone, Copy, Debug, PartialEq, Eq, Structural)]
pub struct ParenTrail {
    pub line: usize,
    pub start_x: usize,
    pub end_x: usize,
}

/// What a caller may say beside the mode and the text.
#[derive(Debug)]
pub struct Options {
    /// Where the cursor stood before `changes` were made.
    pub cursor: Option<Position>,
    /// The line on which the selection begins.
    pub selection_start_line: Option<usize>,
    /// The edits that led to the buffer as it is handed in.
    pub changes: Vec<Change>,
    pub force_balance: bool,
    pub partial_result: bool,
    pub return_parens: bool,
    pub syntax: Syntax,
}

/// One call of the engine.
#[derive(Debug)]
pub struct Request {
    pub mode: Mode,
    pub text: Vec<char>,
    pub options: Options,
}

/// What the engine answers.
#[derive(Debug)]
pub struct Answer {
    pub success: bool,
    /// On success the corrected buffer. On failure the buffer as it was
    /// handed in or, where a partial result was asked for, the corrected
    /// buffer up to the cause of the failure.
    pub text: Vec<char>,
    pub cursor: Option<Position>,
    /// The edits that lead from the buffer handed in to `text`; none on
    /// failure.
    pub changes: Vec<Change>,
    pub tab_stops: Vec<TabStop>,
    pub paren_trails: Vec<ParenTrail>,
    /// The delimiters of the corrected buffer, each with its closer.
    pub parens: Vec<Paren>,
    pub error: Option<Error>,
}

/// A request as a value.
pub struct RequestView {
    pub mode: Mode,
    pub text: Seq<char>,
    pub cursor: Option<Position>,
    pub selection_start_line: Option<usize>,
    pub changes: Seq<ChangeView>,
    pub force_balance: bool,
    pub partial_result: bool,
    pub return_parens: bool,
    pub syntax: Syntax,
}

/// An answer as a value.
pub struct AnswerView {
    pub success: bool,
    pub text: Seq<char>,
    pub cursor: Option<Position>,
    pub changes: Seq<ChangeView>,
    pub tab_stops: Seq<TabStop>,
    pub paren_trails: Seq<ParenTrail>,
    pub parens: Seq<Paren>,
    pub error: Option<Error>,
}

impl View for Request {
    type V = RequestView;

    open spec fn view(&self) -> RequestView {
        RequestView {
            mode: self.mode,
            text: self.text@,
            cursor: self.options.cursor,
            selection_start_line: self.options.selection_start_line,
            changes: views(self.options.changes@),
            force_balance: self.options.force_balance,
            partial_result: self.options.partial_result,
            return_parens: self.options.return_parens,
            syntax: self.options.syntax,
        }
    }
}

impl View for Answer {
    type V = AnswerView;

    open spec fn view(&self) -> AnswerView {
        AnswerView {
            success: self.success,
            text: self.text@,
            cursor: self.cursor,
            changes: views(self.changes@),
            tab_stops: self.tab_stops@,
            paren_trails: self.paren_trails@,
            parens: self.parens@,
            error: self.error,
        }
    }
}

/// Whether a character is a delimiter.
pub open spec fn is_delimiter(c: char, syn: Syntax) -> bool {
    char_class(c, syn) is Open || char_class(c, syn) is Close
}

/// Whether a text holds a delimiter.
pub open spec fn has_delimiter(text: Seq<char>, syn: Syntax) -> bool {
    exists|j: int| 0 <= j < text.len() && is_delimiter(#[trigger] text[j], syn)
}

/// Whether a change put a delimiter on line `line` or took one from it.
pub open spec fn edits_delimiter(c: ChangeView, line: usize, syn: Syntax) -> bool {
    c.line == line && (has_delimiter(c.old_text, syn) || has_delimiter(c.new_text, syn))
}

/// Whether one of the changes put a delimiter on line `line` or took one
/// from it.
pub open spec fn touches_delimiters(changes: Seq<ChangeView>, line: usize, syn: Syntax) -> bool {
    exists|i: int| 0 <= i < changes.len() && edits_delimiter(#[trigger] changes[i], line, syn)
}

/// The first line of the zone that is being edited: the cursor's line or
/// the line on which the selection begins, whichever comes first; the
/// first line of the buffer where neither is known.
pub open spec fn zone_start_of(cursor: Option<Position>, selection: Option<usize>) -> usize {
    match (cursor, selection) {
        (Some(p), Some(s)) => if s < p.line {
            s
        } else {
            p.line
        },
        (Some(p), None) => p.line,
        (None, Some(s)) => s,
        (None, None) => 0,
    }
}

/// Which rule each line of a request follows.
pub open spec fn plan_of(req: RequestView) -> Plan {
    let zone_start = zone_start_of(req.cursor, req.selection_start_line);
    Plan {
        mode: req.mode,
        zone_start,
        boundary_paren: touches_delimiters(req.changes, zone_start, req.syntax),
    }
}

/// One tab stop for every line.
pub open spec fn stops(notes: Seq<Note>) -> Seq<TabStop> {
    Seq::new(
        notes.len(),
        |k: int|
            TabStop { line: k as usize, x: notes[k].new_indent, previous_x: notes[k].old_indent },
    )
}

/// The paren trails of the first `k` lines, of those lines that have one.
pub open spec fn trails(notes: Seq<Note>, k: int) -> Seq<ParenTrail>
    decreases k,
{
    if k <= 0 {
        Seq::empty()
    } else if notes[k - 1].trail_from < notes[k - 1].trail_to {
        trails(notes, k - 1).push(
            ParenTrail {
                line: (k - 1) as usize,
                start_x: notes[k - 1].trail_from,
                end_x: notes[k - 1].trail_to,
            },
        )
    } else {
        trails(notes, k - 1)
    }
}

/// The corrected buffer up to the cause of a failure: the lines before the
/// one that holds it, and that line up to it.
pub open spec fn partial_text(sofar: Seq<Seq<char>>, fault: Fault) -> Seq<char> {
    if fault.line < sofar.len() {
        let last = sofar[fault.line as int];
        let upto = if fault.out_x < last.len() {
            fault.out_x as int
        } else {
            last.len() as int
        };
        join_lines(sofar.take(fault.line as int).push(last.take(upto)))
    } else {
        join_lines(sofar)
    }
}

/// The answer to a request.
///
/// The cursor is first moved across the changes that the request names.
/// On success the answer holds the corrected buffer, the changes that lead
/// to it and the cursor moved across them; tab stops, paren trails and the
/// pairs of delimiters where the request asks for them. On failure it holds
/// the failure, the cursor, and the buffer as it was handed in or, where the
/// request asks for a partial result, the corrected buffer up to the cause
/// of the failure.
pub open spec fn infer(req: RequestView) -> AnswerView {
    let lines = split_lines(req.text);
    let set = Setting { syn: req.syntax, force_balance: req.force_balance };
    let cursor = match req.cursor {
        Some(p) => Some(remapped(p, req.changes)),
        None => None,
    };
    match run(set, plan_of(req), lines) {
        Outcome::Done { outs, notes } => {
            let changes = all_changes(lines, outs, notes, lines.len() as int);
            AnswerView {
                success: true,
                text: join_lines(outs),
                cursor: match cursor {
                    Some(p) => Some(remapped(p, changes)),
                    None => None,
                },
                changes,
                tab_stops: if req.return_parens {
                    stops(notes)
                } else {
                    Seq::empty()
                },
                paren_trails: if req.return_parens {
                    trails(notes, notes.len() as int)
                } else {
                    Seq::empty()
                },
                parens: if req.return_parens {
                    parens_of(req.syntax, outs)
                } else {
                    Seq::empty()
                },
                error: None,
            }
        },
        Outcome::Failed { fault, sofar } => AnswerView {
            success: false,
            text: if req.partial_result {
                partial_text(sofar, fault)
            } else {
                req.text
            },
            cursor,
            changes: Seq::empty(),
            tab_stops: Seq::empty(),
            paren_trails: Seq::empty(),
            parens: Seq::empty(),
            error: Some(Error { kind: fault.kind, line: fault.line, x: fault.x }),
        },
    }
}

impl TabStop {
    /// By how many columns the line's indentation changed.
    pub fn delta(&self) -> (d: i128)
        ensures
            d == self.x - self.previous_x,
    {
        self.x as i128 - self.previous_x as i128
    }
}

impl Options {
    /// No cursor, no selection, no changes, nothing asked for, and the Lisp
    /// family's syntax.
    pub fn new() -> (o: Options)
        ensures
            o.cursor.is_none(),
            o.selection_start_line.is_none(),
            o.changes@.len() == 0,
            !o.force_balance,
            !o.partial_result,
            !o.return_parens,
            o.syntax == Syntax::lisp_spec(),
    {
        Options {
            cursor: None,
            selection_start_line: None,
            changes: Vec::new(),
            force_balance: false,
            partial_result: false,
            return_parens: false,
            syntax: Syntax::lisp(),
        }
    }
}

fn holds_delimiter(text: &Vec<char>, syn: &Syntax) -> (b: bool)
    ensures
        b == has_delimiter(text@, *syn),
{
    let mut j: usize = 0;
    while j < text.len()
        invariant
            j <= text@.len(),
            forall|i: int| 0 <= i < j ==> !is_delimiter(#[trigger] text@[i], *syn),
        decreases text@.len() - j,
    {
        match classify(text[j], syn) {
            CharClass::Open(_) => {
                assert(is_delimiter(text@[j as int], *syn));
                return true;
            },
            CharClass::Close(_) => {
                assert(is_delimiter(text@[j as int], *syn));
                return true;
            },
            _ => {},
        }
        j = j + 1;
    }
    false
}

fn edits_delimiters(changes: &Vec<Change>, line: usize, syn: &Syntax) -> (b: bool)
    ensures
        b == touches_delimiters(views(changes@), line, *syn),
{
    let mut i: usize = 0;
    while i < changes.len()
        invariant
            i <= changes@.len(),
            forall|j: int| 0 <= j < i ==> !edits_delimiter(#[trigger] views(changes@)[j], line, *syn),
        decreases changes@.len() - i,
    {
        let c = &changes[i];
        assert(views(changes@)[i as int] == c@);
        if c.line == line && (holds_delimiter(&c.old_text, syn) || holds_delimiter(
            &c.new_text,
            syn,
        )) {
            assert(edits_delimiter(views(changes@)[i as int], line, *syn));
            return true;
        }
        i = i + 1;
    }
    false
}

/// Decides which rule each line of a request follows.
pub fn plan_for(request: &Request) -> (plan: Plan)
    ensures
        plan == plan_of(request@),
{
    let zone_start = match (request.options.cursor, request.options.selection_start_line) {
        (Some(p), Some(s)) => if s < p.line {
            s
        } else {
            p.line
        },
        (Some(p), None) => p.line,
        (None, Some(s)) => s,
        (None, None) => 0,
    };
    Plan {
        mode: request.mode,
        zone_start,
        boundary_paren: edits_delimiters(&request.options.changes, zone_start, &request.options.syntax),
    }
}

fn list_stops(notes: &Vec<Note>) -> (r: Vec<TabStop>)
    ensures
        r@ == stops(notes@),
{
    let mut r: Vec<TabStop> = Vec::new();
    let mut k: usize = 0;
    while k < notes.len()
        invariant
            k <= notes@.len(),
            r@.len() == k,
            forall|j: int| 0 <= j < k ==> r@[j] == stops(notes@)[j],
        decreases notes@.len() - k,
    {
        r.push(TabStop { line: k, x: notes[k].new_indent, previous_x: notes[k].old_indent });
        k = k + 1;
    }
    assert(r@ =~= stops(notes@));
    r
}

fn list_trails(notes: &Vec<Note>) -> (r: Vec<ParenTrail>)
    ensures
        r@ == trails(notes@, notes@.len() as int),
{
    let mut r: Vec<ParenTrail> = Vec::new();
    let mut k: usize = 0;
    while k < notes.len()
        invariant
            k <= notes@.len(),
            r@ == trails(notes@, k as int),
        decreases notes@.len() - k,
    {
        let note = notes[k];
        if note.trail_from < note.trail_to {
            r.push(ParenTrail { line: k, start_x: note.trail_from, end_x: note.trail_to });
        }
        k = k + 1;
    }
    r
}

fn cut_short(sofar: &Vec<Vec<char>>, fault: &Fault) -> (r: Vec<char>)
    ensures
        r@ == partial_text(rows(sofar@), *fault),
{
    if fault.line < sofar.len() {
        let mut kept: Vec<Vec<char>> = Vec::new();
        let mut k: usize = 0;
        assert(rows(kept@) =~= rows(sofar@).take(0));
        while k < fault.line
            invariant
                k <= fault.line < sofar@.len(),
                rows(kept@) == rows(sofar@).take(k as int),
            decreases fault.line - k,
        {
            let line = &sofar[k];
            let ghost before = rows(kept@);
            let copy = copy_range(line, 0, line.len());
            assert(copy@ =~= line@);
            kept.push(copy);
            assert(rows(kept@) =~= before.push(line@));
            assert(rows(sofar@).take(k + 1) =~= rows(sofar@).take(k as int).push(line@));
            k = k + 1;
        }
        let last = &sofar[fault.line];
        let upto = if fault.out_x < last.len() {
            fault.out_x
        } else {
            last.len()
        };
        let ghost before = rows(kept@);
        let copy = copy_range(last, 0, upto);
        let ghost tail = copy@;
        kept.push(copy);
        assert(rows(kept@) =~= before.push(tail));
        assert(rows(sofar@)[fault.line as int] == last@);
        join(&kept)
    } else {
        join(sofar)
    }
}

/// Corrects a buffer as the request asks.
///
/// The changes of a successful answer lead from the buffer that was handed
/// in to the corrected buffer, line by line; they stand in the order of
/// their places and no two of them touch.
pub fn run_parinfer(request: &Request) -> (answer: Answer)
    ensures
        answer@ == infer(request@),
        answer.success ==> applied(split_lines(request.text@), views(answer.changes@))
            == split_lines(answer.text@),
        consolidated(views(answer.changes@)),
{
    let lines = split(&request.text);
    let total = request.text.len();
    proof {
        lemma_split_then_join(request.text@);
        lemma_join_len(rows(lines@));
        assert(join_lines(rows(lines@)).len() == total);
    }
    let set = Setting { syn: request.options.syntax, force_balance: request.options.force_balance };
    let cursor = match request.options.cursor {
        Some(p) => Some(remap_cursor(p, &request.options.changes)),
        None => None,
    };
    let plan = plan_for(request);
    match correct_lines(&set, &plan, &lines) {
        Ok(done) => {
            let changes = collect_changes(&lines, &done.lines, &done.notes);
            proof {
                let ins = rows(lines@);
                let outs = rows(done.lines@);
                assert forall|j: int| 0 <= j < ins.len() implies (#[trigger] ins[j]).len()
                    <= usize::MAX by {
                    assert(ins[j] == lines@[j]@);
                    assert(lines@[j].len() <= usize::MAX);
                }
                assert(lines@.len() <= usize::MAX);
                lemma_changes_rebuild(ins, outs, done.notes@, ins, ins.len() as int);
                lemma_changes_consolidated(ins, outs, done.notes@, ins.len() as int);
                assert(applied(ins, views(changes@)) =~= outs);
                lemma_run_feeds(set, plan, ins);
                lemma_join_then_split(outs);
            }
            let moved = match cursor {
                Some(p) => Some(remap_cursor(p, &changes)),
                None => None,
            };
            let text = join(&done.lines);
            let tab_stops = if request.options.return_parens {
                list_stops(&done.notes)
            } else {
                Vec::new()
            };
            let paren_trails = if request.options.return_parens {
                list_trails(&done.notes)
            } else {
                Vec::new()
            };
            let parens = if request.options.return_parens {
                list_parens(&request.options.syntax, &done.lines)
            } else {
                Vec::new()
            };
            Answer {
                success: true,
                text,
                cursor: moved,
                changes,
                tab_stops,
                paren_trails,
                parens,
                error: None,
            }
        },
        Err(stopped) => {
            let text = if request.options.partial_result {
                cut_short(&stopped.sofar, &stopped.fault)
            } else {
                let copy = copy_range(&request.text, 0, request.text.len());
                assert(copy@ =~= request.text@);
                copy
            };
            let changes: Vec<Change> = Vec::new();
            assert(views(changes@) =~= Seq::<ChangeView>::empty());
            Answer {
                success: false,
                text,
                cursor,
                changes,
                tab_stops: Vec::new(),
                paren_trails: Vec::new(),
                parens: Vec::new(),
                error: Some(
                    Error {
                        kind: stopped.fault.kind,
                        line: stopped.fault.line,
                        x: stopped.fault.x,
                    },
                ),
            }
        },
    }
}

} // verus!
