//! What holds of every answer.

use vstd::prelude::*;
use crate::answer::{infer, plan_of, Answer, Request, RequestView};
use crate::again::line_kept;
use crate::analyzer::indent_of;
use crate::balance::{lemma_run_feeds, lemma_run_reads, no_feed};
use crate::engine::Rule;
use crate::run::rule_of;
use crate::changes::{
    applied, lemma_cursor_keeps_character_across, lie_before, put_in, remapped, ChangeView, Position,
};
use crate::engine::{Note, Setting};
use crate::rerun::{lemma_run_again, lemma_run_keeps};
use crate::run::{run, Mode};
use crate::syntax::DelimKind;
use crate::text::{lemma_join_then_split, lemma_split_then_join, split_lines};
use crate::tracker::{balanced, kinds_of, Frame};

verus! {

/// The engine is a function of the request: two answers to requests that
/// say the same are the same, field by field and character by character.
pub proof fn lemma_same_request_same_answer(
    first: Request,
    second: Request,
    a: Answer,
    b: Answer,
)
    requires
        first@ == second@,
        a@ == infer(first@),
        b@ == infer(second@),
    ensures
        a@ == b@,
        a.text@ == b.text@,
{
}

/// The cursor keeps its character. Where the changes of a list that touch
/// the cursor's line lie before the cursor, each beginning before it and
/// ending at or before it, in the order of their columns and without
/// touching each other, the moved cursor stands before the character before
/// which it stood: from the cursor on, the changed line reads as the line
/// did.
pub proof fn lemma_cursor_stability(lines: Seq<Seq<char>>, p: Position, changes: Seq<ChangeView>)
    requires
        p.line < lines.len(),
        p.x <= lines[p.line as int].len(),
        lie_before(changes, p.line, p.x as int),
        p.x + put_in(changes, p.line) <= usize::MAX,
    ensures
        remapped(p, changes).line == p.line,
        applied(lines, changes)[p.line as int].skip(remapped(p, changes).x as int) == lines[p.line as int].skip(
            p.x as int,
        ),
{
    lemma_cursor_keeps_character_across(lines, p, changes);
}

/// What succeeds is balanced: read by the tracker alone, the corrected
/// buffer of a successful answer closes every delimiter that it opens, with
/// a closer of the same family, closes nothing else, and leaves no string
/// open. This holds in every mode and whatever the request's options are.
pub proof fn lemma_success_is_balanced(req: RequestView)
    requires
        infer(req).success,
    ensures
        balanced(req.syntax, infer(req).text),
{
    let lines = split_lines(req.text);
    let set = Setting { syn: req.syntax, force_balance: req.force_balance };
    lemma_split_then_join(req.text);
    assert forall|j: int| 0 <= j < lines.len() implies no_feed(#[trigger] lines[j]) by {
        assert forall|i: int| 0 <= i < lines[j].len() implies lines[j][i] != '\n' by {
            assert(lines[j][i] != '\n');
        }
    }
    let none = Seq::<Frame>::empty();
    lemma_run_reads(
        set,
        plan_of(req),
        lines,
        0,
        none,
        None,
        Seq::<Seq<char>>::empty(),
        Seq::<Note>::empty(),
    );
    let outs = run(set, plan_of(req), lines)->outs;
    assert(kinds_of(none) =~= Seq::<DelimKind>::empty());
    lemma_run_feeds(set, plan_of(req), lines);
    lemma_join_then_split(outs);
}

/// A second run changes nothing. Where a request in indent mode or in
/// paren mode succeeds, a request in the same mode for the corrected buffer,
/// with the same syntax and the same answer to whether the balance is
/// forced, succeeds too, and its buffer is the corrected buffer, character
/// by character. The cursor, the selection and the other options of the
/// second request play no part.
pub proof fn lemma_second_run_changes_nothing(req: RequestView, again: RequestView)
    requires
        req.mode != Mode::Smart,
        infer(req).success,
        again.mode == req.mode,
        again.text == infer(req).text,
        again.syntax == req.syntax,
        again.force_balance == req.force_balance,
    ensures
        infer(again).success,
        infer(again).text == infer(req).text,
{
    let lines = split_lines(req.text);
    let set = Setting { syn: req.syntax, force_balance: req.force_balance };
    lemma_split_then_join(req.text);
    let none = Seq::<Frame>::empty();
    let no_lines = Seq::<Seq<char>>::empty();
    let no_notes = Seq::<Note>::empty();
    let outs = run(set, plan_of(req), lines)->outs;
    lemma_run_feeds(set, plan_of(req), lines);
    lemma_join_then_split(outs);
    lemma_run_keeps(set, plan_of(req), lines, 0, none, None, no_lines, no_notes);
    assert(outs.take(0) =~= no_lines);
    lemma_run_again(
        set,
        plan_of(req),
        plan_of(again),
        lines,
        outs,
        0,
        none,
        None,
        no_lines,
        no_notes,
        none,
        None,
        no_notes,
    );
}

/// Every line keeps what its rule trusts. A successful answer has as many
/// lines as the request. A line that follows the indent rule is indented as
/// far as it was: only its delimiters may have changed. A line that follows
/// the paren rule reads behind its indentation as it did, unless the balance
/// is forced: only its indentation may have changed. In indent mode every
/// line follows the indent rule and in paren mode every line the paren rule;
/// in smart mode the lines before the zone that is being edited follow the
/// paren rule and the lines from there on the indent rule.
pub proof fn lemma_lines_keep_what_is_trusted(req: RequestView, k: int)
    requires
        infer(req).success,
        0 <= k < split_lines(req.text).len(),
    ensures
        split_lines(infer(req).text).len() == split_lines(req.text).len(),
        rule_of(plan_of(req), k) == Rule::Indent ==> indent_of(
            req.syntax,
            split_lines(infer(req).text)[k],
        ) == indent_of(req.syntax, split_lines(req.text)[k]),
        rule_of(plan_of(req), k) == Rule::Paren && !req.force_balance ==> split_lines(
            infer(req).text,
        )[k].skip(indent_of(req.syntax, split_lines(infer(req).text)[k])) == split_lines(
            req.text,
        )[k].skip(indent_of(req.syntax, split_lines(req.text)[k])),
{
    let lines = split_lines(req.text);
    let set = Setting { syn: req.syntax, force_balance: req.force_balance };
    lemma_split_then_join(req.text);
    let outs = run(set, plan_of(req), lines)->outs;
    lemma_run_feeds(set, plan_of(req), lines);
    lemma_join_then_split(outs);
    lemma_run_keeps(
        set,
        plan_of(req),
        lines,
        0,
        Seq::<Frame>::empty(),
        None,
        Seq::<Seq<char>>::empty(),
        Seq::<Note>::empty(),
    );
    assert(line_kept(set, rule_of(plan_of(req), k), lines[k], outs[k]));
}

/// A change behind the cursor, or on another line, leaves the cursor where
/// it is.
pub proof fn lemma_cursor_stays(p: Position, c: ChangeView)
    requires
        c.line != p.line || c.start_x >= p.x,
    ensures
        remapped(p, seq![c]) == p,
{
    reveal_with_fuel(remapped, 2);
    assert(seq![c].drop_last() =~= Seq::<ChangeView>::empty());
}

} // verus!
