//! Why a second run changes nothing: from one line to the whole buffer.

use vstd::prelude::*;
use crate::again::{lemma_step_again, lemma_step_keeps, line_kept};
use crate::analyzer::{follower_of, head_kind_of, HeadKind};
use crate::engine::{step, Note, Setting};
use crate::rescan::follows_alike;
use crate::run::{rule_of, run_from, Mode, Plan};
use crate::shift_laws::alike;
use crate::tracker::{Frame, Mark};

verus! {

/// From line `from` on, every line of `fin` keeps of the line of `lines`
/// in its place what that line's rule trusts; and there are as many lines.
pub open spec fn all_kept(
    set: Setting,
    plan: Plan,
    lines: Seq<Seq<char>>,
    fin: Seq<Seq<char>>,
    from: int,
) -> bool {
    &&& fin.len() == lines.len()
    &&& forall|j: int|
        from <= j < lines.len() ==> line_kept(set, rule_of(plan, j), lines[j], #[trigger] fin[j])
}

/// A run that goes through keeps the number of lines, and of every line
/// what its rule trusts.
pub proof fn lemma_run_keeps(
    set: Setting,
    plan: Plan,
    lines: Seq<Seq<char>>,
    k: int,
    frames: Seq<Frame>,
    quote: Option<Mark>,
    outs: Seq<Seq<char>>,
    notes: Seq<Note>,
)
    requires
        0 <= k <= lines.len(),
        outs.len() == k,
        run_from(set, plan, lines, k, frames, quote, outs, notes) is Done,
    ensures
        ({
            let fin = run_from(set, plan, lines, k, frames, quote, outs, notes)->outs;
            &&& fin.take(k) == outs
            &&& all_kept(set, plan, lines, fin, k)
        }),
    decreases lines.len() - k,
{
    let fin = run_from(set, plan, lines, k, frames, quote, outs, notes)->outs;
    if k >= lines.len() {
        assert(fin.take(k) =~= outs);
    } else {
        let rule = rule_of(plan, k);
        let follower = follower_of(set.syn, lines, k + 1);
        let done = step(set, rule, follower, frames, quote, lines[k], k as usize);
        lemma_step_keeps(set, rule, follower, frames, quote, lines[k], k as usize);
        let outs2 = outs.push(done->out);
        lemma_run_keeps(
            set,
            plan,
            lines,
            k + 1,
            done->frames,
            done->quote,
            outs2,
            notes.push(done->note),
        );
        assert(fin.take(k + 1) == outs2);
        assert(fin[k] == fin.take(k + 1)[k]);
        assert(fin.take(k) =~= outs) by {
            assert forall|j: int| 0 <= j < k implies fin.take(k)[j] == outs[j] by {
                assert(fin.take(k + 1)[j] == outs2[j]);
            }
        }
    }
}

/// Where the lines begin alike, the next code after a line is alike.
pub proof fn lemma_followers_alike(
    set: Setting,
    plan: Plan,
    lines: Seq<Seq<char>>,
    fin: Seq<Seq<char>>,
    j: int,
)
    requires
        plan.mode != Mode::Smart,
        all_kept(set, plan, lines, fin, 0),
        0 <= j,
    ensures
        follows_alike(
            rule_of(plan, j),
            follower_of(set.syn, lines, j),
            follower_of(set.syn, fin, j),
        ),
    decreases lines.len() - j,
{
    if j < lines.len() {
        assert(line_kept(set, rule_of(plan, j), lines[j], fin[j]));
        match head_kind_of(set.syn, lines[j]) {
            HeadKind::Closer => {},
            HeadKind::Code => {},
            _ => {
                lemma_followers_alike(set, plan, lines, fin, j + 1);
            },
        }
    }
}

/// The lines that a run in indent mode or in paren mode leaves, run again
/// in that mode from line `k` on with a stack that is alike, are left as
/// they are.
pub proof fn lemma_run_again(
    set: Setting,
    plan: Plan,
    other: Plan,
    lines: Seq<Seq<char>>,
    fin: Seq<Seq<char>>,
    k: int,
    frames1: Seq<Frame>,
    quote1: Option<Mark>,
    outs1: Seq<Seq<char>>,
    notes1: Seq<Note>,
    frames2: Seq<Frame>,
    quote2: Option<Mark>,
    notes2: Seq<Note>,
)
    requires
        0 <= k <= lines.len(),
        outs1.len() == k,
        plan.mode != Mode::Smart,
        other.mode == plan.mode,
        run_from(set, plan, lines, k, frames1, quote1, outs1, notes1) is Done,
        fin == run_from(set, plan, lines, k, frames1, quote1, outs1, notes1)->outs,
        all_kept(set, plan, lines, fin, 0),
        alike(frames1, frames2),
        quote1.is_some() == quote2.is_some(),
    ensures
        run_from(set, other, fin, k, frames2, quote2, fin.take(k), notes2) is Done,
        run_from(set, other, fin, k, frames2, quote2, fin.take(k), notes2)->outs == fin,
    decreases lines.len() - k,
{
    if k >= lines.len() {
        assert(fin.take(k) =~= fin);
    } else {
        let rule = rule_of(plan, k);
        let f1 = follower_of(set.syn, lines, k + 1);
        let f2 = follower_of(set.syn, fin, k + 1);
        let d1 = step(set, rule, f1, frames1, quote1, lines[k], k as usize);
        let outs2 = outs1.push(d1->out);
        lemma_run_keeps(set, plan, lines, k + 1, d1->frames, d1->quote, outs2, notes1.push(d1->note));
        assert(fin[k] == fin.take(k + 1)[k]);
        assert(fin[k] == d1->out);
        lemma_followers_alike(set, plan, lines, fin, k + 1);
        lemma_step_again(set, rule, f1, f2, frames1, frames2, quote1, quote2, lines[k], k as usize);
        let d2 = step(set, rule, f2, frames2, quote2, fin[k], k as usize);
        assert(fin.take(k).push(fin[k]) =~= fin.take(k + 1));
        lemma_run_again(
            set,
            plan,
            other,
            lines,
            fin,
            k + 1,
            d1->frames,
            d1->quote,
            outs2,
            notes1.push(d1->note),
            d2->frames,
            d2->quote,
            notes2.push(d2->note),
        );
    }
}

} // verus!
