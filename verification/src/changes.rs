//! The change recorder: what was edited where, and where that leaves the
//! cursor.
//!
//! A list of changes speaks of one buffer: every change gives its columns in
//! that buffer, and the list is applied from its last change to its first,
//! so that no change moves the place of one that is still to be applied.

use vstd::prelude::*;
use crate::engine::{explains, Note};
use crate::run::accounted;
use crate::text::{copy_range, rows};

verus! {

/// A place in a buffer.
#[derive(Clone, Copy, Debug, PartialEq, Eq, Structural)]
pub struct Position {
    pub line: usize,
    pub x: usize,
}

/// One edit within a line: the columns `start_x..end_x` held `old_text` and
/// hold `new_text` instead.
#[derive(Debug, PartialEq, Eq)]
pub struct Change {
    pub line: usize,
    pub start_x: usize,
    pub end_x: usize,
    pub old_text: Vec<char>,
    pub new_text: Vec<char>,
}

/// A change as a value.
pub struct ChangeView {
    pub line: usize,
    pub start_x: usize,
    pub end_x: usize,
    pub old_text: Seq<char>,
    pub new_text: Seq<char>,
}

impl View for Change {
    type V = ChangeView;

    open spec fn view(&self) -> ChangeView {
        ChangeView {
            line: self.line,
            start_x: self.start_x,
            end_x: self.end_x,
            old_text: self.old_text@,
            new_text: self.new_text@,
        }
    }
}

/// A list of changes as values.
pub open spec fn views(changes: Seq<Change>) -> Seq<ChangeView> {
    Seq::new(changes.len(), |i: int| changes[i]@)
}

/// The number of columns that a change replaces.
pub open spec fn width_of(c: ChangeView) -> int {
    if c.end_x >= c.start_x {
        c.end_x - c.start_x
    } else {
        0
    }
}

/// Where column `x` of a line lies after a change to that line. A column at
/// or before the start of the change stays. A column at or behind its end
/// moves by as much as the line grew. A column inside it stays if the new
/// text reaches that far, and else moves to the end of the new text.
pub open spec fn moved_x(x: int, c: ChangeView) -> int {
    let start = c.start_x as int;
    let end = start + width_of(c);
    if start >= x {
        x
    } else if end <= x {
        x - width_of(c) + c.new_text.len()
    } else if x - start <= c.new_text.len() {
        x
    } else {
        start + c.new_text.len()
    }
}

/// `moved_x`, held to the machine's word.
pub open spec fn shifted(x: usize, c: ChangeView) -> usize {
    if moved_x(x as int, c) > usize::MAX {
        usize::MAX
    } else {
        moved_x(x as int, c) as usize
    }
}

/// Where a position lies after the changes were applied, the last of them
/// first. A change to another line leaves it alone.
pub open spec fn remapped(p: Position, changes: Seq<ChangeView>) -> Position
    decreases changes.len(),
{
    if changes.len() == 0 {
        p
    } else {
        let c = changes.last();
        let q = if c.line == p.line {
            Position { line: p.line, x: shifted(p.x, c) }
        } else {
            p
        };
        remapped(q, changes.drop_last())
    }
}

/// The line after a change to it.
pub open spec fn replaced(line: Seq<char>, c: ChangeView) -> Seq<char> {
    line.take(c.start_x as int) + c.new_text + line.skip(c.start_x + width_of(c))
}

/// A cursor keeps its character when text before it on its line is
/// inserted, deleted or replaced: from the moved cursor on, the changed line
/// reads as the line did from the cursor on.
pub proof fn lemma_cursor_keeps_character(line: Seq<char>, c: ChangeView, x: int)
    requires
        c.start_x <= c.end_x <= x <= line.len(),
        c.start_x < x,
    ensures
        0 <= moved_x(x, c) <= replaced(line, c).len(),
        replaced(line, c).skip(moved_x(x, c)) == line.skip(x),
{
    assert(replaced(line, c).skip(moved_x(x, c)) =~= line.skip(x));
}

/// The number of characters that the changes to line `line` put in.
pub open spec fn put_in(changes: Seq<ChangeView>, line: usize) -> int
    decreases changes.len(),
{
    if changes.len() == 0 {
        0
    } else if changes.last().line == line {
        put_in(changes.drop_last(), line) + changes.last().new_text.len()
    } else {
        put_in(changes.drop_last(), line)
    }
}

/// The changes to line `line` lie before column `x`, in the order of their
/// columns, and no two of them touch.
pub open spec fn lie_before(changes: Seq<ChangeView>, line: usize, x: int) -> bool {
    &&& forall|i: int|
        0 <= i < changes.len() && (#[trigger] changes[i]).line == line ==> changes[i].start_x
            <= changes[i].end_x <= x && changes[i].start_x < x
    &&& forall|i: int, j: int|
        0 <= i < j < changes.len() && (#[trigger] changes[i]).line == line
            && (#[trigger] changes[j]).line == line ==> changes[i].end_x < changes[j].start_x
}

/// Changes put in no fewer than no characters.
pub proof fn lemma_put_in_bounds(changes: Seq<ChangeView>, line: usize)
    ensures
        put_in(changes, line) >= 0,
    decreases changes.len(),
{
    if changes.len() > 0 {
        lemma_put_in_bounds(changes.drop_last(), line);
    }
}

/// A cursor keeps its character across a list of changes that lie before
/// it on its line, whatever the list does to other lines: from the moved
/// cursor on, the changed line reads as the line did from the cursor on.
pub proof fn lemma_cursor_keeps_character_across(
    lines: Seq<Seq<char>>,
    p: Position,
    changes: Seq<ChangeView>,
)
    requires
        p.line < lines.len(),
        p.x <= lines[p.line as int].len(),
        lie_before(changes, p.line, p.x as int),
        p.x + put_in(changes, p.line) <= usize::MAX,
    ensures
        applied(lines, changes).len() == lines.len(),
        remapped(p, changes).line == p.line,
        remapped(p, changes).x <= applied(lines, changes)[p.line as int].len(),
        applied(lines, changes)[p.line as int].skip(remapped(p, changes).x as int) == lines[p.line as int].skip(
            p.x as int,
        ),
    decreases changes.len(),
{
    if changes.len() > 0 {
        let c = changes.last();
        let rest = changes.drop_last();
        let next = if c.line < lines.len() {
            lines.update(c.line as int, replaced(lines[c.line as int], c))
        } else {
            lines
        };
        lemma_put_in_bounds(rest, p.line);
        if c.line == p.line {
            let line = lines[p.line as int];
            lemma_cursor_keeps_character(line, c, p.x as int);
            let q = Position { line: p.line, x: shifted(p.x, c) };
            assert(q.x == moved_x(p.x as int, c));
            assert(lie_before(rest, p.line, q.x as int)) by {
                assert forall|i: int| 0 <= i < rest.len() && (#[trigger] rest[i]).line
                    == p.line implies rest[i].start_x <= rest[i].end_x <= q.x && rest[i].start_x
                    < q.x by {
                    assert(rest[i] == changes[i]);
                    assert(changes[i].end_x < changes[changes.len() - 1].start_x);
                }
                assert forall|i: int, j: int|
                    0 <= i < j < rest.len() && (#[trigger] rest[i]).line == p.line
                        && (#[trigger] rest[j]).line == p.line implies rest[i].end_x
                    < rest[j].start_x by {
                    assert(rest[i] == changes[i] && rest[j] == changes[j]);
                }
            }
            lemma_cursor_keeps_character_across(next, q, rest);
        } else {
            assert(lie_before(rest, p.line, p.x as int)) by {
                assert forall|i: int| 0 <= i < rest.len() && (#[trigger] rest[i]).line
                    == p.line implies rest[i].start_x <= rest[i].end_x <= p.x && rest[i].start_x
                    < p.x by {
                    assert(rest[i] == changes[i]);
                }
                assert forall|i: int, j: int|
                    0 <= i < j < rest.len() && (#[trigger] rest[i]).line == p.line
                        && (#[trigger] rest[j]).line == p.line implies rest[i].end_x
                    < rest[j].start_x by {
                    assert(rest[i] == changes[i] && rest[j] == changes[j]);
                }
            }
            lemma_cursor_keeps_character_across(next, p, rest);
        }
    }
}

/// Moves a column across one change to its line.
pub fn remap_x(x: usize, c: &Change) -> (r: usize)
    ensures
        r == shifted(x, c@),
{
    if c.start_x >= x {
        return x;
    }
    let width = if c.end_x >= c.start_x {
        c.end_x - c.start_x
    } else {
        0
    };
    let grown = c.new_text.len();
    if width <= x - c.start_x {
        let base = x - width;
        if grown > usize::MAX - base {
            usize::MAX
        } else {
            base + grown
        }
    } else if x - c.start_x <= grown {
        x
    } else {
        c.start_x + grown
    }
}

/// Moves a position across a list of changes.
pub fn remap_cursor(p: Position, changes: &Vec<Change>) -> (r: Position)
    ensures
        r == remapped(p, views(changes@)),
{
    let mut cur = p;
    let mut i: usize = changes.len();
    assert(views(changes@).take(i as int) =~= views(changes@));
    while i > 0
        invariant
            i <= changes@.len(),
            remapped(p, views(changes@)) == remapped(cur, views(changes@).take(i as int)),
        decreases i,
    {
        let c = &changes[i - 1];
        assert(views(changes@).take(i as int).last() == c@);
        assert(views(changes@).take(i as int).drop_last() =~= views(changes@).take(i - 1));
        if c.line == cur.line {
            cur = Position { line: cur.line, x: remap_x(cur.x, c) };
        }
        i = i - 1;
    }
    cur
}

/// The changes that turned `line` into `out`: one for the indentation if
/// its width changed, then one for the paren trail if it was edited.
pub open spec fn line_changes(k: usize, line: Seq<char>, out: Seq<char>, note: Note) -> Seq<
    ChangeView,
> {
    let shift = note.new_indent - note.old_indent;
    let dent = if note.old_indent != note.new_indent {
        seq![
            ChangeView {
                line: k,
                start_x: 0,
                end_x: note.old_indent,
                old_text: line.take(note.old_indent as int),
                new_text: out.take(note.new_indent as int),
            },
        ]
    } else {
        Seq::empty()
    };
    let trail = if note.removed > 0 || note.added > 0 {
        seq![
            ChangeView {
                line: k,
                start_x: note.edit_at,
                end_x: (note.edit_at + note.removed) as usize,
                old_text: line.subrange(note.edit_at as int, note.edit_at + note.removed),
                new_text: out.subrange(note.edit_at + shift, note.edit_at + shift + note.added),
            },
        ]
    } else {
        Seq::empty()
    };
    dent + trail
}

/// The changes to the first `k` lines, in the order of the lines.
pub open spec fn all_changes(
    lines: Seq<Seq<char>>,
    outs: Seq<Seq<char>>,
    notes: Seq<Note>,
    k: int,
) -> Seq<ChangeView>
    decreases k,
{
    if k <= 0 {
        Seq::empty()
    } else {
        all_changes(lines, outs, notes, k - 1) + line_changes(
            (k - 1) as usize,
            lines[k - 1],
            outs[k - 1],
            notes[k - 1],
        )
    }
}

/// The lines after the changes were applied, the last of them first. A
/// change to a line that is not there is passed over.
pub open spec fn applied(lines: Seq<Seq<char>>, changes: Seq<ChangeView>) -> Seq<Seq<char>>
    decreases changes.len(),
{
    if changes.len() == 0 {
        lines
    } else {
        let c = changes.last();
        let next = if c.line < lines.len() {
            lines.update(c.line as int, replaced(lines[c.line as int], c))
        } else {
            lines
        };
        applied(next, changes.drop_last())
    }
}

/// Applying `a + b` is applying `b` and then `a`.
pub proof fn lemma_applied_concat(lines: Seq<Seq<char>>, a: Seq<ChangeView>, b: Seq<ChangeView>)
    ensures
        applied(lines, a + b) == applied(applied(lines, b), a),
    decreases b.len(),
{
    if b.len() == 0 {
        assert(a + b =~= a);
    } else {
        let c = b.last();
        let next = if c.line < lines.len() {
            lines.update(c.line as int, replaced(lines[c.line as int], c))
        } else {
            lines
        };
        assert((a + b).drop_last() =~= a + b.drop_last());
        assert((a + b).last() == c);
        lemma_applied_concat(next, a, b.drop_last());
    }
}

/// The changes of one line, applied to the line, give the corrected line.
pub proof fn lemma_line_changes_rebuild(
    lines: Seq<Seq<char>>,
    k: int,
    line: Seq<char>,
    out: Seq<char>,
    note: Note,
)
    requires
        0 <= k < lines.len(),
        k <= usize::MAX,
        line.len() <= usize::MAX,
        lines[k] == line,
        explains(line, out, note),
    ensures
        applied(lines, line_changes(k as usize, line, out, note)) == lines.update(k, out),
{
    reveal(explains);
    reveal_with_fuel(applied, 3);
    let x = note.old_indent as int;
    let n = note.new_indent as int;
    let at = note.edit_at as int;
    let rem = note.removed as int;
    let add = note.added as int;
    let shift = n - x;
    let list = line_changes(k as usize, line, out, note);
    let dent = ChangeView {
        line: k as usize,
        start_x: 0,
        end_x: note.old_indent,
        old_text: line.take(x),
        new_text: out.take(n),
    };
    let trail = ChangeView {
        line: k as usize,
        start_x: note.edit_at,
        end_x: (note.edit_at + note.removed) as usize,
        old_text: line.subrange(at, at + rem),
        new_text: out.subrange(at + shift, at + shift + add),
    };
    let whole = out.take(n) + out.subrange(n, n + at - x) + out.subrange(
        n + at - x,
        n + at - x + add,
    ) + out.skip(n + at - x + add);
    assert(whole =~= out);
    let edited = rem > 0 || add > 0;
    let dented = x != n;
    let mid = if edited {
        replaced(line, trail)
    } else {
        line
    };
    assert(mid =~= line.take(at) + out.subrange(at + shift, at + shift + add) + line.skip(
        at + rem,
    )) by {
        if !edited {
            assert(out.subrange(at + shift, at + shift + add) =~= Seq::<char>::empty());
            assert(line.take(at) + line.skip(at) =~= line);
        }
    }
    let last = if dented {
        replaced(mid, dent)
    } else {
        mid
    };
    assert(last =~= out) by {
        if dented {
            assert(replaced(mid, dent) =~= out.take(n) + mid.skip(x));
            assert(mid.skip(x) =~= line.subrange(x, at) + out.subrange(at + shift, at + shift + add)
                + line.skip(at + rem));
        } else {
            assert(out.take(n) == line.take(x));
            assert(line.take(at) =~= line.take(x) + line.subrange(x, at));
        }
    }
    if edited && dented {
        assert(list =~= seq![dent, trail]);
        assert(list.drop_last() =~= seq![dent]);
        assert(seq![dent].drop_last() =~= Seq::<ChangeView>::empty());
        let l1 = lines.update(k, mid);
        assert(l1.update(k, last) =~= lines.update(k, out));
    } else if edited {
        assert(list =~= seq![trail]);
        assert(list.drop_last() =~= Seq::<ChangeView>::empty());
    } else if dented {
        assert(list =~= seq![dent]);
        assert(list.drop_last() =~= Seq::<ChangeView>::empty());
    } else {
        assert(list =~= Seq::<ChangeView>::empty());
        assert(lines.update(k, out) =~= lines);
    }
}

/// The changes of a run, applied to the lines that were handed in, give
/// the corrected lines.
pub proof fn lemma_changes_rebuild(
    lines: Seq<Seq<char>>,
    outs: Seq<Seq<char>>,
    notes: Seq<Note>,
    cur: Seq<Seq<char>>,
    k: int,
)
    requires
        accounted(lines, outs, notes),
        0 <= k <= lines.len(),
        lines.len() <= usize::MAX,
        forall|j: int| 0 <= j < lines.len() ==> (#[trigger] lines[j]).len() <= usize::MAX,
        cur.len() == lines.len(),
        forall|j: int| 0 <= j < k ==> cur[j] == lines[j],
    ensures
        applied(cur, all_changes(lines, outs, notes, k)).len() == lines.len(),
        forall|j: int|
            0 <= j < lines.len() ==> #[trigger] applied(
                cur,
                all_changes(lines, outs, notes, k),
            )[j] == if j < k {
                outs[j]
            } else {
                cur[j]
            },
    decreases k,
{
    if k > 0 {
        let before = all_changes(lines, outs, notes, k - 1);
        let here = line_changes((k - 1) as usize, lines[k - 1], outs[k - 1], notes[k - 1]);
        lemma_applied_concat(cur, before, here);
        assert(explains(lines[k - 1], outs[k - 1], notes[k - 1]));
        lemma_line_changes_rebuild(cur, k - 1, lines[k - 1], outs[k - 1], notes[k - 1]);
        lemma_changes_rebuild(lines, outs, notes, cur.update(k - 1, outs[k - 1]), k - 1);
    }
}

/// The list is consolidated: every change takes something out or puts
/// something in, the changes stand in the order of their lines and, within
/// a line, of their columns, and no two of them touch.
pub open spec fn consolidated(changes: Seq<ChangeView>) -> bool {
    &&& forall|i: int|
        0 <= i < changes.len() ==> (#[trigger] changes[i]).start_x <= changes[i].end_x
            && changes[i].old_text.len() == changes[i].end_x - changes[i].start_x
            && changes[i].old_text.len() != changes[i].new_text.len()
    &&& forall|i: int, j: int|
        0 <= i < j < changes.len() ==> (#[trigger] changes[i]).line < (#[trigger] changes[j]).line
            || (changes[i].line == changes[j].line && changes[i].end_x < changes[j].start_x)
}

/// The changes of a run are consolidated, and those of the first `k`
/// lines lie on those lines.
pub proof fn lemma_changes_consolidated(
    lines: Seq<Seq<char>>,
    outs: Seq<Seq<char>>,
    notes: Seq<Note>,
    k: int,
)
    requires
        accounted(lines, outs, notes),
        0 <= k <= lines.len(),
        lines.len() <= usize::MAX,
        forall|j: int| 0 <= j < lines.len() ==> (#[trigger] lines[j]).len() <= usize::MAX,
    ensures
        consolidated(all_changes(lines, outs, notes, k)),
        forall|i: int|
            0 <= i < all_changes(lines, outs, notes, k).len() ==> (#[trigger] all_changes(
                lines,
                outs,
                notes,
                k,
            )[i]).line < k,
    decreases k,
{
    if k > 0 {
        lemma_changes_consolidated(lines, outs, notes, k - 1);
        let before = all_changes(lines, outs, notes, k - 1);
        let line = lines[k - 1];
        let out = outs[k - 1];
        let note = notes[k - 1];
        let here = line_changes((k - 1) as usize, line, out, note);
        let all = all_changes(lines, outs, notes, k);
        assert(explains(line, out, note));
        reveal(explains);
        assert forall|i: int| 0 <= i < here.len() implies (#[trigger] here[i]).line == k - 1
            && here[i].start_x <= here[i].end_x && here[i].old_text.len() == here[i].end_x
            - here[i].start_x && here[i].old_text.len() != here[i].new_text.len() by {}
        assert forall|i: int, j: int| 0 <= i < j < here.len() implies (#[trigger] here[i]).end_x < (
        #[trigger] here[j]).start_x by {}
        assert forall|i: int| 0 <= i < all.len() implies (#[trigger] all[i]).line < k
            && all[i].start_x <= all[i].end_x && all[i].old_text.len() == all[i].end_x
            - all[i].start_x && all[i].old_text.len() != all[i].new_text.len() by {
            if i < before.len() {
                assert(all[i] == before[i]);
            } else {
                assert(all[i] == here[i - before.len()]);
            }
        }
        assert forall|i: int, j: int| 0 <= i < j < all.len() implies (#[trigger] all[i]).line < (
        #[trigger] all[j]).line || (all[i].line == all[j].line && all[i].end_x
            < all[j].start_x) by {
            if j < before.len() {
                assert(all[i] == before[i] && all[j] == before[j]);
            } else if i < before.len() {
                assert(all[i] == before[i]);
                assert(all[j] == here[j - before.len()]);
            } else {
                assert(all[i] == here[i - before.len()]);
                assert(all[j] == here[j - before.len()]);
            }
        }
    }
}

/// Lists the changes that a run made.
pub fn collect_changes(lines: &Vec<Vec<char>>, outs: &Vec<Vec<char>>, notes: &Vec<Note>) -> (r:
    Vec<Change>)
    requires
        accounted(rows(lines@), rows(outs@), notes@),
    ensures
        views(r@) == all_changes(rows(lines@), rows(outs@), notes@, lines@.len() as int),
{
    let mut changes: Vec<Change> = Vec::new();
    let mut k: usize = 0;
    assert(views(changes@) =~= Seq::<ChangeView>::empty());
    while k < lines.len()
        invariant
            k <= lines@.len(),
            accounted(rows(lines@), rows(outs@), notes@),
            views(changes@) == all_changes(rows(lines@), rows(outs@), notes@, k as int),
        decreases lines@.len() - k,
    {
        let line = &lines[k];
        let out = &outs[k];
        let note = notes[k];
        let ghost before = views(changes@);
        let total = line.len();
        let width = out.len();
        proof {
            assert(rows(lines@)[k as int] == line@);
            assert(rows(outs@)[k as int] == out@);
            assert(explains(rows(lines@)[k as int], rows(outs@)[k as int], notes@[k as int]));
            assert(explains(line@, out@, note));
            reveal(explains);
        }
        assert(note.old_indent <= note.edit_at);
        assert(note.edit_at + note.removed <= total);
        assert(note.new_indent + (note.edit_at - note.old_indent) + note.added <= width);
        let ghost mid = before;
        if note.old_indent != note.new_indent {
            let c = Change {
                line: k,
                start_x: 0,
                end_x: note.old_indent,
                old_text: copy_range(line, 0, note.old_indent),
                new_text: copy_range(out, 0, note.new_indent),
            };
            let ghost cv = c@;
            changes.push(c);
            assert(views(changes@) =~= before.push(cv));
            proof {
                mid = before.push(cv);
            }
        }
        if note.removed > 0 || note.added > 0 {
            let at = note.edit_at - note.old_indent + note.new_indent;
            let c = Change {
                line: k,
                start_x: note.edit_at,
                end_x: note.edit_at + note.removed,
                old_text: copy_range(line, note.edit_at, note.edit_at + note.removed),
                new_text: copy_range(out, at, at + note.added),
            };
            let ghost cv = c@;
            changes.push(c);
            assert(views(changes@) =~= mid.push(cv));
        }
        assert(views(changes@) =~= before + line_changes(k, line@, out@, note));
        k = k + 1;
    }
    changes
}

} // verus!
