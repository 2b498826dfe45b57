//! A buffer as lines: split at every line feed, joined with one.
//!
//! A carriage return before a line feed stays on its line as trailing
//! whitespace, so a buffer keeps its separators whichever convention it
//! follows.

use vstd::prelude::*;

verus! {

/// The lines of `text[i..]`, the first of them with `cur` in front.
pub open spec fn split_from(text: Seq<char>, i: int, cur: Seq<char>) -> Seq<Seq<char>>
    decreases text.len() - i,
{
    if i < 0 || i >= text.len() {
        seq![cur]
    } else if text[i] == '\n' {
        seq![cur] + split_from(text, i + 1, Seq::empty())
    } else {
        split_from(text, i + 1, cur.push(text[i]))
    }
}

/// The lines of a buffer. There is always at least one; a buffer that ends
/// with a line feed has an empty last line.
pub open spec fn split_lines(text: Seq<char>) -> Seq<Seq<char>> {
    split_from(text, 0, Seq::empty())
}

/// The buffer that holds the given lines.
pub open spec fn join_lines(lines: Seq<Seq<char>>) -> Seq<char>
    decreases lines.len(),
{
    if lines.len() == 0 {
        Seq::empty()
    } else if lines.len() == 1 {
        lines[0]
    } else {
        join_lines(lines.drop_last()) + seq!['\n'] + lines.last()
    }
}

/// No line holds a line feed.
pub open spec fn single_lines(lines: Seq<Seq<char>>) -> bool {
    forall|k: int, j: int|
        0 <= k < lines.len() && 0 <= j < lines[k].len() ==> (#[trigger] lines[k][j]) != '\n'
}

/// The characters of each line.
pub open spec fn rows(lines: Seq<Vec<char>>) -> Seq<Seq<char>> {
    Seq::new(lines.len(), |k: int| lines[k]@)
}

/// The number of characters that the first `k` lines take in their buffer,
/// each with the line feed behind it.
pub open spec fn span(lines: Seq<Seq<char>>, k: int) -> int
    decreases k,
{
    if k <= 0 {
        0
    } else {
        span(lines, k - 1) + lines[k - 1].len() + 1
    }
}

/// More lines take no less room.
pub proof fn lemma_span_monotone(lines: Seq<Seq<char>>, j: int, k: int)
    requires
        0 <= j <= k,
    ensures
        span(lines, j) <= span(lines, k),
    decreases k,
{
    if j < k {
        lemma_span_monotone(lines, j, k - 1);
    }
}

proof fn lemma_span_prefix(lines: Seq<Seq<char>>, other: Seq<Seq<char>>, k: int)
    requires
        0 <= k <= lines.len(),
        k <= other.len(),
        forall|j: int| 0 <= j < k ==> lines[j] == other[j],
    ensures
        span(lines, k) == span(other, k),
    decreases k,
{
    if k > 0 {
        lemma_span_prefix(lines, other, k - 1);
    }
}

/// A buffer of `n` lines holds their characters and `n - 1` line feeds.
pub proof fn lemma_join_len(lines: Seq<Seq<char>>)
    requires
        lines.len() > 0,
    ensures
        join_lines(lines).len() + 1 == span(lines, lines.len() as int),
    decreases lines.len(),
{
    if lines.len() == 1 {
        assert(span(lines, 0) == 0);
    } else {
        lemma_join_len(lines.drop_last());
        lemma_span_prefix(lines, lines.drop_last(), lines.len() - 1);
    }
}

proof fn lemma_join_prepend(first: Seq<char>, rest: Seq<Seq<char>>)
    requires
        rest.len() > 0,
    ensures
        join_lines(seq![first] + rest) == first + seq!['\n'] + join_lines(rest),
    decreases rest.len(),
{
    let all = seq![first] + rest;
    if rest.len() == 1 {
        assert(all.drop_last() =~= seq![first]);
        assert(all.last() == rest[0]);
        assert(join_lines(all.drop_last()) == first);
    } else {
        assert(all.drop_last() =~= seq![first] + rest.drop_last());
        lemma_join_prepend(first, rest.drop_last());
        assert(all.last() == rest.last());
        assert(join_lines(all) =~= first + seq!['\n'] + join_lines(rest));
    }
}

proof fn lemma_split_from_shape(text: Seq<char>, i: int, cur: Seq<char>)
    requires
        0 <= i <= text.len(),
        forall|j: int| 0 <= j < cur.len() ==> cur[j] != '\n',
    ensures
        split_from(text, i, cur).len() > 0,
        single_lines(split_from(text, i, cur)),
        join_lines(split_from(text, i, cur)) == cur + text.skip(i),
    decreases text.len() - i,
{
    if i >= text.len() {
        assert(text.skip(i) =~= Seq::<char>::empty());
        assert(cur + text.skip(i) =~= cur);
    } else if text[i] == '\n' {
        let rest = split_from(text, i + 1, Seq::empty());
        lemma_split_from_shape(text, i + 1, Seq::empty());
        lemma_join_prepend(cur, rest);
        assert(Seq::<char>::empty() + text.skip(i + 1) =~= text.skip(i + 1));
        assert(cur + seq!['\n'] + text.skip(i + 1) =~= cur + text.skip(i));
        let all = seq![cur] + rest;
        assert forall|k: int, j: int| 0 <= k < all.len() && 0 <= j < all[k].len() implies (
        #[trigger] all[k][j]) != '\n' by {
            if k > 0 {
                assert(all[k] == rest[k - 1]);
                assert(rest[k - 1][j] != '\n');
            }
        }
    } else {
        lemma_split_from_shape(text, i + 1, cur.push(text[i]));
        assert(cur.push(text[i]) + text.skip(i + 1) =~= cur + text.skip(i));
    }
}

/// Splitting loses nothing: the lines of a buffer, joined, are the buffer;
/// there is at least one line and none holds a line feed.
pub proof fn lemma_split_then_join(text: Seq<char>)
    ensures
        split_lines(text).len() > 0,
        single_lines(split_lines(text)),
        join_lines(split_lines(text)) == text,
{
    lemma_split_from_shape(text, 0, Seq::empty());
    assert(Seq::<char>::empty() + text.skip(0) =~= text);
}

proof fn lemma_split_from_line(text: Seq<char>, i: int, cur: Seq<char>)
    requires
        0 <= i <= text.len(),
        forall|j: int| i <= j < text.len() ==> text[j] != '\n',
    ensures
        split_from(text, i, cur) == seq![cur + text.skip(i)],
    decreases text.len() - i,
{
    if i >= text.len() {
        assert(cur + text.skip(i) =~= cur);
    } else {
        lemma_split_from_line(text, i + 1, cur.push(text[i]));
        assert(cur.push(text[i]) + text.skip(i + 1) =~= cur + text.skip(i));
    }
}

proof fn lemma_split_from_shift(p: Seq<char>, b: Seq<char>, j: int, cur: Seq<char>)
    requires
        0 <= j <= b.len(),
    ensures
        split_from(p + b, p.len() + j, cur) == split_from(b, j, cur),
    decreases b.len() - j,
{
    if j < b.len() {
        assert((p + b)[p.len() + j] == b[j]);
        if b[j] == '\n' {
            lemma_split_from_shift(p, b, j + 1, Seq::empty());
        } else {
            lemma_split_from_shift(p, b, j + 1, cur.push(b[j]));
        }
    }
}

proof fn lemma_split_from_append(a: Seq<char>, b: Seq<char>, i: int, cur: Seq<char>)
    requires
        0 <= i <= a.len(),
    ensures
        split_from(a + seq!['\n'] + b, i, cur) == split_from(a, i, cur) + split_from(
            b,
            0,
            Seq::empty(),
        ),
    decreases a.len() - i,
{
    let text = a + seq!['\n'] + b;
    if i == a.len() {
        assert(text[i] == '\n');
        lemma_split_from_shift(a + seq!['\n'], b, 0, Seq::empty());
    } else {
        assert(text[i] == a[i]);
        if a[i] == '\n' {
            lemma_split_from_append(a, b, i + 1, Seq::empty());
            assert(seq![cur] + (split_from(a, i + 1, Seq::empty()) + split_from(
                b,
                0,
                Seq::empty(),
            )) =~= (seq![cur] + split_from(a, i + 1, Seq::empty())) + split_from(
                b,
                0,
                Seq::empty(),
            ));
        } else {
            lemma_split_from_append(a, b, i + 1, cur.push(a[i]));
        }
    }
}

/// Joining loses nothing: a buffer made of lines without line feeds splits
/// into those lines.
pub proof fn lemma_join_then_split(lines: Seq<Seq<char>>)
    requires
        lines.len() > 0,
        single_lines(lines),
    ensures
        split_lines(join_lines(lines)) == lines,
    decreases lines.len(),
{
    if lines.len() == 1 {
        lemma_split_from_line(lines[0], 0, Seq::empty());
        assert(Seq::<char>::empty() + lines[0].skip(0) =~= lines[0]);
        assert(lines =~= seq![lines[0]]);
    } else {
        let front = lines.drop_last();
        let last = lines.last();
        assert(single_lines(front)) by {
            assert forall|k: int, j: int| 0 <= k < front.len() && 0 <= j < front[k].len() implies (
            #[trigger] front[k][j]) != '\n' by {
                assert(front[k] == lines[k]);
                assert(lines[k][j] != '\n');
            }
        }
        lemma_join_then_split(front);
        lemma_split_from_append(join_lines(front), last, 0, Seq::empty());
        assert forall|j: int| 0 <= j < last.len() implies last[j] != '\n' by {
            assert(lines[lines.len() - 1][j] != '\n');
        }
        lemma_split_from_line(last, 0, Seq::empty());
        assert(Seq::<char>::empty() + last.skip(0) =~= last);
        assert(front + seq![last] =~= lines);
    }
}

/// Splits a buffer into its lines.
pub fn split(text: &Vec<char>) -> (lines: Vec<Vec<char>>)
    ensures
        rows(lines@) == split_lines(text@),
{
    let mut lines: Vec<Vec<char>> = Vec::new();
    let mut cur: Vec<char> = Vec::new();
    let mut i: usize = 0;
    while i < text.len()
        invariant
            i <= text.len(),
            split_lines(text@) == rows(lines@) + split_from(text@, i as int, cur@),
        decreases text.len() - i,
    {
        let c = text[i];
        let ghost before = rows(lines@);
        if c == '\n' {
            let ghost line = cur@;
            lines.push(cur);
            cur = Vec::new();
            assert(rows(lines@) =~= before + seq![line]);
            assert(before + (seq![line] + split_from(text@, i + 1, Seq::empty())) =~= (before
                + seq![line]) + split_from(text@, i + 1, Seq::empty()));
        } else {
            cur.push(c);
        }
        i = i + 1;
    }
    let ghost before = rows(lines@);
    let ghost line = cur@;
    lines.push(cur);
    assert(rows(lines@) =~= before + seq![line]);
    lines
}

/// Copies the columns `from..to` of a line.
pub fn copy_range(line: &Vec<char>, from: usize, to: usize) -> (out: Vec<char>)
    requires
        from <= to <= line@.len(),
    ensures
        out@ == line@.subrange(from as int, to as int),
{
    let mut out: Vec<char> = Vec::new();
    let mut i: usize = from;
    while i < to
        invariant
            from <= i <= to <= line@.len(),
            out@ == line@.subrange(from as int, i as int),
        decreases to - i,
    {
        out.push(line[i]);
        assert(line@.subrange(from as int, i + 1) =~= line@.subrange(from as int, i as int).push(
            line@[i as int],
        ));
        i = i + 1;
    }
    out
}

/// Joins lines into one buffer.
pub fn join(lines: &Vec<Vec<char>>) -> (text: Vec<char>)
    ensures
        text@ == join_lines(rows(lines@)),
{
    let mut text: Vec<char> = Vec::new();
    let mut k: usize = 0;
    while k < lines.len()
        invariant
            k <= lines.len(),
            text@ == join_lines(rows(lines@).take(k as int)),
        decreases lines.len() - k,
    {
        if k > 0 {
            text.push('\n');
        }
        let line = &lines[k];
        let ghost head = text@;
        let mut j: usize = 0;
        while j < line.len()
            invariant
                j <= line.len(),
                text@ == head + line@.take(j as int),
            decreases line.len() - j,
        {
            text.push(line[j]);
            assert(line@.take(j + 1) =~= line@.take(j as int).push(line@[j as int]));
            j = j + 1;
        }
        proof {
            let upto = rows(lines@).take(k + 1);
            assert(line@.take(line@.len() as int) =~= line@);
            assert(upto.drop_last() =~= rows(lines@).take(k as int));
            assert(upto.last() == line@);
            if k == 0 {
                assert(join_lines(rows(lines@).take(0)) =~= Seq::<char>::empty());
                assert(text@ =~= line@);
            }
        }
        k = k + 1;
    }
    assert(rows(lines@).take(lines@.len() as int) =~= rows(lines@));
    text
}

} // verus!
