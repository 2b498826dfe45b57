//! The analyzer: a line's indentation, what it begins with, and its paren
//! trail.

use vstd::prelude::*;
use crate::lexer::Lexeme;
use crate::syntax::{char_class, classify, CharClass, Syntax};
use crate::text::rows;

verus! {

/// The first column at or after `i` that does not hold whitespace, or the
/// line's length.
pub open spec fn indent_from(syn: Syntax, line: Seq<char>, i: int) -> int
    decreases line.len() - i,
{
    if i < 0 || i >= line.len() || char_class(line[i], syn) != CharClass::Whitespace {
        i
    } else {
        indent_from(syn, line, i + 1)
    }
}

/// The number of whitespace characters before the line's first other
/// character.
pub open spec fn indent_of(syn: Syntax, line: Seq<char>) -> int {
    indent_from(syn, line, 0)
}

/// What a line begins with, after its indentation.
#[derive(Clone, Copy, Debug, PartialEq, Eq, Structural)]
pub enum HeadKind {
    /// Nothing: the line is empty or all whitespace.
    Blank,
    /// A comment.
    Comment,
    /// A closing delimiter.
    Closer,
    /// Anything else.
    Code,
}

/// A line's indentation and what follows it.
#[derive(Clone, Copy, Debug, PartialEq, Eq, Structural)]
pub struct Head {
    pub x: usize,
    pub kind: HeadKind,
}

/// What a line that is entered in code begins with.
pub open spec fn head_kind_of(syn: Syntax, line: Seq<char>) -> HeadKind {
    let x = indent_of(syn, line);
    if x >= line.len() {
        HeadKind::Blank
    } else {
        match char_class(line[x], syn) {
            CharClass::Comment => HeadKind::Comment,
            CharClass::Close(_) => HeadKind::Closer,
            _ => HeadKind::Code,
        }
    }
}

/// A line without code: blank, or a comment and nothing else.
pub open spec fn is_idle(syn: Syntax, line: Seq<char>) -> bool {
    head_kind_of(syn, line) == HeadKind::Blank || head_kind_of(syn, line) == HeadKind::Comment
}

/// Whitespace fills the line from `i` to the column that `indent_from` gives,
/// and the line ends there or goes on with something else.
pub proof fn lemma_indent_from(syn: Syntax, line: Seq<char>, i: int)
    requires
        0 <= i <= line.len(),
    ensures
        i <= indent_from(syn, line, i) <= line.len(),
        forall|j: int|
            i <= j < indent_from(syn, line, i) ==> char_class(#[trigger] line[j], syn)
                == CharClass::Whitespace,
        indent_from(syn, line, i) < line.len() ==> char_class(
            line[indent_from(syn, line, i)],
            syn,
        ) != CharClass::Whitespace,
    decreases line.len() - i,
{
    if i < line.len() && char_class(line[i], syn) == CharClass::Whitespace {
        lemma_indent_from(syn, line, i + 1);
    }
}

/// A column is the line's indentation if whitespace fills the line up to it
/// and the line ends there or goes on with something else.
pub proof fn lemma_indent_unique(syn: Syntax, line: Seq<char>, x: int, i: int)
    requires
        0 <= i <= x <= line.len(),
        forall|j: int| i <= j < x ==> char_class(#[trigger] line[j], syn) == CharClass::Whitespace,
        x < line.len() ==> char_class(line[x], syn) != CharClass::Whitespace,
    ensures
        indent_from(syn, line, i) == x,
    decreases x - i,
{
    if i < x {
        assert(char_class(line[i], syn) == CharClass::Whitespace);
        lemma_indent_unique(syn, line, x, i + 1);
    }
}

/// Measures a line's indentation and looks at what follows it.
pub fn head(syn: &Syntax, line: &Vec<char>) -> (h: Head)
    ensures
        h.x as int == indent_of(*syn, line@),
        h.kind == head_kind_of(*syn, line@),
        h.x <= line@.len(),
{
    let mut i: usize = 0;
    while i < line.len()
        invariant
            i <= line.len(),
            indent_of(*syn, line@) == indent_from(*syn, line@, i as int),
        decreases line.len() - i,
    {
        match classify(line[i], syn) {
            CharClass::Whitespace => {
                i = i + 1;
            },
            CharClass::Comment => {
                return Head { x: i, kind: HeadKind::Comment };
            },
            CharClass::Close(_) => {
                return Head { x: i, kind: HeadKind::Closer };
            },
            _ => {
                return Head { x: i, kind: HeadKind::Code };
            },
        }
    }
    Head { x: i, kind: HeadKind::Blank }
}

/// The first line at or after `k` that carries code, as the line before it
/// sees it.
#[derive(Clone, Copy, Debug, PartialEq, Eq, Structural)]
pub enum Follower {
    /// There is none: the buffer ends.
    End,
    /// It begins with code at this indentation.
    Code(usize),
    /// It begins with a closing delimiter.
    Closer,
}

/// The first line at or after `k` that carries code, as the line before it
/// sees it: lines that are blank or hold a comment only are passed over.
pub open spec fn follower_of(syn: Syntax, lines: Seq<Seq<char>>, k: int) -> Follower
    decreases lines.len() - k,
{
    if k < 0 || k >= lines.len() {
        Follower::End
    } else {
        match head_kind_of(syn, lines[k]) {
            HeadKind::Closer => Follower::Closer,
            HeadKind::Code => Follower::Code(indent_of(syn, lines[k]) as usize),
            _ => follower_of(syn, lines, k + 1),
        }
    }
}

/// Looks ahead for the first line at or after `k` that carries code.
pub fn find_follower(syn: &Syntax, lines: &Vec<Vec<char>>, k: usize) -> (f: Follower)
    ensures
        f == follower_of(*syn, rows(lines@), k as int),
{
    let mut j: usize = k;
    while j < lines.len()
        invariant
            follower_of(*syn, rows(lines@), k as int) == follower_of(*syn, rows(lines@), j as int),
        decreases lines.len() - j,
    {
        let h = head(syn, &lines[j]);
        assert(rows(lines@)[j as int] == lines@[j as int]@);
        match h.kind {
            HeadKind::Closer => {
                return Follower::Closer;
            },
            HeadKind::Code => {
                return Follower::Code(h.x);
            },
            _ => {},
        }
        j = j + 1;
    }
    Follower::End
}

/// A character of code that is no closing delimiter.
pub open spec fn is_solid(l: Lexeme) -> bool {
    l == Lexeme::Solid || l == Lexeme::Bad || (l is Open)
}

/// The column after the last solid character before column `i`, or 0.
pub open spec fn solid_end(lex: Seq<Lexeme>, i: int) -> int
    decreases i,
{
    if i <= 0 {
        0
    } else if is_solid(lex[i - 1]) {
        i
    } else {
        solid_end(lex, i - 1)
    }
}

/// The column after the last closing delimiter before column `i`, or 0.
pub open spec fn close_end(lex: Seq<Lexeme>, i: int) -> int
    decreases i,
{
    if i <= 0 {
        0
    } else if lex[i - 1] is Close {
        i
    } else {
        close_end(lex, i - 1)
    }
}

/// Where the line's paren trail may begin: behind its last solid character.
/// On a line whose only code is closing delimiters, behind the last of them:
/// such a line has no trail of its own.
pub open spec fn anchor_of(lex: Seq<Lexeme>) -> int {
    if solid_end(lex, lex.len() as int) > 0 {
        solid_end(lex, lex.len() as int)
    } else {
        close_end(lex, lex.len() as int)
    }
}

/// Where the line's paren trail ends: behind the last closing delimiter
/// after the anchor, or at the anchor.
pub open spec fn trail_end_of(lex: Seq<Lexeme>) -> int {
    if close_end(lex, lex.len() as int) > anchor_of(lex) {
        close_end(lex, lex.len() as int)
    } else {
        anchor_of(lex)
    }
}

/// The first column at or after `i` that holds a closing delimiter, or the
/// line's length.
pub open spec fn first_close(lex: Seq<Lexeme>, i: int) -> int
    decreases lex.len() - i,
{
    if i < 0 || i >= lex.len() || lex[i] is Close {
        i
    } else {
        first_close(lex, i + 1)
    }
}

/// The column behind the `count`-th closing delimiter at or after `i`; `i`
/// itself for a count of 0.
pub open spec fn after_closers(lex: Seq<Lexeme>, i: int, count: int) -> int
    decreases lex.len() - i,
{
    if count <= 0 || i < 0 || i >= lex.len() {
        i
    } else if lex[i] is Close {
        after_closers(lex, i + 1, count - 1)
    } else {
        after_closers(lex, i + 1, count)
    }
}

/// Neither `solid_end` nor `close_end` lies behind the column up to which
/// it looks.
pub proof fn lemma_ends_bounded(lex: Seq<Lexeme>, i: int)
    requires
        0 <= i,
    ensures
        0 <= solid_end(lex, i) <= i,
        0 <= close_end(lex, i) <= i,
    decreases i,
{
    if i > 0 {
        lemma_ends_bounded(lex, i - 1);
    }
}

/// The last solid character, if there is one, lies right before the column
/// that `solid_end` gives, and no solid character lies behind it.
pub proof fn lemma_solid_end(lex: Seq<Lexeme>, i: int)
    requires
        0 <= i <= lex.len(),
    ensures
        solid_end(lex, i) > 0 ==> is_solid(lex[solid_end(lex, i) - 1]),
        forall|j: int| solid_end(lex, i) <= j < i ==> !is_solid(#[trigger] lex[j]),
    decreases i,
{
    if i > 0 && !is_solid(lex[i - 1]) {
        lemma_solid_end(lex, i - 1);
    }
}

/// The last closing delimiter, if there is one, lies right before the column
/// that `close_end` gives, and no closing delimiter lies behind it.
pub proof fn lemma_close_end(lex: Seq<Lexeme>, i: int)
    requires
        0 <= i <= lex.len(),
    ensures
        close_end(lex, i) > 0 ==> lex[close_end(lex, i) - 1] is Close,
        forall|j: int| close_end(lex, i) <= j < i ==> !(#[trigger] lex[j] is Close),
    decreases i,
{
    if i > 0 && !(lex[i - 1] is Close) {
        lemma_close_end(lex, i - 1);
    }
}

/// A line that begins with code has its anchor behind its indentation.
pub proof fn lemma_anchor_past_indent(lex: Seq<Lexeme>, x: int)
    requires
        0 <= x < lex.len(),
        forall|j: int| 0 <= j < x ==> lex[j] == Lexeme::Blank,
        is_solid(lex[x]) || lex[x] is Close,
    ensures
        x < anchor_of(lex) <= lex.len(),
{
    lemma_solid_end(lex, lex.len() as int);
    lemma_close_end(lex, lex.len() as int);
    lemma_ends_bounded(lex, lex.len() as int);
    let s = solid_end(lex, lex.len() as int);
    if s > 0 {
        if s - 1 < x {
            assert(lex[s - 1] == Lexeme::Blank);
        }
    } else {
        assert(!is_solid(lex[x]));
    }
}

/// A line's paren trail: the columns from `anchor` to `end` hold closing
/// delimiters, whitespace between them, and nothing else.
#[derive(Clone, Copy, Debug, PartialEq, Eq, Structural)]
pub struct Trail {
    pub anchor: usize,
    pub end: usize,
}

fn solid(l: Lexeme) -> (b: bool)
    ensures
        b == is_solid(l),
{
    match l {
        Lexeme::Solid => true,
        Lexeme::Bad => true,
        Lexeme::Open(_) => true,
        _ => false,
    }
}

fn closing(l: Lexeme) -> (b: bool)
    ensures
        b == (l is Close),
{
    match l {
        Lexeme::Close(_) => true,
        _ => false,
    }
}

/// Finds the paren trail of a scanned line.
pub fn find_trail(lex: &Vec<Lexeme>) -> (t: Trail)
    ensures
        t.anchor as int == anchor_of(lex@),
        t.end as int == trail_end_of(lex@),
        t.anchor <= t.end <= lex@.len(),
{
    let mut s: usize = lex.len();
    while s > 0 && !solid(lex[s - 1])
        invariant
            s <= lex.len(),
            solid_end(lex@, lex@.len() as int) == solid_end(lex@, s as int),
        decreases s,
    {
        s = s - 1;
    }
    let mut c: usize = lex.len();
    while c > 0 && !closing(lex[c - 1])
        invariant
            c <= lex.len(),
            close_end(lex@, lex@.len() as int) == close_end(lex@, c as int),
        decreases c,
    {
        c = c - 1;
    }
    let anchor = if s > 0 {
        s
    } else {
        c
    };
    let end = if c > anchor {
        c
    } else {
        anchor
    };
    Trail { anchor, end }
}

/// Finds the column behind the `count`-th closing delimiter at or after
/// `from`.
pub fn skip_closers(lex: &Vec<Lexeme>, from: usize, count: usize) -> (at: usize)
    requires
        from <= lex@.len(),
    ensures
        at as int == after_closers(lex@, from as int, count as int),
        from <= at <= lex@.len(),
{
    let mut i: usize = from;
    let mut left: usize = count;
    while left > 0 && i < lex.len()
        invariant
            from <= i <= lex.len(),
            after_closers(lex@, from as int, count as int) == after_closers(
                lex@,
                i as int,
                left as int,
            ),
        decreases lex.len() - i,
    {
        if closing(lex[i]) {
            left = left - 1;
        }
        i = i + 1;
    }
    i
}

/// Finds the first closing delimiter at or after `from`.
pub fn find_close(lex: &Vec<Lexeme>, from: usize) -> (at: usize)
    requires
        from <= lex@.len(),
    ensures
        at as int == first_close(lex@, from as int),
        from <= at <= lex@.len(),
{
    let mut i: usize = from;
    while i < lex.len() && !closing(lex[i])
        invariant
            from <= i <= lex.len(),
            first_close(lex@, from as int) == first_close(lex@, i as int),
        decreases lex.len() - i,
    {
        i = i + 1;
    }
    i
}

} // verus!
