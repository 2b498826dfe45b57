//! The delimiters of a buffer, each with its closer.

use vstd::prelude::*;
use crate::lexer::{carry, lexemes, mode_at, scan_line, LexMode, Lexeme};
use crate::syntax::{DelimKind, Syntax};
use crate::text::rows;
use crate::tracker::Frame;

verus! {

/// An opening delimiter and the closer that closes it.
#[derive(Clone, Copy, Debug, PartialEq, Eq, Structural)]
pub struct Paren {
    pub kind: DelimKind,
    /// The line of the opening character.
    pub line: usize,
    /// Its column.
    pub x: usize,
    /// The line of the closing character.
    pub close_line: usize,
    /// Its column.
    pub close_x: usize,
}

/// The delimiters that are open, and the pairs that were found, after the
/// columns from `i` on of line `k` were read with `stack` open and `found`
/// found. A closer closes the innermost open delimiter; one that finds none
/// is passed over.
pub open spec fn pair_up(
    stack: Seq<Frame>,
    lex: Seq<Lexeme>,
    i: int,
    k: usize,
    found: Seq<Paren>,
) -> (Seq<Frame>, Seq<Paren>)
    decreases lex.len() - i,
{
    if i < 0 || i >= lex.len() {
        (stack, found)
    } else {
        match lex[i] {
            Lexeme::Open(kind) => pair_up(
                stack.push(Frame { kind, line: k, x: i as usize, indent: i as usize }),
                lex,
                i + 1,
                k,
                found,
            ),
            Lexeme::Close(_) => if stack.len() > 0 {
                pair_up(
                    stack.drop_last(),
                    lex,
                    i + 1,
                    k,
                    found.push(
                        Paren {
                            kind: stack.last().kind,
                            line: stack.last().line,
                            x: stack.last().x,
                            close_line: k,
                            close_x: i as usize,
                        },
                    ),
                )
            } else {
                pair_up(stack, lex, i + 1, k, found)
            },
            _ => pair_up(stack, lex, i + 1, k, found),
        }
    }
}

/// The pairs of the lines from `k` on.
pub open spec fn pair_lines(
    syn: Syntax,
    lines: Seq<Seq<char>>,
    k: int,
    mode: LexMode,
    stack: Seq<Frame>,
    found: Seq<Paren>,
) -> Seq<Paren>
    decreases lines.len() - k,
{
    if k < 0 || k >= lines.len() {
        found
    } else {
        let read = pair_up(stack, lexemes(syn, lines[k], mode), 0, k as usize, found);
        pair_lines(
            syn,
            lines,
            k + 1,
            carry(mode_at(syn, lines[k], mode, lines[k].len() as int)),
            read.0,
            read.1,
        )
    }
}

/// The pairs of delimiters of a buffer's lines, in the order of their
/// closers.
pub open spec fn parens_of(syn: Syntax, lines: Seq<Seq<char>>) -> Seq<Paren> {
    pair_lines(syn, lines, 0, LexMode::Code, Seq::empty(), Seq::empty())
}

/// Lists the pairs of delimiters of a buffer's lines.
pub fn list_parens(syn: &Syntax, lines: &Vec<Vec<char>>) -> (found: Vec<Paren>)
    ensures
        found@ == parens_of(*syn, rows(lines@)),
{
    let mut stack: Vec<Frame> = Vec::new();
    let mut found: Vec<Paren> = Vec::new();
    let mut mode = LexMode::Code;
    let mut k: usize = 0;
    while k < lines.len()
        invariant
            k <= lines.len(),
            parens_of(*syn, rows(lines@)) == pair_lines(
                *syn,
                rows(lines@),
                k as int,
                mode,
                stack@,
                found@,
            ),
        decreases lines.len() - k,
    {
        let line = &lines[k];
        let scan = scan_line(syn, line, mode);
        let ghost lex = lexemes(*syn, rows(lines@)[k as int], mode);
        let ghost stack0 = stack@;
        let ghost found0 = found@;
        let mut i: usize = 0;
        while i < scan.lexemes.len()
            invariant
                i <= scan.lexemes.len(),
                scan.lexemes@ == lex,
                pair_up(stack0, lex, 0, k, found0) == pair_up(stack@, lex, i as int, k, found@),
            decreases scan.lexemes.len() - i,
        {
            match scan.lexemes[i] {
                Lexeme::Open(kind) => {
                    stack.push(Frame { kind, line: k, x: i, indent: i });
                },
                Lexeme::Close(_) => {
                    let depth = stack.len();
                    if depth > 0 {
                        let top = stack[depth - 1];
                        let ghost before = stack@;
                        stack.pop();
                        assert(stack@ =~= before.drop_last());
                        found.push(
                            Paren {
                                kind: top.kind,
                                line: top.line,
                                x: top.x,
                                close_line: k,
                                close_x: i,
                            },
                        );
                    }
                },
                _ => {},
            }
            i = i + 1;
        }
        mode = match scan.end {
            LexMode::Text => LexMode::Text,
            LexMode::Escaped => LexMode::Text,
            _ => LexMode::Code,
        };
        k = k + 1;
    }
    found
}

} // verus!
