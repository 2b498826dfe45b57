//! The scanner: what each character of a line is, given what came before it.

use vstd::prelude::*;
use crate::syntax::{char_class, classify, CharClass, DelimKind, Syntax};

verus! {

/// Where the scanner stands between two characters of a line.
#[derive(Clone, Copy, Debug, PartialEq, Eq, Structural)]
pub enum LexMode {
    /// In code.
    Code,
    /// Inside a string.
    Text,
    /// Inside a string, right after an escape character.
    Escaped,
    /// Inside a comment.
    Remark,
}

/// What one character of a line is in its place.
#[derive(Clone, Copy, Debug, PartialEq, Eq, Structural)]
pub enum Lexeme {
    /// Whitespace between code.
    Blank,
    /// An opening delimiter in code.
    Open(DelimKind),
    /// A closing delimiter in code.
    Close(DelimKind),
    /// Any other character of code, a quote or a character inside a string.
    Solid,
    /// A character of a comment, its first included.
    Remark,
    /// A character with more than one role, met in code or in a string.
    Bad,
}

/// The mode after a character of class `cls` was read in mode `mode`.
pub open spec fn step_mode(mode: LexMode, cls: CharClass) -> LexMode {
    match mode {
        LexMode::Code => match cls {
            CharClass::Quote => LexMode::Text,
            CharClass::Comment => LexMode::Remark,
            _ => LexMode::Code,
        },
        LexMode::Text => match cls {
            CharClass::Quote => LexMode::Code,
            CharClass::Escape => LexMode::Escaped,
            _ => LexMode::Text,
        },
        LexMode::Escaped => LexMode::Text,
        LexMode::Remark => LexMode::Remark,
    }
}

/// What a character of class `cls` is when it is read in mode `mode`.
pub open spec fn lexeme_of(mode: LexMode, cls: CharClass) -> Lexeme {
    match mode {
        LexMode::Code => match cls {
            CharClass::Whitespace => Lexeme::Blank,
            CharClass::Open(kind) => Lexeme::Open(kind),
            CharClass::Close(kind) => Lexeme::Close(kind),
            CharClass::Comment => Lexeme::Remark,
            CharClass::Unhandled => Lexeme::Bad,
            _ => Lexeme::Solid,
        },
        LexMode::Text => match cls {
            CharClass::Unhandled => Lexeme::Bad,
            _ => Lexeme::Solid,
        },
        LexMode::Escaped => Lexeme::Solid,
        LexMode::Remark => Lexeme::Remark,
    }
}

/// The mode in which the line's character `i` is read, when the line is
/// entered in mode `start`. For `i == line.len()` this is the mode at the end
/// of the line.
pub open spec fn mode_at(syn: Syntax, line: Seq<char>, start: LexMode, i: int) -> LexMode
    decreases i,
{
    if i <= 0 {
        start
    } else {
        step_mode(mode_at(syn, line, start, i - 1), char_class(line[i - 1], syn))
    }
}

/// What the line's character `i` is.
pub open spec fn lexeme_at(syn: Syntax, line: Seq<char>, start: LexMode, i: int) -> Lexeme {
    lexeme_of(mode_at(syn, line, start, i), char_class(line[i], syn))
}

/// What each character of the line is.
pub open spec fn lexemes(syn: Syntax, line: Seq<char>, start: LexMode) -> Seq<Lexeme> {
    Seq::new(line.len(), |i: int| lexeme_at(syn, line, start, i))
}

/// The column of the quote that opened the string in which the scanner
/// stands before character `i`, if that quote is on this line.
pub open spec fn quote_at(syn: Syntax, line: Seq<char>, start: LexMode, i: int) -> Option<int>
    decreases i,
{
    if i <= 0 {
        None
    } else if mode_at(syn, line, start, i - 1) == LexMode::Code && mode_at(syn, line, start, i)
        == LexMode::Text {
        Some(i - 1)
    } else if mode_at(syn, line, start, i) == LexMode::Text || mode_at(syn, line, start, i)
        == LexMode::Escaped {
        quote_at(syn, line, start, i - 1)
    } else {
        None
    }
}

/// The mode in which the next line is entered: a string goes on, a comment
/// and an escape do not.
pub open spec fn carry(mode: LexMode) -> LexMode {
    match mode {
        LexMode::Text => LexMode::Text,
        LexMode::Escaped => LexMode::Text,
        _ => LexMode::Code,
    }
}

/// What a scan of one line found.
pub struct LineScan {
    /// What each character is.
    pub lexemes: Vec<Lexeme>,
    /// The mode at the end of the line.
    pub end: LexMode,
    /// The column of the quote that opened the string still open at the end
    /// of the line, if it is on this line.
    pub quote: Option<usize>,
}

fn next_mode(mode: LexMode, cls: CharClass) -> (r: LexMode)
    ensures
        r == step_mode(mode, cls),
{
    match mode {
        LexMode::Code => match cls {
            CharClass::Quote => LexMode::Text,
            CharClass::Comment => LexMode::Remark,
            _ => LexMode::Code,
        },
        LexMode::Text => match cls {
            CharClass::Quote => LexMode::Code,
            CharClass::Escape => LexMode::Escaped,
            _ => LexMode::Text,
        },
        LexMode::Escaped => LexMode::Text,
        LexMode::Remark => LexMode::Remark,
    }
}

fn lexeme(mode: LexMode, cls: CharClass) -> (r: Lexeme)
    ensures
        r == lexeme_of(mode, cls),
{
    match mode {
        LexMode::Code => match cls {
            CharClass::Whitespace => Lexeme::Blank,
            CharClass::Open(kind) => Lexeme::Open(kind),
            CharClass::Close(kind) => Lexeme::Close(kind),
            CharClass::Comment => Lexeme::Remark,
            CharClass::Unhandled => Lexeme::Bad,
            _ => Lexeme::Solid,
        },
        LexMode::Text => match cls {
            CharClass::Unhandled => Lexeme::Bad,
            _ => Lexeme::Solid,
        },
        LexMode::Escaped => Lexeme::Solid,
        LexMode::Remark => Lexeme::Remark,
    }
}

/// Scans one line that is entered in mode `start`.
pub fn scan_line(syn: &Syntax, line: &Vec<char>, start: LexMode) -> (scan: LineScan)
    ensures
        scan.lexemes@ == lexemes(*syn, line@, start),
        scan.end == mode_at(*syn, line@, start, line@.len() as int),
        scan.quote.is_some() == quote_at(*syn, line@, start, line@.len() as int).is_some(),
        scan.quote.is_some() ==> scan.quote.unwrap() as int == quote_at(
            *syn,
            line@,
            start,
            line@.len() as int,
        ).unwrap(),
{
    let mut out: Vec<Lexeme> = Vec::new();
    let mut mode = start;
    let mut quote: Option<usize> = None;
    let mut i: usize = 0;
    while i < line.len()
        invariant
            i <= line.len(),
            out@.len() == i,
            forall|j: int| 0 <= j < i ==> out@[j] == lexeme_at(*syn, line@, start, j),
            mode == mode_at(*syn, line@, start, i as int),
            quote.is_some() == quote_at(*syn, line@, start, i as int).is_some(),
            quote.is_some() ==> quote.unwrap() as int == quote_at(
                *syn,
                line@,
                start,
                i as int,
            ).unwrap(),
        decreases line.len() - i,
    {
        let cls = classify(line[i], syn);
        out.push(lexeme(mode, cls));
        let after = next_mode(mode, cls);
        match (mode, after) {
            (LexMode::Code, LexMode::Text) => {
                quote = Some(i);
            },
            (_, LexMode::Text) => {},
            (_, LexMode::Escaped) => {},
            _ => {
                quote = None;
            },
        }
        mode = after;
        i = i + 1;
    }
    assert(out@ =~= lexemes(*syn, line@, start));
    LineScan { lexemes: out, end: mode, quote }
}

/// Whitespace at the start of a line that is entered in code is blank, and
/// the scanner is still in code behind it.
pub proof fn lemma_blank_prefix(syn: Syntax, line: Seq<char>, x: int)
    requires
        0 <= x <= line.len(),
        forall|j: int| 0 <= j < x ==> char_class(#[trigger] line[j], syn) == CharClass::Whitespace,
    ensures
        forall|j: int| 0 <= j <= x ==> mode_at(syn, line, LexMode::Code, j) == LexMode::Code,
        forall|j: int| 0 <= j < x ==> lexeme_at(syn, line, LexMode::Code, j) == Lexeme::Blank,
    decreases x,
{
    if x > 0 {
        lemma_blank_prefix(syn, line, x - 1);
        assert(char_class(line[x - 1], syn) == CharClass::Whitespace);
        assert(mode_at(syn, line, LexMode::Code, x - 1) == LexMode::Code);
    }
}

/// The quote that opened a string is a solid character of its line.
pub proof fn lemma_quote_is_solid(syn: Syntax, line: Seq<char>, start: LexMode, i: int)
    requires
        0 <= i <= line.len(),
        quote_at(syn, line, start, i).is_some(),
    ensures
        0 <= quote_at(syn, line, start, i).unwrap() < i,
        lexeme_at(syn, line, start, quote_at(syn, line, start, i).unwrap()) == Lexeme::Solid,
    decreases i,
{
    if i > 0 {
        if mode_at(syn, line, start, i - 1) == LexMode::Code && mode_at(syn, line, start, i)
            == LexMode::Text {
        } else {
            lemma_quote_is_solid(syn, line, start, i - 1);
        }
    }
}

} // verus!
