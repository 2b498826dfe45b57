//! What the scan of a line looks like around its paren trail, and what the
//! scan of a corrected line looks like.

use vstd::prelude::*;
use crate::analyzer::{
    anchor_of, is_solid, lemma_close_end, lemma_ends_bounded, lemma_solid_end, trail_end_of,
};
use crate::engine::{closers, indent_part, patched};
use crate::lexer::{lexeme_at, lexemes, mode_at, LexMode, Lexeme};
use crate::lexer_laws::{
    blanks, closes, end_mode, lemma_closers_scan, lemma_lexemes_concat, lemma_lexemes_subrange,
    lemma_whitespace_scan,
};
use crate::syntax::{char_class, CharClass, DelimKind, Syntax};

verus! {

/// A line is entered in code or inside a string.
pub open spec fn is_entry(mode: LexMode) -> bool {
    mode == LexMode::Code || mode == LexMode::Text
}

/// The line ends outside a string.
pub open spec fn ends_in_code(syn: Syntax, line: Seq<char>, start: LexMode) -> bool {
    end_mode(syn, line, start) == LexMode::Code || end_mode(syn, line, start) == LexMode::Remark
}

/// How a character's lexeme and the modes around it go together.
pub proof fn lemma_lexeme_modes(syn: Syntax, line: Seq<char>, start: LexMode, i: int)
    requires
        0 <= i < line.len(),
    ensures
        (lexeme_at(syn, line, start, i) == Lexeme::Remark) == (mode_at(syn, line, start, i + 1)
            == LexMode::Remark),
        !is_solid(lexeme_at(syn, line, start, i)) && lexeme_at(syn, line, start, i)
            != Lexeme::Remark ==> mode_at(syn, line, start, i) == LexMode::Code && mode_at(
            syn,
            line,
            start,
            i + 1,
        ) == LexMode::Code,
        mode_at(syn, line, start, i) == LexMode::Text || mode_at(syn, line, start, i)
            == LexMode::Escaped ==> is_solid(lexeme_at(syn, line, start, i)),
        mode_at(syn, line, start, i) == LexMode::Remark ==> lexeme_at(syn, line, start, i)
            == Lexeme::Remark,
{
    assert(mode_at(syn, line, start, i + 1) == crate::lexer::step_mode(
        mode_at(syn, line, start, i),
        char_class(line[i], syn),
    ));
}

/// A comment runs to the end of its line.
pub proof fn lemma_remark_sticky(syn: Syntax, line: Seq<char>, start: LexMode, i: int, j: int)
    requires
        0 <= i <= j <= line.len(),
        mode_at(syn, line, start, i) == LexMode::Remark,
    ensures
        mode_at(syn, line, start, j) == LexMode::Remark,
    decreases j - i,
{
    if i < j {
        lemma_remark_sticky(syn, line, start, i, j - 1);
    }
}

/// Blanks and delimiters keep the scanner in code.
pub proof fn lemma_code_run(syn: Syntax, line: Seq<char>, start: LexMode, a: int, j: int)
    requires
        0 <= a <= j <= line.len(),
        mode_at(syn, line, start, a) == LexMode::Code,
        forall|t: int|
            a <= t < j ==> !is_solid(#[trigger] lexemes(syn, line, start)[t]) && lexemes(
                syn,
                line,
                start,
            )[t] != Lexeme::Remark,
    ensures
        mode_at(syn, line, start, j) == LexMode::Code,
    decreases j - a,
{
    if a < j {
        lemma_code_run(syn, line, start, a, j - 1);
        assert(!is_solid(lexemes(syn, line, start)[j - 1]));
        lemma_lexeme_modes(syn, line, start, j - 1);
    }
}

/// On a line that ends outside a string, the scanner is in code from the
/// anchor to the end of the trail; between them lie blanks and closers,
/// behind them blanks and a comment.
pub proof fn lemma_trail_region(syn: Syntax, line: Seq<char>, start: LexMode)
    requires
        is_entry(start),
        ends_in_code(syn, line, start),
    ensures
        ({
            let lex = lexemes(syn, line, start);
            let a = anchor_of(lex);
            let e = trail_end_of(lex);
            &&& 0 <= a <= e <= line.len()
            &&& forall|j: int| a <= j <= e ==> mode_at(syn, line, start, j) == LexMode::Code
            &&& forall|j: int| a <= j < e ==> (#[trigger] lex[j] == Lexeme::Blank || lex[j] is Close)
            &&& forall|j: int|
                e <= j < line.len() ==> (#[trigger] lex[j] == Lexeme::Blank || lex[j]
                    == Lexeme::Remark)
        }),
{
    let lex = lexemes(syn, line, start);
    let n = line.len() as int;
    let a = anchor_of(lex);
    let e = trail_end_of(lex);
    lemma_solid_end(lex, n);
    lemma_close_end(lex, n);
    lemma_ends_bounded(lex, n);
    assert forall|j: int| a <= j < n implies !is_solid(#[trigger] lex[j]) by {}
    // The scanner is in code at the anchor.
    assert(mode_at(syn, line, start, a) == LexMode::Code) by {
        if a > 0 {
            lemma_lexeme_modes(syn, line, start, a - 1);
            assert(lex[a - 1] == lexeme_at(syn, line, start, a - 1));
        }
        if a < n {
            lemma_lexeme_modes(syn, line, start, a);
            assert(lex[a] == lexeme_at(syn, line, start, a));
        }
    }
    assert forall|j: int| a <= j < e implies (#[trigger] lex[j] == Lexeme::Blank || lex[j] is Close) by {
        if lex[j] == Lexeme::Remark {
            lemma_lexeme_modes(syn, line, start, j);
            lemma_remark_sticky(syn, line, start, j + 1, e - 1);
            lemma_lexeme_modes(syn, line, start, e - 1);
            assert(lex[e - 1] == lexeme_at(syn, line, start, e - 1));
        }
    }
    assert forall|j: int| a <= j <= e implies mode_at(syn, line, start, j) == LexMode::Code by {
        lemma_code_run(syn, line, start, a, j);
    }
}

/// The scan of a corrected line: blanks for its indentation, the line's
/// scan from there to the edit, the inserted closers, and the line's scan
/// behind what was removed. The corrected line ends in the mode in which the
/// line ends.
pub proof fn lemma_patched_lexemes(
    syn: Syntax,
    line: Seq<char>,
    start: LexMode,
    x: int,
    n: int,
    at: int,
    removed: int,
    added: Seq<DelimKind>,
)
    requires
        0 <= x <= at,
        0 <= removed,
        at + removed <= line.len(),
        0 <= n,
        start != LexMode::Code ==> x == 0 && n == 0,
        forall|j: int| 0 <= j < x ==> char_class(#[trigger] line[j], syn) == CharClass::Whitespace,
        mode_at(syn, line, start, at) == mode_at(syn, line, start, at + removed),
        added.len() > 0 ==> mode_at(syn, line, start, at) == LexMode::Code,
    ensures
        lexemes(syn, patched(line, x, n, at, removed, added), start) == blanks(n) + lexemes(
            syn,
            line,
            start,
        ).subrange(x, at) + closes(added) + lexemes(syn, line, start).skip(at + removed),
        end_mode(syn, patched(line, x, n, at, removed, added), start) == end_mode(
            syn,
            line,
            start,
        ),
{
    let lex = lexemes(syn, line, start);
    let p = indent_part(line, x, n);
    let m = line.subrange(x, at);
    let c = closers(added);
    let t = line.skip(at + removed);
    // the indentation
    assert(lexemes(syn, p, start) == blanks(n) && end_mode(syn, p, start) == mode_at(
        syn,
        line,
        start,
        x,
    )) by {
        if start == LexMode::Code {
            assert forall|j: int| 0 <= j < p.len() implies char_class(#[trigger] p[j], syn)
                == CharClass::Whitespace by {
                if n == x {
                    assert(p[j] == line[j]);
                } else {
                    assert(p[j] == ' ');
                }
            }
            lemma_whitespace_scan(syn, p);
            crate::lexer::lemma_blank_prefix(syn, line, x);
        } else {
            assert(p =~= Seq::<char>::empty());
            assert(lexemes(syn, p, start) =~= blanks(0));
        }
    }
    // the code up to the edit
    lemma_lexemes_subrange(syn, line, start, x, at);
    // the closers
    assert(c =~= Seq::new(added.len(), |i: int| crate::syntax::closer_of(added[i])));
    if added.len() > 0 {
        lemma_closers_scan(syn, added);
    } else {
        assert(lexemes(syn, c, mode_at(syn, line, start, at)) =~= closes(added));
    }
    // the rest
    lemma_lexemes_subrange(syn, line, start, at + removed, line.len() as int);
    assert(t =~= line.subrange(at + removed, line.len() as int));
    assert(lex.subrange(at + removed, line.len() as int) =~= lex.skip(at + removed));
    lemma_lexemes_concat(syn, p, m, start);
    lemma_lexemes_concat(syn, p + m, c, start);
    lemma_lexemes_concat(syn, p + m + c, t, start);
}

/// A line that ends inside a string has no trail: its anchor is its end.
pub proof fn lemma_string_end_anchor(syn: Syntax, line: Seq<char>, start: LexMode)
    requires
        is_entry(start),
        !ends_in_code(syn, line, start),
    ensures
        anchor_of(lexemes(syn, line, start)) == line.len(),
{
    let lex = lexemes(syn, line, start);
    let n = line.len() as int;
    if n > 0 {
        lemma_lexeme_modes(syn, line, start, n - 1);
        assert(lex[n - 1] == lexeme_at(syn, line, start, n - 1));
        assert(is_solid(lex[n - 1]));
    }
}

/// A string that is open at a column and was not opened on the line was
/// open when the line was entered.
pub proof fn lemma_string_from_before(syn: Syntax, line: Seq<char>, start: LexMode, i: int)
    requires
        0 <= i <= line.len(),
        is_entry(start),
        mode_at(syn, line, start, i) == LexMode::Text || mode_at(syn, line, start, i)
            == LexMode::Escaped,
        crate::lexer::quote_at(syn, line, start, i).is_none(),
    ensures
        start == LexMode::Text,
    decreases i,
{
    if i > 0 {
        let before = mode_at(syn, line, start, i - 1);
        if before == LexMode::Text || before == LexMode::Escaped {
            lemma_string_from_before(syn, line, start, i - 1);
        }
    }
}

/// A line without code, entered in code, scans as blanks and a comment and
/// ends outside a string.
pub proof fn lemma_idle_scan(syn: Syntax, line: Seq<char>)
    requires
        crate::analyzer::is_idle(syn, line),
    ensures
        forall|j: int|
            0 <= j < line.len() ==> (#[trigger] lexemes(syn, line, LexMode::Code)[j]
                == Lexeme::Blank || lexemes(syn, line, LexMode::Code)[j] == Lexeme::Remark),
        ends_in_code(syn, line, LexMode::Code),
{
    let x = crate::analyzer::indent_of(syn, line);
    let n = line.len() as int;
    crate::analyzer::lemma_indent_from(syn, line, 0);
    crate::lexer::lemma_blank_prefix(syn, line, x);
    if x < n {
        assert(char_class(line[x], syn) == CharClass::Comment);
        assert(mode_at(syn, line, LexMode::Code, x) == LexMode::Code);
        assert(mode_at(syn, line, LexMode::Code, x + 1) == crate::lexer::step_mode(
            mode_at(syn, line, LexMode::Code, x),
            char_class(line[x], syn),
        ));
        assert(mode_at(syn, line, LexMode::Code, x + 1) == LexMode::Remark);
        assert forall|j: int| x < j <= n implies mode_at(syn, line, LexMode::Code, j)
            == LexMode::Remark by {
            lemma_remark_sticky(syn, line, LexMode::Code, x + 1, j);
        }
        assert forall|j: int| 0 <= j < n implies (#[trigger] lexemes(syn, line, LexMode::Code)[j]
            == Lexeme::Blank || lexemes(syn, line, LexMode::Code)[j] == Lexeme::Remark) by {
            if j >= x {
                lemma_lexeme_modes(syn, line, LexMode::Code, j);
            }
        }
    }
}

} // verus!
