//! How the scan of a line is made of the scans of its parts.

use vstd::prelude::*;
use crate::lexer::{lexemes, mode_at, LexMode, Lexeme};
use crate::syntax::{char_class, closer_of, CharClass, DelimKind, Syntax};

verus! {

/// The mode at the end of a line.
pub open spec fn end_mode(syn: Syntax, line: Seq<char>, start: LexMode) -> LexMode {
    mode_at(syn, line, start, line.len() as int)
}

/// The mode before column `i` depends on the columns before `i` alone.
pub proof fn lemma_mode_prefix(syn: Syntax, s: Seq<char>, t: Seq<char>, start: LexMode, i: int)
    requires
        0 <= i <= s.len(),
        i <= t.len(),
        forall|j: int| 0 <= j < i ==> s[j] == t[j],
    ensures
        mode_at(syn, s, start, i) == mode_at(syn, t, start, i),
    decreases i,
{
    if i > 0 {
        lemma_mode_prefix(syn, s, t, start, i - 1);
    }
}

/// Scanning `a + b` is scanning `a` and then `b` in the mode that `a` ends
/// in.
pub proof fn lemma_mode_concat(syn: Syntax, a: Seq<char>, b: Seq<char>, start: LexMode, i: int)
    requires
        0 <= i <= b.len(),
    ensures
        mode_at(syn, a + b, start, a.len() + i) == mode_at(syn, b, end_mode(syn, a, start), i),
    decreases i,
{
    if i == 0 {
        lemma_mode_prefix(syn, a + b, a, start, a.len() as int);
    } else {
        lemma_mode_concat(syn, a, b, start, i - 1);
        assert((a + b)[a.len() + i - 1] == b[i - 1]);
    }
}

/// The scan of `a + b` is the scan of `a` followed by the scan of `b` in
/// the mode that `a` ends in.
pub proof fn lemma_lexemes_concat(syn: Syntax, a: Seq<char>, b: Seq<char>, start: LexMode)
    ensures
        lexemes(syn, a + b, start) == lexemes(syn, a, start) + lexemes(
            syn,
            b,
            end_mode(syn, a, start),
        ),
        end_mode(syn, a + b, start) == end_mode(syn, b, end_mode(syn, a, start)),
{
    let whole = lexemes(syn, a + b, start);
    let parts = lexemes(syn, a, start) + lexemes(syn, b, end_mode(syn, a, start));
    assert forall|j: int| 0 <= j < whole.len() implies whole[j] == parts[j] by {
        if j < a.len() {
            lemma_mode_prefix(syn, a + b, a, start, j);
            assert((a + b)[j] == a[j]);
        } else {
            lemma_mode_concat(syn, a, b, start, j - a.len());
            assert((a + b)[j] == b[j - a.len()]);
        }
    }
    assert(whole =~= parts);
    lemma_mode_concat(syn, a, b, start, b.len() as int);
}

/// The scan of a part of a line, entered in the mode in which the line
/// reaches it, is that part of the line's scan.
pub proof fn lemma_lexemes_subrange(
    syn: Syntax,
    line: Seq<char>,
    start: LexMode,
    i: int,
    j: int,
)
    requires
        0 <= i <= j <= line.len(),
    ensures
        lexemes(syn, line.subrange(i, j), mode_at(syn, line, start, i)) == lexemes(
            syn,
            line,
            start,
        ).subrange(i, j),
        end_mode(syn, line.subrange(i, j), mode_at(syn, line, start, i)) == mode_at(
            syn,
            line,
            start,
            j,
        ),
{
    let a = line.take(i);
    let b = line.subrange(i, j);
    lemma_mode_prefix(syn, a, line, start, i);
    lemma_mode_prefix(syn, a + b, line, start, j);
    lemma_lexemes_concat(syn, a, b, start);
    let part = lexemes(syn, b, mode_at(syn, line, start, i));
    let cut = lexemes(syn, line, start).subrange(i, j);
    assert forall|t: int| 0 <= t < part.len() implies part[t] == cut[t] by {
        lemma_mode_concat(syn, a, b, start, t);
        lemma_mode_prefix(syn, a + b, line, start, i + t);
        assert(b[t] == line[i + t]);
    }
    assert(part =~= cut);
    lemma_mode_concat(syn, a, b, start, j - i);
}

/// `n` blanks.
pub open spec fn blanks(n: int) -> Seq<Lexeme> {
    Seq::new(n as nat, |i: int| Lexeme::Blank)
}

/// The closers of the given families, as the scanner sees them in code.
pub open spec fn closes(kinds: Seq<DelimKind>) -> Seq<Lexeme> {
    Seq::new(kinds.len(), |i: int| Lexeme::Close(kinds[i]))
}

/// Whitespace in code is blank and leaves the scanner in code.
pub proof fn lemma_whitespace_scan(syn: Syntax, s: Seq<char>)
    requires
        forall|j: int| 0 <= j < s.len() ==> char_class(#[trigger] s[j], syn) == CharClass::Whitespace,
    ensures
        lexemes(syn, s, LexMode::Code) == blanks(s.len() as int),
        end_mode(syn, s, LexMode::Code) == LexMode::Code,
{
    crate::lexer::lemma_blank_prefix(syn, s, s.len() as int);
    assert(lexemes(syn, s, LexMode::Code) =~= blanks(s.len() as int));
}

proof fn lemma_closers_modes(syn: Syntax, kinds: Seq<DelimKind>, i: int)
    requires
        0 <= i <= kinds.len(),
    ensures
        mode_at(
            syn,
            Seq::new(kinds.len(), |t: int| closer_of(kinds[t])),
            LexMode::Code,
            i,
        ) == LexMode::Code,
    decreases i,
{
    if i > 0 {
        lemma_closers_modes(syn, kinds, i - 1);
        crate::syntax::lemma_closer_class(kinds[i - 1], syn);
    }
}

/// Closers in code are seen as closers and leave the scanner in code.
pub proof fn lemma_closers_scan(syn: Syntax, kinds: Seq<DelimKind>)
    ensures
        lexemes(syn, Seq::new(kinds.len(), |t: int| closer_of(kinds[t])), LexMode::Code) == closes(
            kinds,
        ),
        end_mode(syn, Seq::new(kinds.len(), |t: int| closer_of(kinds[t])), LexMode::Code)
            == LexMode::Code,
{
    let s = Seq::new(kinds.len(), |t: int| closer_of(kinds[t]));
    let lex = lexemes(syn, s, LexMode::Code);
    assert forall|j: int| 0 <= j < lex.len() implies lex[j] == closes(kinds)[j] by {
        lemma_closers_modes(syn, kinds, j);
        crate::syntax::lemma_closer_class(kinds[j], syn);
    }
    assert(lex =~= closes(kinds));
    lemma_closers_modes(syn, kinds, kinds.len() as int);
}

} // verus!
