//! The lexical alphabet: which role a character plays.

use vstd::prelude::*;

verus! {

/// A family of paired delimiters.
#[derive(Clone, Copy, Debug, PartialEq, Eq, Structural)]
pub enum DelimKind {
    /// `(` and `)`
    Round,
    /// `[` and `]`
    Square,
    /// `{` and `}`
    Curly,
}

/// The characters that a language variant may choose.
#[derive(Clone, Copy, Debug, PartialEq, Eq, Structural)]
pub struct Syntax {
    /// Starts a comment that runs to the end of the line.
    pub comment_char: char,
    /// Opens and closes a string.
    pub quote_char: char,
    /// Inside a string, takes the next character out of play.
    pub escape_char: char,
}

/// The role of one character, regardless of what surrounds it.
#[derive(Clone, Copy, Debug, PartialEq, Eq, Structural)]
pub enum CharClass {
    Whitespace,
    Open(DelimKind),
    Close(DelimKind),
    Quote,
    Comment,
    Escape,
    Ordinary,
    /// The character has more than one role under the chosen syntax.
    Unhandled,
}

/// The role that a character has before any syntax is chosen.
pub open spec fn builtin_class(c: char) -> CharClass {
    if c == ' ' || c == '\t' || c == '\r' {
        CharClass::Whitespace
    } else if c == '(' {
        CharClass::Open(DelimKind::Round)
    } else if c == '[' {
        CharClass::Open(DelimKind::Square)
    } else if c == '{' {
        CharClass::Open(DelimKind::Curly)
    } else if c == ')' {
        CharClass::Close(DelimKind::Round)
    } else if c == ']' {
        CharClass::Close(DelimKind::Square)
    } else if c == '}' {
        CharClass::Close(DelimKind::Curly)
    } else {
        CharClass::Ordinary
    }
}

/// How many of the chosen roles (comment, quote, escape) a character has.
pub open spec fn chosen_roles(c: char, syn: Syntax) -> nat {
    let a: nat = if c == syn.comment_char { 1 } else { 0 };
    let b: nat = if c == syn.quote_char { 1 } else { 0 };
    let d: nat = if c == syn.escape_char { 1 } else { 0 };
    a + b + d
}

/// The role of `c` under `syn`. Whitespace and delimiters keep their role
/// whatever the syntax chooses. Of the other characters, one that was chosen
/// for two roles has none that the scanner could act on: it is `Unhandled`.
pub open spec fn char_class(c: char, syn: Syntax) -> CharClass {
    if builtin_class(c) != CharClass::Ordinary {
        builtin_class(c)
    } else if chosen_roles(c, syn) == 0 {
        CharClass::Ordinary
    } else if chosen_roles(c, syn) > 1 {
        CharClass::Unhandled
    } else if c == syn.comment_char {
        CharClass::Comment
    } else if c == syn.quote_char {
        CharClass::Quote
    } else {
        CharClass::Escape
    }
}

/// The closing character of a delimiter family.
pub open spec fn closer_of(kind: DelimKind) -> char {
    match kind {
        DelimKind::Round => ')',
        DelimKind::Square => ']',
        DelimKind::Curly => '}',
    }
}

impl Syntax {
    /// The Lisp family's conventions: `;` starts a comment, `"` delimits a
    /// string, `\` escapes.
    pub open spec fn lisp_spec() -> Syntax {
        Syntax { comment_char: ';', quote_char: '"', escape_char: '\\' }
    }

    /// The syntax of the Lisp family.
    pub fn lisp() -> (syn: Syntax)
        ensures
            syn == Syntax::lisp_spec(),
    {
        Syntax { comment_char: ';', quote_char: '"', escape_char: '\\' }
    }

}

fn builtin(c: char) -> (cls: CharClass)
    ensures
        cls == builtin_class(c),
{
    if c == ' ' || c == '\t' || c == '\r' {
        CharClass::Whitespace
    } else if c == '(' {
        CharClass::Open(DelimKind::Round)
    } else if c == '[' {
        CharClass::Open(DelimKind::Square)
    } else if c == '{' {
        CharClass::Open(DelimKind::Curly)
    } else if c == ')' {
        CharClass::Close(DelimKind::Round)
    } else if c == ']' {
        CharClass::Close(DelimKind::Square)
    } else if c == '}' {
        CharClass::Close(DelimKind::Curly)
    } else {
        CharClass::Ordinary
    }
}

/// Classifies one character.
pub fn classify(c: char, syn: &Syntax) -> (cls: CharClass)
    ensures
        cls == char_class(c, *syn),
{
    let is_comment = c == syn.comment_char;
    let is_quote = c == syn.quote_char;
    let is_escape = c == syn.escape_char;
    match builtin(c) {
        CharClass::Ordinary => {
            if !is_comment && !is_quote && !is_escape {
                CharClass::Ordinary
            } else if (is_comment && is_quote) || (is_comment && is_escape) || (is_quote
                && is_escape) {
                CharClass::Unhandled
            } else if is_comment {
                CharClass::Comment
            } else if is_quote {
                CharClass::Quote
            } else {
                CharClass::Escape
            }
        },
        base => base,
    }
}

/// The closing character of a delimiter family.
pub fn closer(kind: DelimKind) -> (c: char)
    ensures
        c == closer_of(kind),
{
    match kind {
        DelimKind::Round => ')',
        DelimKind::Square => ']',
        DelimKind::Curly => '}',
    }
}

/// A closing character is the closer of its family under every syntax.
pub proof fn lemma_closer_class(kind: DelimKind, syn: Syntax)
    ensures
        char_class(closer_of(kind), syn) == CharClass::Close(kind),
{
}

} // verus!
