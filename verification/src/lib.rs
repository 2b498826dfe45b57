//! Structural-text correction for parenthesis-delimited source code.
//!
//! Given a buffer and where the cursor stands, the engine either places the
//! closing delimiters as the indentation asks (indent mode), or indents the
//! lines as the delimiters ask (paren mode), or trusts the delimiters before
//! the cursor and the indentation from it on (smart mode).
//!
//! The engine, leaf first:
//! - `syntax` and `lexer` scan a line: what each character is in its place;
//! - `text` splits a buffer into lines and joins them;
//! - `tracker` keeps the delimiters that are open and says what balanced
//!   means;
//! - `analyzer` finds a line's indentation and its paren trail;
//! - `engine` corrects one line, `run` all lines under the rules of a mode;
//! - `changes` lists what was edited and moves the cursor across edits;
//! - `parens` pairs the delimiters of a buffer;
//! - `answer` takes a request and builds the answer.
//!
//! `laws` states what holds of every answer; the modules whose names end
//! in `_laws`, and `balance`, `rescan`, `again` and `rerun`, hold the proofs.
//! `residency` decides how a host keeps the component loaded.

pub mod again;
pub mod analyzer;
pub mod answer;
pub mod balance;
pub mod changes;
pub mod engine;
pub mod error;
pub mod laws;
pub mod lexer;
pub mod lexer_laws;
pub mod nest_laws;
pub mod parens;
pub mod rerun;
pub mod rescan;
pub mod residency;
pub mod run;
pub mod shift_laws;
pub mod syntax;
pub mod text;
pub mod tracker;
pub mod trail_laws;
