//! A parser for a minimal s-expression surface syntax.
//!
//! A single left-to-right scan over the input characters classifies tokens
//! (words, quoted atoms, parenthesized lists), tracks 1-based line/column
//! positions, and reports the first structural error together with the
//! position of the construct that caused it.

use vstd::prelude::*;

pub mod laws;
mod lisp_parser;
pub mod model;
mod scanner;

pub use crate::lisp_parser::LispObject;
pub use crate::lisp_parser::LispParser;
pub use crate::lisp_parser::LispParsingError;
pub use crate::lisp_parser::LispProgramParsingResult;
pub use crate::lisp_parser::TextPosition;

verus! {

/// Parses a LISP program into a sequence of `LispObject`s.
///
/// On success the result is the sequence of top-level objects; on failure it
/// is the first parsing error, carrying the position of the construct that
/// caused it:
/// * `UnclosedQuote`: an opening quote of a string literal was never closed.
/// * `UnclosedParenthesis`: an opening parenthesis of a list was never closed.
/// * `UnexpectedClosingParenthesis`: a closing parenthesis appeared at the
///   top level, outside of any list.
pub fn parse_lisp_program(program: &str) -> (r: LispProgramParsingResult)
    ensures
        crate::model::result_matches_model(r, program@),
{
    let mut parser = LispParser::new(program);
    parser.parse_program()
}

} // verus!
