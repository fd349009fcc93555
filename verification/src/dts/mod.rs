//! The device tree model and the source parser.

pub mod completion;
pub mod expr;
pub mod lexer;
pub mod parser;
pub mod tree;

use vstd::prelude::*;

verus! {

/// Why a source could not be parsed.
#[derive(Debug, Clone, Copy, PartialEq, Eq, Structural)]
pub enum ParseError {
    /// The end of the input was reached where more was expected.
    IncompleteInput,
    /// The source does not follow the grammar.
    NomError,
}

} // verus!
