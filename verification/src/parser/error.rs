//! What can go wrong while parsing.

use vstd::prelude::*;
use crate::parser::syntax::Rule;

verus! {

/// A place in the source: line and column (from 1) and the text of the line.
#[derive(Debug, Clone)]
pub struct Location {
    pub line: usize,
    pub col: usize,
    pub source: String,
}

/// Why a source could not be turned into a project.
#[derive(Debug)]
pub enum ParseError {
    /// The text does not follow the grammar.
    ParseFailed { location: Location, message: String },
    /// A syntax node of an unexpected kind.
    UnexpectedRule(Rule),
    /// A declaration without its name.
    MissingId,
    /// An unknown shape name.
    InvalidShape(String),
}

} // verus!
