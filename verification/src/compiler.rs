//! Compilation: parsing, then the check that the source declares a diagram.

use vstd::prelude::*;
use crate::ast::Project;
use crate::parser::error::ParseError;
use crate::parser::{failed_at, parse, reads_as};
use crate::parser::grammar::blank;
use crate::text::owned;

verus! {

/// Why a source could not be compiled.
#[derive(Debug)]
pub enum CompileError {
    /// The source could not be parsed.
    Parse(ParseError),
    /// The source parsed, but breaks a rule of the language.
    ValidationError(String),
}

/// The message given when a source declares no diagram.
pub open spec fn no_diagrams_message() -> Seq<char> {
    "No diagrams found in input. Use '#' to start a diagram."@
}

/// What compiling makes of a parse result: a parse error is passed on, a
/// project without diagrams is refused, and any other project is accepted
/// as it is.
pub fn compile_parsed(parsed: Result<Project, ParseError>) -> (r: Result<Project, CompileError>)
    ensures
        (match parsed {
            Err(e) => r == Err::<Project, CompileError>(CompileError::Parse(e)),
            Ok(p) => if p.diagrams@.len() == 0 {
                r matches Err(CompileError::ValidationError(m)) && m@ == no_diagrams_message()
            } else {
                r == Ok::<Project, CompileError>(p)
            },
        }),
{
    match parsed {
        Ok(project) => {
            if project.diagrams.len() == 0 {
                Err(CompileError::ValidationError(owned("No diagrams found in input. Use '#' to start a diagram.")))
            } else {
                Ok(project)
            }
        },
        Err(e) => Err(CompileError::Parse(e)),
    }
}

/// Parses a source and requires at least one diagram in it: the result of
/// [`parse`] passed through [`compile_parsed`].
pub fn compile(input: &str) -> (r: Result<Project, CompileError>)
    requires
        input@.len() < usize::MAX,
    ensures
        r matches Ok(p) ==> reads_as(input@, p) && p.diagrams@.len() > 0,
        r matches Err(CompileError::Parse(e)) ==> failed_at(input@, e),
        r matches Err(CompileError::ValidationError(m)) ==> m@ == no_diagrams_message() && exists|p: Project|
            reads_as(input@, p) && p.diagrams@.len() == 0,
        blank(input@) ==> !(r is Err && r->Err_0 is Parse),
{
    compile_parsed(parse(input))
}

} // verus!
