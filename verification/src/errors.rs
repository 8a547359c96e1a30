//! The failures the engine reports outside the value domain.

use vstd::prelude::*;
use crate::ast::Expr;
use crate::dependency::CellId;

verus! {

/// A failure of parsing, wiring or calculation.  Errors that arise
/// inside expression evaluation are values (`Value::Error`), not these.
#[derive(Debug)]
pub enum Error {
    /// The lexer or parser rejected formula text at a position.
    Parse { pos: usize, msg: String },
    /// Reference text with no column letters, no digits, or ends out of
    /// order, or one naming an unknown sheet.
    MalformedReference,
    /// The dependency graph has no topological order; the payload is a
    /// set of nodes each of which waits on another member of the set.
    CyclicDependency(Vec<CellId>),
    /// A formula calls a function the registry does not know.
    UnsupportedFunction(String),
    /// A volatile function resolved to a new reference; the orchestrator
    /// must wire it and replan.
    Volatile(Box<Expr>),
    /// A volatile cell asked for a second replan in one calculation pass.
    UnstableVolatile(CellId),
}

} // verus!