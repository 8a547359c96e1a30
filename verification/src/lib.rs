//! A verified spreadsheet formula engine: an A1-style reference model,
//! a polymorphic value domain over IEEE-754 numbers carried as bit
//! patterns, a cross-sheet dependency graph with a proven topological
//! order, and a registry of spreadsheet functions whose results are
//! pinned by spec-level mirrors.

pub mod num;
pub mod reference;
pub mod text;
pub mod date;
pub mod value;
pub mod ops;
pub mod ast;
pub mod dependency;
pub mod errors;
pub mod workbook;
pub mod functions;
pub mod evaluate;
