//! An in-memory tabular data store driven by a small line-oriented DSL:
//! a parser for documents of table definitions and commands, a typed value
//! model with three indexing disciplines, a path navigator that follows
//! references across tables, updates and row adds, and a canonical
//! serializer whose output reads back to the same tables.
pub mod text;
pub mod structs;
pub mod parser;
pub mod query;
pub mod builder;
pub mod laws;

pub use structs::{Value, DslRoot, Table, Row, HeaderField, TableData};
pub use parser::{parse_dsl_input, DslStatement};
pub use query::{execute_query, execute_update, execute_add, execute_pack};
pub use builder::{build_root, load_document, Build};

use vstd::prelude::*;

verus! {

/// Adds two numbers.
pub fn add(left: usize, right: usize) -> (r: usize)
    requires
        left + right <= usize::MAX,
    ensures
        r == left + right,
{
    left + right
}

} // verus!
