//! A tag index for source trees: the symbols that tree-sitter finds in each
//! file, grouped by name, searchable by name prefix and by definition or
//! reference.
use vstd::prelude::*;

pub mod command;
pub mod db;
pub mod index;
pub mod language;
pub mod order;
pub mod query;
pub mod rewrite;
pub mod tagging;
pub mod text;
pub mod tokenize;

verus! {
} // verus!
