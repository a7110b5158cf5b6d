//! Symbolic execution on plain terms: a store, a list of chunks and path conditions.

pub mod operations;
pub mod state;
pub mod store;
pub mod term;
