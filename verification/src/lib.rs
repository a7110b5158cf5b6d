//! A symbolic verifier over an e-graph of terms.

pub mod check;
pub mod classes;
pub mod context;
pub mod graph;
pub mod heap;
pub mod interner;
pub mod lang;
pub mod meaning;
pub mod meta;
pub mod method;
pub mod model;
pub mod mono;
pub mod nums;
pub mod prelude;
pub mod program;
pub mod prove;
pub mod quant;
pub mod recipes;
pub mod rewrite;
pub mod stats;
pub mod symex;
pub mod terms;
pub mod text;
pub mod types;
pub mod verify;
pub mod viz;
pub mod vmir;
