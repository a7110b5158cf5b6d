//! Verification of methods and resources, instruction by instruction.

pub mod error;
pub mod plain;
pub mod merge;
pub mod subtract;
pub mod graft;
pub mod eval;
pub mod heapinst;
pub mod resource;
pub mod fold;
pub mod run;
pub mod show;
pub mod unit;
pub mod heap_exp;
