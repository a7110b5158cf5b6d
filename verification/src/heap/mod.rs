//! The symbolic heap.

pub mod alias;
pub mod amount;
pub mod bounds;
pub mod chunk;
pub mod cube;
pub mod debit;
pub mod enough;
pub mod facts;
pub mod flow;
pub mod gate;
pub mod groups;
pub mod join;
pub mod perm;
pub mod sign;
pub mod spread;
pub mod subtract;
pub mod sum;
pub mod summary;
pub mod trace;
pub mod union;
pub mod values;
