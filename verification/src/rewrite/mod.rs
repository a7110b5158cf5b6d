//! Rewriting: rules read a class and say which equations follow; the equations are
//! then asserted.
//!
//! The graph and its classes are `egg`'s. Its runner, patterns and rewrites are not used:
//! they call back into an `Analysis`, a `Searcher` and an `Applier`, which are traits of
//! `egg` that rules would have to implement, and nothing could be proved of a rule that is
//! reached only through such an impl. So a round of rules is a loop of its own here, each
//! rule is a function on the graph with a contract, and what an analysis would keep per
//! class, the literal that the class is known to be, is read from the class's terms.

pub mod adt;
pub mod arith;
pub mod contra;
pub mod diseq;
pub mod fold;
pub mod function;
pub mod gather;
pub mod guards;
pub mod instantiate;
pub mod ite;
pub mod learned;
pub mod memo;
pub mod names;
pub mod observe;
pub mod pins;
pub mod prints;
pub mod proj;
pub mod quantified;
pub mod recipe;
pub mod represented;
pub mod rules;
pub mod run;
pub mod sound;
pub mod table;
pub mod unit;
