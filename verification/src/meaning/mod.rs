//! What running a program means, in values: laws that say of instructions, heaps,
//! quantifiers and declarations what they compute, whatever terms stand for them.

pub mod calls;
pub mod certs;
pub mod declared;
pub mod duties;
pub mod heaps;
pub mod methods;
pub mod quantified;
pub mod runs;
pub mod slots;
pub mod sound;
pub mod steps;
pub mod values;
