//! Verified core of a round-elimination toolkit: label sets, lines and
//! constraints of locally checkable problems, their diagrams, and the
//! simplification and fixpoint-diagram algorithms built on top of them.
use vstd::prelude::*;

pub mod labels;
pub mod line;
pub mod constraint;
pub mod text;
pub mod problem;
pub mod fixpoint;
pub mod parse;
pub mod diagram;
pub mod discard_useless;
pub mod triviality;
pub mod tree;
pub mod lattice;
pub mod procedure;
pub mod onestep;
pub mod custom;

verus! {

} // verus!
