//! A single-line integer calculator: a recursive-descent evaluator that
//! recognises and evaluates `expr`, `term` and `factor` in one pass over a
//! character cursor, with every failure reported as a typed error.
use vstd::prelude::*;

pub mod error;
pub mod grammar;
pub mod parser;
pub mod laws;

verus! {

} // verus!
