use vstd::prelude::*;

verus! {

/// Why an evaluation stopped. Every error is final: nothing is recovered.
#[derive(Clone, Copy, Debug, PartialEq, Eq, Structural)]
pub enum EvalError {
    /// The character `expected` was required at `index` and was not there.
    Syntax { expected: char, index: usize },
    /// A factor was required at `index`, which holds neither a digit, a
    /// sign nor an opening parenthesis.
    BadFactor { index: usize },
    /// A numeral starting at `index`, or the operator at `index`, gave a value
    /// outside the signed 64-bit range.
    Overflow { index: usize },
    /// The divisor of the `/` at `index` was zero.
    DivisionByZero { index: usize },
    /// No line could be read.
    Input,
}

impl EvalError {
    /// Whether this is a syntax error (a failed match or a bad factor).
    pub fn is_syntax(&self) -> (r: bool)
        ensures
            r == (*self is Syntax || *self is BadFactor),
    {
        match self {
            EvalError::Syntax { .. } => true,
            EvalError::BadFactor { .. } => true,
            _ => false,
        }
    }
}

} // verus!
