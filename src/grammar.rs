//! The meaning of the calculator's grammar, over a sequence of characters and
//! a cursor position:
//!
//! ```text
//! expr   := term (('+' | '-') term)?
//! term   := factor (('*' | '/') factor)*
//! factor := ['+' | '-'] digit* | '(' expr ')'
//! ```
//!
//! Each rule maps a start position to the value it denotes and the position
//! just past what it consumed, or to the error that stops the evaluation.
use vstd::prelude::*;
use crate::error::EvalError;

verus! {

/// What a rule yields: its value and the position after it, or an error.
pub type Parsed = Result<(int, int), EvalError>;

/// Whether `c` is one of the ASCII digits `0` to `9`.
pub open spec fn is_digit(c: char) -> bool {
    '0' <= c && c <= '9'
}

/// The numeric value of an ASCII digit.
pub open spec fn digit_value(c: char) -> int {
    c as int - '0' as int
}

/// Whether `v` lies in the signed 64-bit range.
pub open spec fn fits_i64(v: int) -> bool {
    i64::MIN <= v && v <= i64::MAX
}

/// The character at position `p`, if there is one.
pub open spec fn peek(s: Seq<char>, p: int) -> Option<char> {
    if 0 <= p < s.len() {
        Some(s[p])
    } else {
        None
    }
}

/// The end of the maximal run of digits that starts at `p`.
pub open spec fn run_end(s: Seq<char>, p: int) -> int
    decreases s.len() - p,
{
    if 0 <= p < s.len() && is_digit(s[p]) {
        run_end(s, p + 1)
    } else {
        p
    }
}

/// The value of the digits `s[p..q]` read as a base-ten numeral.
pub open spec fn numeral_value(s: Seq<char>, p: int, q: int) -> int
    decreases q - p,
{
    if q <= p {
        0
    } else {
        numeral_value(s, p, q - 1) * 10 + digit_value(s[q - 1])
    }
}

/// Division that rounds toward zero.
pub open spec fn trunc_div(a: int, b: int) -> int {
    let q = abs(a) / abs(b);
    if (a < 0) == (b < 0) {
        q
    } else {
        -q
    }
}

/// The absolute value of `a`.
pub open spec fn abs(a: int) -> int {
    if a < 0 {
        -a
    } else {
        a
    }
}

/// The unsigned numeral at `p`: the maximal run of digits there (possibly
/// empty, which reads as zero), unless its value leaves the 64-bit range.
pub open spec fn scan_spec(s: Seq<char>, p: int) -> Parsed {
    let q = run_end(s, p);
    let v = numeral_value(s, p, q);
    if v <= i64::MAX {
        Ok((v, q))
    } else {
        Err(EvalError::Overflow { index: p as usize })
    }
}

/// Whether a rule that started at `p` and stopped at `q` made progress
/// without running past the end of `s`.
pub open spec fn advanced(s: Seq<char>, p: int, q: int) -> bool {
    p < q <= s.len()
}

/// `factor := ['+' | '-'] digits | '(' expr ')'`
pub open spec fn factor_spec(s: Seq<char>, p: int) -> Parsed
    decreases s.len() - p, 0int,
{
    if !(0 <= p < s.len()) {
        Err(EvalError::BadFactor { index: p as usize })
    } else if s[p] == '(' {
        match expr_spec(s, p + 1) {
            Ok((v, q)) => if peek(s, q) == Some(')') {
                Ok((v, q + 1))
            } else {
                Err(EvalError::Syntax { expected: ')', index: q as usize })
            },
            Err(e) => Err(e),
        }
    } else if is_digit(s[p]) {
        scan_spec(s, p)
    } else if s[p] == '+' {
        scan_spec(s, p + 1)
    } else if s[p] == '-' {
        match scan_spec(s, p + 1) {
            Ok((v, q)) => Ok((-v, q)),
            Err(e) => Err(e),
        }
    } else {
        Err(EvalError::BadFactor { index: p as usize })
    }
}

/// The `(('*' | '/') factor)*` tail of a term, with `acc` the value so far.
pub open spec fn term_rest(s: Seq<char>, acc: int, p: int) -> Parsed
    decreases s.len() - p, 1int,
{
    if 0 <= p && (peek(s, p) == Some('*') || peek(s, p) == Some('/')) {
        match factor_spec(s, p + 1) {
            Ok((v, q)) => {
                if peek(s, p) == Some('/') && v == 0 {
                    Err(EvalError::DivisionByZero { index: p as usize })
                } else {
                    let w = if peek(s, p) == Some('*') {
                        acc * v
                    } else {
                        trunc_div(acc, v)
                    };
                    if !fits_i64(w) {
                        Err(EvalError::Overflow { index: p as usize })
                    } else if advanced(s, p, q) {
                        term_rest(s, w, q)
                    } else {
                        Ok((w, q))
                    }
                }
            },
            Err(e) => Err(e),
        }
    } else {
        Ok((acc, p))
    }
}

/// `term := factor (('*' | '/') factor)*`, folded left to right.
pub open spec fn term_spec(s: Seq<char>, p: int) -> Parsed
    decreases s.len() - p, 2int,
{
    match factor_spec(s, p) {
        Ok((v, q)) => if advanced(s, p, q) {
            term_rest(s, v, q)
        } else {
            Ok((v, q))
        },
        Err(e) => Err(e),
    }
}

/// `expr := term (('+' | '-') term)?`: at most one additive operator.
pub open spec fn expr_spec(s: Seq<char>, p: int) -> Parsed
    decreases s.len() - p, 3int,
{
    match term_spec(s, p) {
        Ok((v, q)) => if p <= q && (peek(s, q) == Some('+') || peek(s, q) == Some('-')) {
            match term_spec(s, q + 1) {
                Ok((w, r)) => {
                    let sum = if peek(s, q) == Some('+') {
                        v + w
                    } else {
                        v - w
                    };
                    if fits_i64(sum) {
                        Ok((sum, r))
                    } else {
                        Err(EvalError::Overflow { index: q as usize })
                    }
                },
                Err(e) => Err(e),
            }
        } else {
            Ok((v, q))
        },
        Err(e) => Err(e),
    }
}

/// The value of a whole line: its leading `expr`, with whatever follows
/// that expression left unread.
pub open spec fn evaluation(s: Seq<char>) -> Result<int, EvalError> {
    match expr_spec(s, 0) {
        Ok((v, _)) => Ok(v),
        Err(e) => Err(e),
    }
}

/// A run of digits ends at or after its start, within the line, and holds
/// only digits.
pub proof fn lemma_run_end(s: Seq<char>, p: int)
    requires
        0 <= p,
    ensures
        p <= run_end(s, p),
        p <= s.len() ==> run_end(s, p) <= s.len(),
        forall|i: int| p <= i < run_end(s, p) ==> is_digit(#[trigger] s[i]),
    decreases s.len() - p,
{
    if 0 <= p < s.len() && is_digit(s[p]) {
        lemma_run_end(s, p + 1);
    }
}

/// A numeral made of digits is never negative.
pub proof fn lemma_numeral_nonneg(s: Seq<char>, p: int, q: int)
    requires
        0 <= p,
        q <= s.len(),
        forall|i: int| p <= i < q ==> is_digit(#[trigger] s[i]),
    ensures
        0 <= numeral_value(s, p, q),
    decreases q - p,
{
    if p < q {
        lemma_numeral_nonneg(s, p, q - 1);
    }
}

/// Reading more digits never makes a numeral smaller.
pub proof fn lemma_numeral_monotone(s: Seq<char>, p: int, q: int, r: int)
    requires
        0 <= p <= q <= r <= s.len(),
        forall|i: int| p <= i < r ==> is_digit(#[trigger] s[i]),
    ensures
        numeral_value(s, p, q) <= numeral_value(s, p, r),
    decreases r - q,
{
    if q < r {
        lemma_numeral_monotone(s, p, q, r - 1);
        lemma_numeral_nonneg(s, p, r - 1);
    }
}

/// The quotient that `i64::checked_div` computes is the truncating one.
pub proof fn lemma_checked_div_truncates(x: int, d: int)
    requires
        d != 0,
    ensures
        trunc_div(x, d) == (if x == 0 {
            0
        } else if x > 0 && d > 0 {
            x / d
        } else if x < 0 && d < 0 {
            (x * -1) / (d * -1)
        } else if x < 0 {
            ((x * -1) / d) * -1
        } else {
            (x / (d * -1)) * -1
        }),
{
    if x == 0 {
        assert(0int / abs(d) == 0) by (nonlinear_arith)
            requires
                abs(d) > 0,
        ;
    }
}

} // verus!
