//! The evaluator: a cursor over one line and the grammar's rules as
//! functions that advance it, each proved to agree with `grammar`.
use vstd::prelude::*;
use vstd::string::StrSliceExecFns;
use crate::error::EvalError;
use crate::grammar::{
    advanced, digit_value, expr_spec, factor_spec, is_digit, lemma_numeral_monotone, lemma_run_end,
    numeral_value, peek, run_end, scan_spec, term_rest, term_spec, Parsed, evaluation,
    lemma_checked_div_truncates,
};

verus! {

/// One line of input and the position of the next unread character.
pub struct ParseState {
    line: Vec<char>,
    index: usize,
}

/// Whether an executable result and the cursor it left behind agree with
/// what a rule of the grammar yields.
pub open spec fn agrees(r: Result<i64, EvalError>, end: int, expected: Parsed) -> bool {
    match r {
        Ok(v) => expected == Ok::<(int, int), EvalError>((v as int, end)),
        Err(e) => expected == Err::<(int, int), EvalError>(e),
    }
}

impl ParseState {
    /// The characters of the line.
    pub closed spec fn chars(&self) -> Seq<char> {
        self.line@
    }

    /// The position of the next unread character.
    pub closed spec fn cursor(&self) -> int {
        self.index as int
    }

    /// A cursor at the start of `line`, which is copied out character by
    /// character.
    pub fn new(line: &str) -> (r: ParseState)
        ensures
            r.chars() == line@,
            r.cursor() == 0,
    {
        let n = line.unicode_len();
        let mut chars: Vec<char> = Vec::new();
        let mut i: usize = 0;
        while i < n
            invariant
                n == line@.len(),
                i <= n,
                chars@ == line@.subrange(0, i as int),
            decreases n - i,
        {
            chars.push(line.get_char(i));
            i = i + 1;
            assert(chars@ =~= line@.subrange(0, i as int));
        }
        assert(chars@ =~= line@);
        ParseState { line: chars, index: 0 }
    }

    /// The position of the next unread character.
    pub fn index(&self) -> (r: usize)
        ensures
            r as int == self.cursor(),
    {
        self.index
    }
}

/// The next unread character, if the cursor is still inside the line.
pub fn token(ps: &ParseState) -> (r: Option<char>)
    ensures
        r == peek(ps.chars(), ps.cursor()),
{
    if ps.index < ps.line.len() {
        Some(ps.line[ps.index])
    } else {
        None
    }
}

/// Consumes `expected` if it is the next character; fails otherwise, with
/// the cursor left where it was.
pub fn lex_match(ps: &mut ParseState, expected: char) -> (r: Result<(), EvalError>)
    ensures
        final(ps).chars() == old(ps).chars(),
        peek(old(ps).chars(), old(ps).cursor()) == Some(expected) ==> r is Ok
            && final(ps).cursor() == old(ps).cursor() + 1,
        peek(old(ps).chars(), old(ps).cursor()) != Some(expected) ==> (r == Err::<(), EvalError>(
            EvalError::Syntax { expected: expected, index: old(ps).cursor() as usize },
        ) && final(ps).cursor() == old(ps).cursor()),
{
    if ps.index < ps.line.len() && ps.line[ps.index] == expected {
        ps.index = ps.index + 1;
        Ok(())
    } else {
        Err(EvalError::Syntax { expected: expected, index: ps.index })
    }
}

/// The value of `c` if it is a digit.
fn digit_of(c: Option<char>) -> (r: Option<i64>)
    ensures
        r == (match c {
            Some(d) => if is_digit(d) {
                Some(digit_value(d) as i64)
            } else {
                None
            },
            None => None,
        }),
{
    match c {
        Some(d) => if '0' <= d && d <= '9' {
            Some((d as u32 - '0' as u32) as i64)
        } else {
            None
        },
        None => None,
    }
}

/// Consumes the maximal run of digits at the cursor and returns its value;
/// an empty run reads as zero. Fails, without reading further, once the
/// value would leave the signed 64-bit range.
pub fn scan_digits(ps: &mut ParseState) -> (r: Result<i64, EvalError>)
    ensures
        final(ps).chars() == old(ps).chars(),
        final(ps).cursor() >= old(ps).cursor(),
        agrees(r, final(ps).cursor(), scan_spec(old(ps).chars(), old(ps).cursor())),
        r is Ok ==> r->Ok_0 >= 0,
{
    let ghost s = ps.chars();
    let start = ps.index;
    let mut val: i64 = 0;
    proof {
        lemma_run_end(s, start as int);
    }
    loop
        invariant
            ps.chars() == s,
            s == old(ps).chars(),
            start as int == old(ps).cursor(),
            start <= ps.index,
            start <= s.len() ==> ps.index <= s.len(),
            0 <= val,
            val as int == numeral_value(s, start as int, ps.index as int),
            run_end(s, ps.index as int) == run_end(s, start as int),
            forall|i: int| start <= i < ps.index ==> is_digit(#[trigger] s[i]),
            forall|i: int| start <= i < run_end(s, start as int) ==> is_digit(#[trigger] s[i]),
            ps.index <= run_end(s, start as int),
        decreases s.len() - ps.index,
    {
        let t = token(ps);
        let d = match digit_of(t) {
            Some(d) => d,
            None => {
                return Ok(val);
            },
        };
        assert(ps.index < ps.line.len());
        proof {
            lemma_run_end(s, ps.index + 1);
        }
        let next = match val.checked_mul(10) {
            Some(t) => t.checked_add(d),
            None => None,
        };
        match next {
            Some(n) => {
                val = n;
                ps.index = ps.index + 1;
            },
            None => {
                proof {
                    lemma_numeral_monotone(
                        s,
                        start as int,
                        ps.index + 1,
                        run_end(s, start as int),
                    );
                }
                return Err(EvalError::Overflow { index: start });
            },
        }
    }
}

/// `factor := ['+' | '-'] digits | '(' expr ')'`. A leading sign is
/// consumed and applied to the digits that follow it.
pub fn factor(ps: &mut ParseState) -> (r: Result<i64, EvalError>)
    ensures
        final(ps).chars() == old(ps).chars(),
        final(ps).cursor() >= old(ps).cursor(),
        agrees(r, final(ps).cursor(), factor_spec(old(ps).chars(), old(ps).cursor())),
        r is Ok ==> advanced(old(ps).chars(), old(ps).cursor(), final(ps).cursor()),
    decreases old(ps).chars().len() - old(ps).cursor(), 0int,
{
    let ghost s = ps.chars();
    let ghost p = ps.cursor();
    match token(ps) {
        Some('(') => {
            if let Err(e) = lex_match(ps, '(') {
                return Err(e);
            }
            let v = match expr(ps) {
                Ok(v) => v,
                Err(e) => {
                    return Err(e);
                },
            };
            match lex_match(ps, ')') {
                Ok(()) => Ok(v),
                Err(e) => Err(e),
            }
        },
        Some(c) => {
            if '0' <= c && c <= '9' {
                proof {
                    lemma_run_end(s, p + 1);
                }
                scan_digits(ps)
            } else if c == '+' || c == '-' {
                if let Err(e) = lex_match(ps, c) {
                    return Err(e);
                }
                proof {
                    lemma_run_end(s, p + 1);
                }
                match scan_digits(ps) {
                    Ok(v) => if c == '-' {
                        Ok(-v)
                    } else {
                        Ok(v)
                    },
                    Err(e) => Err(e),
                }
            } else {
                Err(EvalError::BadFactor { index: ps.index })
            }
        },
        None => Err(EvalError::BadFactor { index: ps.index }),
    }
}

/// `term := factor (('*' | '/') factor)*`, folded left to right. Division
/// rounds toward zero.
pub fn term(ps: &mut ParseState) -> (r: Result<i64, EvalError>)
    ensures
        final(ps).chars() == old(ps).chars(),
        final(ps).cursor() >= old(ps).cursor(),
        agrees(r, final(ps).cursor(), term_spec(old(ps).chars(), old(ps).cursor())),
        r is Ok ==> advanced(old(ps).chars(), old(ps).cursor(), final(ps).cursor()),
    decreases old(ps).chars().len() - old(ps).cursor(), 2int,
{
    let ghost s = ps.chars();
    let ghost p = ps.cursor();
    let mut value = match factor(ps) {
        Ok(v) => v,
        Err(e) => {
            return Err(e);
        },
    };
    loop
        invariant
            ps.chars() == s,
            s == old(ps).chars(),
            p == old(ps).cursor(),
            advanced(s, p, ps.cursor()),
            term_rest(s, value as int, ps.cursor()) == term_spec(s, p),
        decreases s.len() - ps.cursor(),
    {
        let op_index = ps.index;
        let is_mul = match token(ps) {
            Some('*') => true,
            Some('/') => false,
            _ => {
                return Ok(value);
            },
        };
        let op = if is_mul {
            '*'
        } else {
            '/'
        };
        if let Err(e) = lex_match(ps, op) {
            return Err(e);
        }
        let v = match factor(ps) {
            Ok(v) => v,
            Err(e) => {
                return Err(e);
            },
        };
        if is_mul {
            match value.checked_mul(v) {
                Some(w) => {
                    value = w;
                },
                None => {
                    return Err(EvalError::Overflow { index: op_index });
                },
            }
        } else {
            if v == 0 {
                return Err(EvalError::DivisionByZero { index: op_index });
            }
            proof {
                lemma_checked_div_truncates(value as int, v as int);
            }
            match value.checked_div(v) {
                Some(w) => {
                    value = w;
                },
                None => {
                    return Err(EvalError::Overflow { index: op_index });
                },
            }
        }
    }
}

/// `expr := term (('+' | '-') term)?`: at most one additive operator is
/// combined; anything after the second term is left unread.
pub fn expr(ps: &mut ParseState) -> (r: Result<i64, EvalError>)
    ensures
        final(ps).chars() == old(ps).chars(),
        final(ps).cursor() >= old(ps).cursor(),
        agrees(r, final(ps).cursor(), expr_spec(old(ps).chars(), old(ps).cursor())),
        r is Ok ==> advanced(old(ps).chars(), old(ps).cursor(), final(ps).cursor()),
    decreases old(ps).chars().len() - old(ps).cursor(), 3int,
{
    let v = match term(ps) {
        Ok(v) => v,
        Err(e) => {
            return Err(e);
        },
    };
    let op_index = ps.index;
    let is_add = match token(ps) {
        Some('+') => true,
        Some('-') => false,
        _ => {
            return Ok(v);
        },
    };
    let op = if is_add {
        '+'
    } else {
        '-'
    };
    if let Err(e) = lex_match(ps, op) {
        return Err(e);
    }
    let w = match term(ps) {
        Ok(w) => w,
        Err(e) => {
            return Err(e);
        },
    };
    let sum = if is_add {
        v.checked_add(w)
    } else {
        v.checked_sub(w)
    };
    match sum {
        Some(t) => Ok(t),
        None => Err(EvalError::Overflow { index: op_index }),
    }
}

/// Evaluates the leading expression of `line`. Whatever follows that
/// expression (a newline, or a second additive operator and its term) is
/// left unread.
pub fn evaluate(line: &str) -> (r: Result<i64, EvalError>)
    ensures
        evaluates_to(line@, r),
{
    let mut ps = ParseState::new(line);
    expr(&mut ps)
}

/// Whether `r` is what evaluating the line `s` yields.
pub open spec fn evaluates_to(s: Seq<char>, r: Result<i64, EvalError>) -> bool {
    match r {
        Ok(v) => evaluation(s) == Ok::<int, EvalError>(v as int),
        Err(e) => evaluation(s) == Err::<int, EvalError>(e),
    }
}

} // verus!
