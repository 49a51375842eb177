use calculator::error::EvalError;
use calculator::parser::{evaluate, expr, factor, lex_match, scan_digits, term, token, ParseState};

#[test]
fn product_binds_tighter_than_trailing_sum() {
    assert_eq!(evaluate("2+3*4"), Ok(14));
}

#[test]
fn parentheses_group_a_sum() {
    assert_eq!(evaluate("(2+3)*4"), Ok(20));
}

#[test]
fn division_truncates() {
    assert_eq!(evaluate("10/3"), Ok(3));
}

#[test]
fn division_truncates_toward_zero() {
    assert_eq!(evaluate("-7/2"), Ok(-3));
    assert_eq!(evaluate("7/-2"), Ok(-3));
    assert_eq!(evaluate("-7/-2"), Ok(3));
}

#[test]
fn only_one_trailing_additive_term_is_combined() {
    assert_eq!(evaluate("1+2+3"), Ok(3));
    assert_eq!(evaluate("5-2-1"), Ok(3));
    let mut ps = ParseState::new("1+2+3");
    assert_eq!(expr(&mut ps), Ok(3));
    assert_eq!(ps.index(), 3);
    assert_eq!(token(&ps), Some('+'));
}

#[test]
fn division_by_zero_fails() {
    assert_eq!(evaluate("5/0"), Err(EvalError::DivisionByZero { index: 1 }));
    assert_eq!(evaluate("1+5/(2-2)"), Err(EvalError::DivisionByZero { index: 3 }));
}

#[test]
fn oversized_literal_overflows() {
    assert_eq!(evaluate("99999999999999999999"), Err(EvalError::Overflow { index: 0 }));
    assert_eq!(evaluate("9223372036854775808"), Err(EvalError::Overflow { index: 0 }));
    assert_eq!(evaluate("1+-9223372036854775808"), Err(EvalError::Overflow { index: 3 }));
}

#[test]
fn largest_literal_fits() {
    assert_eq!(evaluate("9223372036854775807"), Ok(i64::MAX));
    assert_eq!(evaluate("-9223372036854775807"), Ok(-i64::MAX));
    assert_eq!(evaluate("-9223372036854775807-1"), Ok(i64::MIN));
}

#[test]
fn operator_results_out_of_range_overflow() {
    assert_eq!(evaluate("4611686018427387904*2"), Err(EvalError::Overflow { index: 19 }));
    assert_eq!(evaluate("9223372036854775807+1"), Err(EvalError::Overflow { index: 19 }));
    assert_eq!(
        evaluate("(-9223372036854775807-1)/-1"),
        Err(EvalError::Overflow { index: 24 })
    );
}

#[test]
fn empty_line_is_a_bad_factor() {
    assert_eq!(evaluate(""), Err(EvalError::BadFactor { index: 0 }));
    assert_eq!(evaluate("\n"), Err(EvalError::BadFactor { index: 0 }));
    assert!(evaluate("").unwrap_err().is_syntax());
}

#[test]
fn repeated_evaluation_agrees() {
    for line in ["2+3*4", "5/0", "(1+2", "", "-12*3-4"] {
        assert_eq!(evaluate(line), evaluate(line));
    }
    assert_eq!(evaluate("-12*3-4"), Ok(-40));
}

#[test]
fn missing_closing_parenthesis_is_a_syntax_error() {
    assert_eq!(evaluate("(1+2"), Err(EvalError::Syntax { expected: ')', index: 4 }));
    assert_eq!(evaluate("(1+2\n"), Err(EvalError::Syntax { expected: ')', index: 4 }));
    assert!(evaluate("(1+2").unwrap_err().is_syntax());
}

#[test]
fn unexpected_character_is_a_bad_factor() {
    assert_eq!(evaluate("*3"), Err(EvalError::BadFactor { index: 0 }));
    assert_eq!(evaluate("2*x"), Err(EvalError::BadFactor { index: 2 }));
    assert_eq!(evaluate("1+)"), Err(EvalError::BadFactor { index: 2 }));
}

#[test]
fn signs_apply_to_the_numeral() {
    assert_eq!(evaluate("-5"), Ok(-5));
    assert_eq!(evaluate("+5"), Ok(5));
    assert_eq!(evaluate("2*-3"), Ok(-6));
    assert_eq!(evaluate("2--3"), Ok(5));
    assert_eq!(evaluate("-"), Ok(0));
}

#[test]
fn trailing_newline_is_left_unread() {
    assert_eq!(evaluate("2+3*4\n"), Ok(14));
    let mut ps = ParseState::new("2+3*4\n");
    assert_eq!(expr(&mut ps), Ok(14));
    assert_eq!(ps.index(), 5);
}

#[test]
fn products_chain_left_to_right() {
    assert_eq!(evaluate("100/10/3"), Ok(3));
    assert_eq!(evaluate("2*3*4"), Ok(24));
    assert_eq!(evaluate("7/2*2"), Ok(6));
    assert_eq!(evaluate("((4))*(1+1)/3"), Ok(2));
}

#[test]
fn term_stops_before_additive_operator() {
    let mut ps = ParseState::new("6*7+1");
    assert_eq!(term(&mut ps), Ok(42));
    assert_eq!(ps.index(), 3);
}

#[test]
fn factor_reads_one_operand() {
    let mut ps = ParseState::new("(8-3)*2");
    assert_eq!(factor(&mut ps), Ok(5));
    assert_eq!(ps.index(), 5);
    let mut ps = ParseState::new("-42)");
    assert_eq!(factor(&mut ps), Ok(-42));
    assert_eq!(ps.index(), 3);
}

#[test]
fn lex_match_advances_only_on_the_expected_character() {
    let mut ps = ParseState::new("(x");
    assert_eq!(lex_match(&mut ps, ')'), Err(EvalError::Syntax { expected: ')', index: 0 }));
    assert_eq!(ps.index(), 0);
    assert_eq!(lex_match(&mut ps, '('), Ok(()));
    assert_eq!(ps.index(), 1);
    assert_eq!(token(&ps), Some('x'));
    let mut end = ParseState::new("");
    assert_eq!(token(&end), None);
    assert_eq!(lex_match(&mut end, '('), Err(EvalError::Syntax { expected: '(', index: 0 }));
}

#[test]
fn scan_digits_reads_the_maximal_run() {
    let mut ps = ParseState::new("0123abc");
    assert_eq!(scan_digits(&mut ps), Ok(123));
    assert_eq!(ps.index(), 4);
    let mut none = ParseState::new("abc");
    assert_eq!(scan_digits(&mut none), Ok(0));
    assert_eq!(none.index(), 0);
}

#[test]
fn non_ascii_line_is_read_by_character() {
    assert_eq!(evaluate("3*3é"), Ok(9));
    let mut ps = ParseState::new("é1");
    assert_eq!(token(&ps), Some('é'));
    assert_eq!(factor(&mut ps), Err(EvalError::BadFactor { index: 0 }));
}

#[test]
fn only_syntax_errors_are_syntax() {
    assert!(!EvalError::Overflow { index: 0 }.is_syntax());
    assert!(!EvalError::DivisionByZero { index: 0 }.is_syntax());
    assert!(!EvalError::Input.is_syntax());
}
