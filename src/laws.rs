//! What the evaluator computes, stated over formulas built as trees: a
//! formula written out as text evaluates to the value of the tree, under
//! the usual precedence and truncating division.
use vstd::prelude::*;
use crate::error::EvalError;
use crate::grammar::{
    digit_value, evaluation, expr_spec, factor_spec, fits_i64, is_digit, numeral_value, peek, run_end,
    term_rest, term_spec, trunc_div,
};
use crate::parser::evaluates_to;

verus! {

/// A factor: an unsigned numeral, a negated numeral, or a parenthesised
/// formula.
pub enum Atom {
    Lit(nat),
    Neg(nat),
    Group(Box<Formula>),
}

/// A chain of factors joined by `*` and `/`, grouped from the left.
pub enum Product {
    One(Atom),
    Times(Box<Product>, Atom),
    Over(Box<Product>, Atom),
}

/// One product, or two joined by a single `+` or `-`.
pub enum Formula {
    One(Product),
    Plus(Product, Product),
    Minus(Product, Product),
}

/// The character of a decimal digit `d < 10`.
pub open spec fn digit_char(d: nat) -> char {
    seq!['0', '1', '2', '3', '4', '5', '6', '7', '8', '9'][d as int]
}

/// The decimal digits of `n`, most significant first, with no leading zero.
pub open spec fn decimal(n: nat) -> Seq<char>
    decreases n,
{
    if n < 10 {
        seq![digit_char(n)]
    } else {
        decimal(n / 10).push(digit_char(n % 10))
    }
}

/// A factor written out as text.
pub open spec fn render_atom(a: Atom) -> Seq<char>
    decreases a,
{
    match a {
        Atom::Lit(n) => decimal(n),
        Atom::Neg(n) => seq!['-'] + decimal(n),
        Atom::Group(f) => seq!['('] + render(*f) + seq![')'],
    }
}

/// A product written out as text.
pub open spec fn render_product(t: Product) -> Seq<char>
    decreases t,
{
    match t {
        Product::One(a) => render_atom(a),
        Product::Times(u, a) => render_product(*u) + seq!['*'] + render_atom(a),
        Product::Over(u, a) => render_product(*u) + seq!['/'] + render_atom(a),
    }
}

/// A formula written out as text, with no spaces.
pub open spec fn render(f: Formula) -> Seq<char>
    decreases f,
{
    match f {
        Formula::One(t) => render_product(t),
        Formula::Plus(t, u) => render_product(t) + seq!['+'] + render_product(u),
        Formula::Minus(t, u) => render_product(t) + seq!['-'] + render_product(u),
    }
}

/// The value of a factor.
pub open spec fn atom_value(a: Atom) -> int
    decreases a,
{
    match a {
        Atom::Lit(n) => n as int,
        Atom::Neg(n) => -(n as int),
        Atom::Group(f) => value(*f),
    }
}

/// The value of a product, folded from the left.
pub open spec fn product_value(t: Product) -> int
    decreases t,
{
    match t {
        Product::One(a) => atom_value(a),
        Product::Times(u, a) => product_value(*u) * atom_value(a),
        Product::Over(u, a) => trunc_div(product_value(*u), atom_value(a)),
    }
}

/// The value of a formula: products bind tighter than sums, and division
/// rounds toward zero.
pub open spec fn value(f: Formula) -> int
    decreases f,
{
    match f {
        Formula::One(t) => product_value(t),
        Formula::Plus(t, u) => product_value(t) + product_value(u),
        Formula::Minus(t, u) => product_value(t) - product_value(u),
    }
}

/// Whether a factor has a value in the signed 64-bit range.
pub open spec fn atom_defined(a: Atom) -> bool
    decreases a,
{
    match a {
        Atom::Lit(n) => n <= i64::MAX,
        Atom::Neg(n) => n <= i64::MAX,
        Atom::Group(f) => defined(*f),
    }
}

/// Whether a product and each step of it stay in the signed 64-bit
/// range, with no zero divisor.
pub open spec fn product_defined(t: Product) -> bool
    decreases t,
{
    match t {
        Product::One(a) => atom_defined(a),
        Product::Times(u, a) => product_defined(*u) && atom_defined(a) && fits_i64(
            product_value(*u) * atom_value(a),
        ),
        Product::Over(u, a) => product_defined(*u) && atom_defined(a) && atom_value(a) != 0
            && fits_i64(trunc_div(product_value(*u), atom_value(a))),
    }
}

/// Whether every numeral and every intermediate value of `f` lies in the
/// signed 64-bit range and no divisor is zero.
pub open spec fn defined(f: Formula) -> bool
    decreases f,
{
    match f {
        Formula::One(t) => product_defined(t),
        Formula::Plus(t, u) => product_defined(t) && product_defined(u) && fits_i64(
            product_value(t) + product_value(u),
        ),
        Formula::Minus(t, u) => product_defined(t) && product_defined(u) && fits_i64(
            product_value(t) - product_value(u),
        ),
    }
}

/// Whether a character `c` right after `f` leaves `f` complete: it cannot
/// extend the last numeral or the last product, nor, after a single
/// product, add a second one.
pub open spec fn ends(f: Formula, c: char) -> bool {
    &&& !is_digit(c)
    &&& c != '*' && c != '/'
    &&& f is One ==> c != '+' && c != '-'
}

/// Whether `r` stands in `s` from position `p` on.
pub open spec fn occurs_at(s: Seq<char>, p: int, r: Seq<char>) -> bool {
    &&& 0 <= p
    &&& p + r.len() <= s.len()
    &&& forall|i: int| 0 <= i < r.len() ==> s[p + i] == #[trigger] r[i]
}

/// Whether the character at `q`, if any, is not a digit.
pub open spec fn no_digit_at(s: Seq<char>, q: int) -> bool {
    !(peek(s, q) is Some && is_digit(peek(s, q)->0))
}

/// The character of a digit is a digit, with that value.
proof fn lemma_digit_char(d: nat)
    requires
        d < 10,
    ensures
        is_digit(digit_char(d)),
        digit_value(digit_char(d)) == d,
{
}

/// Text `x op y` at `p` holds `x` at `p`, then `op`, then `y`.
proof fn lemma_split(s: Seq<char>, p: int, x: Seq<char>, op: char, y: Seq<char>)
    requires
        occurs_at(s, p, x + seq![op] + y),
    ensures
        occurs_at(s, p, x),
        s[p + x.len()] == op,
        occurs_at(s, p + x.len() + 1, y),
{
    let r = x + seq![op] + y;
    assert forall|i: int| 0 <= i < x.len() implies s[p + i] == #[trigger] x[i] by {
        assert(r[i] == x[i]);
    }
    assert(r[x.len() as int] == op);
    assert forall|i: int| 0 <= i < y.len() implies s[p + x.len() + 1 + i] == #[trigger] y[i] by {
        assert(r[x.len() + 1 + i] == y[i]);
    }
}

/// A decimal numeral is non-empty and made of digits.
proof fn lemma_decimal(n: nat)
    ensures
        decimal(n).len() >= 1,
        forall|i: int| 0 <= i < decimal(n).len() ==> is_digit(#[trigger] decimal(n)[i]),
    decreases n,
{
    lemma_digit_char(n % 10);
    if n < 10 {
        lemma_digit_char(n);
    } else {
        lemma_decimal(n / 10);
        assert forall|i: int| 0 <= i < decimal(n).len() implies is_digit(
            #[trigger] decimal(n)[i],
        ) by {
            if i < decimal(n / 10).len() {
                assert(decimal(n)[i] == decimal(n / 10)[i]);
            }
        }
    }
}

/// The numeral written out by `decimal(n)` reads back as `n`.
proof fn lemma_numeral_of_decimal(s: Seq<char>, p: int, n: nat)
    requires
        occurs_at(s, p, decimal(n)),
    ensures
        numeral_value(s, p, p + decimal(n).len()) == n,
    decreases n,
{
    lemma_decimal(n);
    let e = p + decimal(n).len();
    assert(s[p + (decimal(n).len() - 1)] == decimal(n)[decimal(n).len() - 1]);
    lemma_digit_char(n % 10);
    assert(decimal(n)[decimal(n).len() - 1] == digit_char(n % 10));
    assert(numeral_value(s, p, e) == numeral_value(s, p, e - 1) * 10 + digit_value(s[e - 1]));
    if n < 10 {
        assert(numeral_value(s, p, p) == 0);
    } else {
        let d = decimal(n / 10);
        assert(occurs_at(s, p, d)) by {
            assert forall|i: int| 0 <= i < d.len() implies s[p + i] == #[trigger] d[i] by {
                assert(decimal(n)[i] == d[i]);
            }
        }
        lemma_numeral_of_decimal(s, p, n / 10);
        assert(n == (n / 10) * 10 + n % 10);
    }
}

/// A run of digits from `p` to `e` followed by a non-digit ends at `e`.
proof fn lemma_run_end_at(s: Seq<char>, p: int, e: int)
    requires
        0 <= p <= e <= s.len(),
        forall|i: int| p <= i < e ==> is_digit(#[trigger] s[i]),
        no_digit_at(s, e),
    ensures
        run_end(s, p) == e,
    decreases e - p,
{
    if p < e {
        lemma_run_end_at(s, p + 1, e);
    }
}

/// A written factor is never empty.
proof fn lemma_render_atom_len(a: Atom)
    ensures
        render_atom(a).len() >= 1,
{
    match a {
        Atom::Lit(n) => lemma_decimal(n),
        Atom::Neg(n) => {},
        Atom::Group(f) => {},
    }
}

/// The numeral `decimal(n)` at `p`, followed by a non-digit, scans to `n`.
proof fn lemma_scan_decimal(s: Seq<char>, p: int, n: nat)
    requires
        occurs_at(s, p, decimal(n)),
        no_digit_at(s, p + decimal(n).len()),
    ensures
        run_end(s, p) == p + decimal(n).len(),
        numeral_value(s, p, run_end(s, p)) == n,
{
    lemma_decimal(n);
    let e = p + decimal(n).len();
    assert forall|i: int| p <= i < e implies is_digit(#[trigger] s[i]) by {
        assert(s[p + (i - p)] == decimal(n)[i - p]);
    }
    lemma_run_end_at(s, p, e);
    lemma_numeral_of_decimal(s, p, n);
}

/// A written factor followed by a non-digit is read as one factor.
proof fn lemma_atom(s: Seq<char>, p: int, a: Atom)
    requires
        occurs_at(s, p, render_atom(a)),
        atom_defined(a),
        no_digit_at(s, p + render_atom(a).len()),
    ensures
        factor_spec(s, p) == Ok::<(int, int), EvalError>(
            (atom_value(a), p + render_atom(a).len()),
        ),
    decreases a,
{
    let r = render_atom(a);
    lemma_render_atom_len(a);
    assert(s[p] == r[0]);
    match a {
        Atom::Lit(n) => {
            lemma_decimal(n);
            assert(is_digit(decimal(n)[0]));
            lemma_scan_decimal(s, p, n);
        },
        Atom::Neg(n) => {
            let d = decimal(n);
            assert(occurs_at(s, p + 1, d)) by {
                assert forall|i: int| 0 <= i < d.len() implies s[p + 1 + i] == #[trigger] d[i] by {
                    assert(r[1 + i] == d[i]);
                }
            }
            lemma_scan_decimal(s, p + 1, n);
        },
        Atom::Group(f) => {
            let g = render(*f);
            assert(occurs_at(s, p + 1, g)) by {
                assert forall|i: int| 0 <= i < g.len() implies s[p + 1 + i] == #[trigger] g[i] by {
                    assert(r[1 + i] == g[i]);
                }
            }
            assert(s[p + 1 + g.len()] == r[1 + g.len() as int]);
            lemma_formula(s, p + 1, *f);
        },
    }
}

/// A written product followed by a non-digit is read by `term` up to its
/// end, where any further `*` or `/` would continue it.
proof fn lemma_product(s: Seq<char>, p: int, t: Product)
    requires
        occurs_at(s, p, render_product(t)),
        product_defined(t),
        no_digit_at(s, p + render_product(t).len()),
    ensures
        render_product(t).len() >= 1,
        term_spec(s, p) == term_rest(s, product_value(t), p + render_product(t).len()),
    decreases t,
{
    let r = render_product(t);
    match t {
        Product::One(a) => {
            lemma_render_atom_len(a);
            lemma_atom(s, p, a);
        },
        Product::Times(u, a) => {
            lemma_split(s, p, render_product(*u), '*', render_atom(a));
            lemma_product(s, p, *u);
            lemma_atom(s, p + render_product(*u).len() + 1, a);
            lemma_render_atom_len(a);
        },
        Product::Over(u, a) => {
            lemma_split(s, p, render_product(*u), '/', render_atom(a));
            lemma_product(s, p, *u);
            lemma_atom(s, p + render_product(*u).len() + 1, a);
            lemma_render_atom_len(a);
        },
    }
}

/// A written formula followed by a character that ends it is read by
/// `expr` as a whole.
proof fn lemma_formula(s: Seq<char>, p: int, f: Formula)
    requires
        occurs_at(s, p, render(f)),
        defined(f),
        peek(s, p + render(f).len()) is Some ==> ends(f, peek(s, p + render(f).len())->0),
    ensures
        expr_spec(s, p) == Ok::<(int, int), EvalError>((value(f), p + render(f).len())),
    decreases f,
{
    let r = render(f);
    let e = p + r.len();
    match f {
        Formula::One(t) => {
            lemma_product(s, p, t);
        },
        Formula::Plus(t, u) => {
            lemma_split(s, p, render_product(t), '+', render_product(u));
            lemma_product(s, p, t);
            lemma_product(s, p + render_product(t).len() + 1, u);
        },
        Formula::Minus(t, u) => {
            lemma_split(s, p, render_product(t), '-', render_product(u));
            lemma_product(s, p, t);
            lemma_product(s, p + render_product(t).len() + 1, u);
        },
    }
}

/// A well-defined formula, written out and followed by text that cannot
/// continue it (nothing, a newline, a closing parenthesis, or, after two
/// products, a further `+` or `-`), evaluates to its value.
pub proof fn law_formula_evaluates(f: Formula, tail: Seq<char>)
    requires
        defined(f),
        tail.len() > 0 ==> ends(f, tail[0]),
    ensures
        evaluation(render(f) + tail) == Ok::<int, EvalError>(value(f)),
{
    let s = render(f) + tail;
    assert(occurs_at(s, 0, render(f))) by {
        assert forall|i: int| 0 <= i < render(f).len() implies s[0 + i] == #[trigger] render(
            f,
        )[i] by {}
    }
    if tail.len() > 0 {
        assert(s[render(f).len() as int] == tail[0]);
    }
    lemma_formula(s, 0, f);
}

/// Evaluation depends on the line alone: two results that both meet
/// `evaluate`'s contract for the same line are equal.
pub proof fn law_evaluation_is_determined(
    s: Seq<char>,
    r1: Result<i64, EvalError>,
    r2: Result<i64, EvalError>,
)
    requires
        evaluates_to(s, r1),
        evaluates_to(s, r2),
    ensures
        r1 == r2,
{
}

} // verus!
