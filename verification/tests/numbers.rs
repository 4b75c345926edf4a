use symexpr::canonicalize::canonicalize;
use symexpr::convert::LaTex;
use symexpr::expr::{Expr, Node};
use symexpr::number::{Number, Sign};
use symexpr::plus::plus;
use symexpr::symbol::sym;
use symexpr::times::{times, Times};

fn tex(e: &Expr) -> String {
    LaTex::convert_to_string(e).expect("rendering hit an undefined part")
}

#[test]
fn integer_rendering() {
    assert_eq!(tex(&Expr::from_i64(0)), "0");
    assert_eq!(tex(&Expr::from_i64(42)), "42");
    assert_eq!(tex(&Expr::from_i64(-5)), "-5");
    assert_eq!(tex(&Expr::from_u64(18446744073709551615)), "18446744073709551615");
}

#[test]
fn rational_rendering_and_reduction() {
    assert_eq!(tex(&Expr::rational_i64(7, 2)), "\\frac{7}{2}");
    // reduction to lowest terms happens on construction
    assert_eq!(tex(&Expr::rational_i64(2, 4)), "\\frac{1}{2}");
    // the sign lives in the numerator
    assert_eq!(tex(&Expr::rational_i64(1, -2)), "\\frac{-1}{2}");
    assert!(Expr::rational_i64(1, 2).equals(&Expr::rational_i64(2, 4)));
    assert!(Expr::rational_i64(-1, 2).equals(&Expr::rational_i64(1, -2)));
    assert!(!Expr::rational_i64(1, 2).equals(&Expr::rational_i64(1, 3)));
    // a zero denominator has no value
    assert!(Expr::rational_i64(3, 0).equals(&Expr::undefined()));
}

#[test]
fn undefined_rendering_aborts() {
    assert!(LaTex::convert_to_string(&Expr::undefined()).is_none());
    let e = plus(&sym("x"), &Expr::undefined());
    assert!(LaTex::convert_to_string(&e).is_none());
}

#[test]
fn derivative_rendering() {
    let d = symexpr::derivative::derivative(sym("y"), symexpr::symbol::Symbol::new("x"));
    assert_eq!(tex(&d), "\\frac{d}{dx}(y)");
}

#[test]
fn numeric_pairs_fold_on_construction() {
    // the constructors already fold two numeric leaves
    assert_eq!(tex(&plus(&Expr::from_i64(2), &Expr::from_i64(3))), "5");
    assert_eq!(tex(&times(&Expr::from_i64(6), &Expr::from_i64(7))), "42");
    assert_eq!(
        tex(&plus(&Expr::rational_i64(1, 3), &Expr::rational_i64(1, 6))),
        "\\frac{1}{2}"
    );
    assert_eq!(
        tex(&times(&Expr::rational_i64(2, 3), &Expr::rational_i64(3, 4))),
        "\\frac{1}{2}"
    );
    // mixed kinds give a rational
    assert_eq!(
        tex(&plus(&Expr::from_i64(2), &Expr::rational_i64(1, 2))),
        "\\frac{5}{2}"
    );
}

#[test]
fn big_products_are_exact() {
    let big = Expr::from_u64(10_000_000_000);
    assert_eq!(tex(&times(&big, &big)), "100000000000000000000");
}

#[test]
fn degenerate_rational_becomes_integer() {
    // 2/3 * 3/2 reduces to the rational 1/1, which canonical form prefers as
    // the integer one, and one is then dropped as the identity
    let x = sym("x");
    let e = Expr::new(Node::Times(Times {
        terms: vec![
            x.clone(),
            Expr::rational_i64(2, 3),
            Expr::rational_i64(3, 2),
        ],
    }));
    assert!(canonicalize(e).equals(&x));
}

#[test]
fn infinity_arithmetic() {
    let pinf = Expr::infinity(Sign::Plus);
    let minf = Expr::infinity(Sign::Minus);
    assert_eq!(tex(&pinf), "+ \\infty");
    assert_eq!(tex(&minf), "- \\infty");
    // an infinity absorbs finite values, keeping its sign
    assert_eq!(tex(&plus(&pinf, &Expr::from_i64(5))), "+ \\infty");
    assert_eq!(tex(&times(&minf, &Expr::from_i64(5))), "- \\infty");
    // like signs add to themselves; opposite signs have no sum
    assert_eq!(tex(&plus(&pinf, &pinf)), "+ \\infty");
    assert!(plus(&pinf, &minf).equals(&Expr::undefined()));
    // products multiply the signs
    assert_eq!(tex(&times(&pinf, &pinf)), "+ \\infty");
    assert_eq!(tex(&times(&pinf, &minf)), "- \\infty");
    assert_eq!(tex(&times(&minf, &minf)), "+ \\infty");
}

#[test]
fn predicates_are_exact() {
    let five = Number::Integer(symexpr::big::BigInteger::from_i64(5));
    assert!(!five.is_zero());
    assert!(!five.is_one());
    assert!(five.is_positive());
    assert!(!five.is_negative());
    assert!(!five.is_minus_one());
    let m1 = Number::Integer(symexpr::big::BigInteger::from_i64(-1));
    assert!(m1.is_minus_one());
    assert!(m1.is_negative());
    let zero = Number::Integer(symexpr::big::BigInteger::zero());
    assert!(zero.is_zero());
    assert!(!zero.is_positive() && !zero.is_negative());
}

#[test]
fn assumptions_start_empty() {
    let a = symexpr::assumptions::Assumptions::new();
    assert_eq!(a.positive.len(), 0);
}

#[test]
fn symbols_compare_by_name() {
    let a = symexpr::symbol::Symbol::new("alpha");
    let b = symexpr::symbol::Symbol::new("alpha");
    assert!(a.same_name(&b));
    assert_eq!(a.as_str(), "alpha");
    assert!(sym("alpha").equals(&sym("alpha")));
    assert!(!sym("alpha").equals(&sym("beta")));
}
