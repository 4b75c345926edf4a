use symexpr::canonicalize::canonicalize;
use symexpr::convert::LaTex;
use symexpr::derivative::derivative;
use symexpr::eval_symbolic::symbolic_eval;
use symexpr::expr::{Expr, Node};
use symexpr::plus::{plus, Plus};
use symexpr::symbol::{depends_on, sym, Symbol};
use symexpr::times::{times, Times};

fn raw_plus(terms: Vec<Expr>) -> Expr {
    Expr::new(Node::Plus(Plus { terms }))
}

fn raw_times(terms: Vec<Expr>) -> Expr {
    Expr::new(Node::Times(Times { terms }))
}

fn tex(e: &Expr) -> String {
    LaTex::convert_to_string(e).expect("rendering hit an undefined part")
}

#[test]
fn it_works() {
    let x = sym("x");

    let a = plus(
        &times(&times(&x, &x), &Expr::from_i64(2)),
        &Expr::rational_i64(7, 2),
    );
    let a_prime = derivative(a.clone(), Symbol::new("x"));

    println!("{}", tex(&symbolic_eval(a_prime)));

    println!("{}", tex(&a));
}

#[test]
fn idempotence_scenario() {
    let x = sym("x");
    let y = sym("y");
    let e = raw_plus(vec![
        raw_times(vec![x.clone(), Expr::from_i64(3)]),
        raw_plus(vec![y.clone(), Expr::from_i64(2), Expr::rational_i64(1, 2)]),
        Expr::from_i64(0),
    ]);
    let once = canonicalize(e.clone());
    let twice = canonicalize(once.clone());
    assert!(twice.equals(&once));
}

#[test]
fn commutative_flattening() {
    let a = sym("a");
    let b = sym("b");
    let c = Expr::from_i64(4);
    let nested = raw_plus(vec![a.clone(), raw_plus(vec![b.clone(), c.clone()])]);
    let flat = raw_plus(vec![a, b, c]);
    assert!(canonicalize(nested).equals(&canonicalize(flat)));
}

#[test]
fn plus_identity_elimination() {
    let x = sym("x");
    let e = raw_plus(vec![x.clone(), Expr::zero()]);
    assert!(canonicalize(e).equals(&canonicalize(x)));
}

#[test]
fn times_identity_elimination() {
    let x = sym("x");
    let e = raw_times(vec![x.clone(), Expr::one()]);
    assert!(canonicalize(e).equals(&canonicalize(x)));
}

#[test]
fn times_zero_absorbs() {
    let x = sym("x");
    let e = raw_times(vec![x, Expr::zero()]);
    assert!(canonicalize(e).equals(&Expr::zero()));
    // a compound tree, too
    let y = sym("y");
    let f = raw_times(vec![
        raw_plus(vec![y, Expr::from_i64(7)]),
        Expr::zero(),
    ]);
    assert!(canonicalize(f).equals(&Expr::zero()));
}

#[test]
fn undefined_before_zero_wins() {
    // children are visited in order: an undefined part standing first aborts
    // before the zero is reached
    let e = raw_times(vec![Expr::undefined(), Expr::zero()]);
    assert!(canonicalize(e).equals(&Expr::undefined()));
    // with the zero first, the product collapses before the undefined part
    let f = raw_times(vec![Expr::zero(), Expr::undefined()]);
    assert!(canonicalize(f).equals(&Expr::zero()));
}

#[test]
fn undefined_propagates_through_plus() {
    let x = sym("x");
    let e = raw_plus(vec![x, Expr::undefined()]);
    assert!(canonicalize(e).equals(&Expr::undefined()));
}

#[test]
fn coefficient_folding() {
    let x = sym("x");
    let a = raw_plus(vec![Expr::from_i64(2), Expr::from_i64(3), x.clone()]);
    let b = raw_plus(vec![Expr::from_i64(5), x]);
    assert!(canonicalize(a).equals(&canonicalize(b)));
}

#[test]
fn linearity_of_differentiation() {
    let x = Symbol::new("x");
    let f = times(&sym("x"), &sym("y"));
    let g = times(&sym("x"), &sym("x"));
    let lhs = symbolic_eval(derivative(plus(&f, &g), x.clone()));
    let df = symbolic_eval(derivative(f, x.clone()));
    let dg = symbolic_eval(derivative(g, x));
    let rhs = canonicalize(raw_plus(vec![df, dg]));
    assert!(lhs.equals(&rhs));
}

#[test]
fn product_rule() {
    // d/dx (x * x) = 1*x + x*1; canonical form keeps the sum of like terms
    // unmerged, so the result is x + x, not 2*x
    let x = sym("x");
    let d = derivative(times(&x, &x), Symbol::new("x"));
    let r = symbolic_eval(d);
    let expected = raw_plus(vec![x.clone(), x.clone()]);
    assert!(r.equals(&expected));
    assert_eq!(tex(&r), "x + x");
}

#[test]
fn like_terms_stay_unmerged() {
    let x = sym("x");
    let e = raw_plus(vec![x.clone(), x.clone()]);
    let c = canonicalize(e.clone());
    assert!(c.equals(&e));
    let two_x = times(&Expr::from_i64(2), &x);
    assert!(!c.equals(&two_x));
}

#[test]
fn quadratic_scenario() {
    // build 2*x*x + 7/2, differentiate, evaluate, canonicalize;
    // the generalized product rule gives 2*x + 2*x (no like-term merging)
    let x = sym("x");
    let a = plus(
        &times(&times(&x, &x), &Expr::from_i64(2)),
        &Expr::rational_i64(7, 2),
    );
    let r = symbolic_eval(derivative(a, Symbol::new("x")));
    let term = times(&Expr::from_i64(2), &x);
    let expected = canonicalize(raw_plus(vec![term.clone(), term]));
    assert!(r.equals(&expected));
    assert_eq!(tex(&r), "2 * x + 2 * x");
}

#[test]
fn higher_order_derivative() {
    // d/dx of an unevaluated d/dx(x*x): the inner layer evaluates to x + x,
    // the outer pass then differentiates that to 1 + 1, folded to 2
    let x = sym("x");
    let inner = derivative(times(&x, &x), Symbol::new("x"));
    let outer = derivative(inner, Symbol::new("x"));
    let r = symbolic_eval(outer);
    assert!(r.equals(&Expr::from_i64(2)));
}

#[test]
fn reference_counting_and_copy_on_write() {
    let x = sym("x");
    let c1 = x.clone();
    let c2 = x.clone();
    let c3 = c2.clone();
    assert_eq!(std::sync::Arc::strong_count(&x.node), 4);
    drop(c1);
    drop(c2);
    drop(c3);
    assert_eq!(std::sync::Arc::strong_count(&x.node), 1);

    // mutation through make_mut on an aliased handle never changes the value
    // seen through the other alias
    let mut b = x.clone();
    assert_eq!(std::sync::Arc::strong_count(&x.node), 2);
    let m = b.make_mut();
    *m = Node::Undefined(symexpr::undefined::Undefined);
    assert_eq!(tex(&x), "x");
    assert!(b.equals(&Expr::undefined()));
    assert_eq!(std::sync::Arc::strong_count(&x.node), 1);
}

#[test]
fn depends_on_walks_the_tree() {
    let x = sym("x");
    let y = sym("y");
    let e = plus(&times(&x, &y), &Expr::from_i64(3));
    assert!(depends_on(&e, &Symbol::new("x")));
    assert!(depends_on(&e, &Symbol::new("y")));
    assert!(!depends_on(&e, &Symbol::new("z")));
    // the symbol of differentiation counts as a dependency
    let d = derivative(sym("q"), Symbol::new("w"));
    assert!(depends_on(&d, &Symbol::new("w")));
    assert!(depends_on(&d, &Symbol::new("q")));
    assert!(!depends_on(&d, &Symbol::new("x")));
}

#[test]
fn sorting_is_deterministic() {
    let x = sym("x");
    let y = sym("y");
    let e = raw_plus(vec![y.clone(), x.clone(), Expr::from_i64(2)]);
    let f = raw_plus(vec![Expr::from_i64(2), x, y]);
    let ce = canonicalize(e);
    let cf = canonicalize(f);
    assert!(ce.equals(&cf));
    assert_eq!(tex(&ce), "2 + x + y");
}
