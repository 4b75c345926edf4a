use vstd::prelude::*;

use crate::expr::{lemma_views_of, lemma_wf_all, views_of, Expr, Node, NodeV};
use crate::number::{
    num_add, num_is_one, num_is_zero, Number, NumV,
};
use crate::order::{lemma_wf_all_multiset, sort_seq};
use crate::plus::Plus;
use crate::times::Times;

verus! {

/// A folded coefficient is written back as a number leaf; a fraction whose
/// denominator collapsed to one becomes an integer, so canonical output never
/// holds a degenerate rational.
pub open spec fn normal_num(k: NumV) -> NodeV {
    match k {
        NumV::Rational { n, d } => if d == 1 {
            NodeV::Num { value: NumV::Integer { i: n } }
        } else {
            NodeV::Num { value: k }
        },
        _ => NodeV::Num { value: k },
    }
}

/// One already-canonical term folded into a sum being rebuilt: zero is
/// dropped, another number joins the coefficient (an indeterminate sum aborts),
/// anything else is kept.
pub open spec fn plus_step(c: NodeV, kept: Seq<NodeV>, coef: Option<NumV>) -> Option<
    (Seq<NodeV>, Option<NumV>),
> {
    match c {
        NodeV::Num { value } => {
            if num_is_zero(value) {
                Some((kept, coef))
            } else {
                match coef {
                    None => Some((kept, Some(value))),
                    Some(k) => match num_add(k, value) {
                        None => None,
                        Some(k2) => Some((kept, Some(k2))),
                    },
                }
            }
        },
        _ => Some((kept.push(c), coef)),
    }
}

/// Splices the children of an already-canonical nested sum into the current
/// level, routing any number among them into the coefficient.
pub open spec fn plus_splice(ts: Seq<NodeV>, kept: Seq<NodeV>, coef: Option<NumV>) -> Option<
    (Seq<NodeV>, Option<NumV>),
>
    decreases ts,
{
    if ts.len() == 0 {
        Some((kept, coef))
    } else {
        match plus_step(ts[0], kept, coef) {
            None => None,
            Some((kept2, coef2)) => plus_splice(ts.subrange(1, ts.len() as int), kept2, coef2),
        }
    }
}

/// The outcome of folding a product's children: the pass aborted on an
/// undefined part, a zero factor absorbed the whole product, or the collected
/// factors and coefficient.
pub enum TimesFold {
    Abort,
    Short,
    Keep { kept: Seq<NodeV>, coef: Option<NumV> },
}

/// One already-canonical factor folded into a product being rebuilt: one is
/// dropped, zero absorbs the whole product at once, another number joins the
/// coefficient, anything else is kept.
pub open spec fn times_step(c: NodeV, kept: Seq<NodeV>, coef: Option<NumV>) -> TimesFold {
    match c {
        NodeV::Num { value } => {
            if num_is_one(value) {
                TimesFold::Keep { kept, coef }
            } else if num_is_zero(value) {
                TimesFold::Short
            } else {
                match coef {
                    None => TimesFold::Keep { kept, coef: Some(value) },
                    Some(k) => TimesFold::Keep {
                        kept,
                        coef: Some(crate::number::num_mul(k, value)),
                    },
                }
            }
        },
        _ => TimesFold::Keep { kept: kept.push(c), coef },
    }
}

/// Splices the children of an already-canonical nested product into the
/// current level.
pub open spec fn times_splice(ts: Seq<NodeV>, kept: Seq<NodeV>, coef: Option<NumV>) -> TimesFold
    decreases ts,
{
    if ts.len() == 0 {
        TimesFold::Keep { kept, coef }
    } else {
        match times_step(ts[0], kept, coef) {
            TimesFold::Abort => TimesFold::Abort,
            TimesFold::Short => TimesFold::Short,
            TimesFold::Keep { kept: kept2, coef: coef2 } => times_splice(
                ts.subrange(1, ts.len() as int),
                kept2,
                coef2,
            ),
        }
    }
}

/// Assembles a canonicalized sum: the coefficient is kept only when nonzero,
/// an empty sum is the additive identity, a single term stands alone, and
/// otherwise the terms are sorted under a fresh sum node.
pub open spec fn finish_plus(kept: Seq<NodeV>, coef: Option<NumV>) -> NodeV {
    let out = match coef {
        Some(k) => if num_is_zero(k) {
            kept
        } else {
            kept.push(normal_num(k))
        },
        None => kept,
    };
    if out.len() == 0 {
        NodeV::Num { value: NumV::Integer { i: 0 } }
    } else if out.len() == 1 {
        out[0]
    } else {
        NodeV::Plus { terms: sort_seq(out) }
    }
}

/// Assembles a canonicalized product: the coefficient is kept only when it is
/// not one, an empty product is the multiplicative identity, a single factor
/// stands alone, and otherwise the factors are sorted under a fresh product
/// node.
pub open spec fn finish_times(kept: Seq<NodeV>, coef: Option<NumV>) -> NodeV {
    let out = match coef {
        Some(k) => if num_is_one(k) {
            kept
        } else {
            kept.push(normal_num(k))
        },
        None => kept,
    };
    if out.len() == 0 {
        NodeV::Num { value: NumV::Integer { i: 1 } }
    } else if out.len() == 1 {
        out[0]
    } else {
        NodeV::Times { factors: sort_seq(out) }
    }
}

/// Canonicalization, bottom up. `None` means the pass aborted because an
/// undefined part (or an indeterminate sum of infinities) was reached; the
/// whole result is then the undefined sentinel.
pub open spec fn canon(v: NodeV) -> Option<NodeV>
    decreases v, 1int,
{
    match v {
        NodeV::Num { value } => Some(normal_num(value)),
        NodeV::Sym { .. } => Some(v),
        NodeV::Undef => None,
        NodeV::Deriv { wrt, inner } => match canon(*inner) {
            None => None,
            Some(ci) => Some(NodeV::Deriv { wrt, inner: Box::new(ci) }),
        },
        NodeV::Plus { terms } => match fold_plus(terms, Seq::empty(), None) {
            None => None,
            Some((kept, coef)) => Some(finish_plus(kept, coef)),
        },
        NodeV::Times { factors } => match fold_times(factors, Seq::empty(), None) {
            TimesFold::Abort => None,
            TimesFold::Short => Some(NodeV::Num { value: NumV::Integer { i: 0 } }),
            TimesFold::Keep { kept, coef } => Some(finish_times(kept, coef)),
        },
    }
}

/// Folds a sum's children left to right: each child is canonicalized, nested
/// sums are spliced, numbers are folded into the coefficient.
pub open spec fn fold_plus(cs: Seq<NodeV>, kept: Seq<NodeV>, coef: Option<NumV>) -> Option<
    (Seq<NodeV>, Option<NumV>),
>
    decreases cs, 0int,
{
    if cs.len() == 0 {
        Some((kept, coef))
    } else {
        match canon(cs[0]) {
            None => None,
            Some(c) => {
                let stepped = if c is Plus {
                    plus_splice(c->terms, kept, coef)
                } else {
                    plus_step(c, kept, coef)
                };
                match stepped {
                    None => None,
                    Some((kept2, coef2)) => fold_plus(
                        cs.subrange(1, cs.len() as int),
                        kept2,
                        coef2,
                    ),
                }
            },
        }
    }
}

/// Folds a product's children left to right: each child is canonicalized,
/// nested products are spliced, numbers are folded into the coefficient, and
/// a zero factor ends the whole product at once, before later children are
/// examined.
pub open spec fn fold_times(cs: Seq<NodeV>, kept: Seq<NodeV>, coef: Option<NumV>) -> TimesFold
    decreases cs, 0int,
{
    if cs.len() == 0 {
        TimesFold::Keep { kept, coef }
    } else {
        match canon(cs[0]) {
            None => TimesFold::Abort,
            Some(c) => {
                let stepped = if c is Times {
                    times_splice(c->factors, kept, coef)
                } else {
                    times_step(c, kept, coef)
                };
                match stepped {
                    TimesFold::Abort => TimesFold::Abort,
                    TimesFold::Short => TimesFold::Short,
                    TimesFold::Keep { kept: kept2, coef: coef2 } => fold_times(
                        cs.subrange(1, cs.len() as int),
                        kept2,
                        coef2,
                    ),
                }
            },
        }
    }
}

/// The canonical form of a tree: the canonicalized tree, or the undefined
/// sentinel when the pass aborted.
pub open spec fn full_canon(v: NodeV) -> NodeV {
    match canon(v) {
        Some(c) => c,
        None => NodeV::Undef,
    }
}

/// The view of a running coefficient.
pub open spec fn coef_v(c: Option<Number>) -> Option<NumV> {
    match c {
        None => None,
        Some(n) => Some(n@),
    }
}

/// Every number a coefficient may hold is well-formed.
pub open spec fn coef_wf(c: Option<Number>) -> bool {
    match c {
        None => true,
        Some(n) => n.wf(),
    }
}

/// What folding one nonzero number into a sum coefficient yields; the outer
/// `None` is the indeterminate sum of opposite infinities.
pub open spec fn plus_coef_spec(c: Option<NumV>, v: NumV) -> Option<Option<NumV>> {
    match c {
        None => Some(Some(v)),
        Some(k) => match num_add(k, v) {
            None => None,
            Some(k2) => Some(Some(k2)),
        },
    }
}

/// Folds one nonzero number into the running coefficient of a sum.
fn plus_coef(coef: Option<Number>, n: &Number) -> (r: Option<Option<Number>>)
    requires
        n.wf(),
        coef_wf(coef),
    ensures
        (match r {
            None => plus_coef_spec(coef_v(coef), n@) is None,
            Some(c2) => plus_coef_spec(coef_v(coef), n@) == Some(coef_v(c2)) && coef_wf(c2),
        }),
{
    match coef {
        None => Some(Some(n.clone())),
        Some(k) => match k.checked_add(n) {
            None => None,
            Some(k2) => Some(Some(k2)),
        },
    }
}

/// Folds one number (neither one nor zero) into the running coefficient of a
/// product; multiplication is total.
fn times_coef(coef: Option<Number>, n: &Number) -> (r: Option<Number>)
    requires
        n.wf(),
        coef_wf(coef),
    ensures
        coef_wf(r),
        (match coef_v(coef) {
            None => coef_v(r) == Some(n@),
            Some(k) => coef_v(r) == Some(crate::number::num_mul(k, n@)),
        }),
{
    match coef {
        None => Some(n.clone()),
        Some(k) => Some(k.mul_num(n)),
    }
}

/// A number written back as a canonical leaf.
fn normal_leaf(k: Number) -> (r: Expr)
    requires
        k.wf(),
    ensures
        r@ == normal_num(k@),
        r.wf(),
{
    match k {
        Number::Rational(q) => {
            if q.denom.is_one_val() {
                Expr::number(Number::Integer(q.numer))
            } else {
                Expr::number(Number::Rational(q))
            }
        },
        _ => Expr::number(k),
    }
}

/// Wraps collected children: none collapse to the given identity, one stands
/// alone, more are sorted under a node built by `wrap`.
fn assemble(out: Vec<Expr>, identity: i64, is_sum: bool) -> (r: Expr)
    requires
        forall|i: int| 0 <= i < out@.len() ==> (*#[trigger] out@[i].node).wf(),
    ensures
        r.wf(),
        r@ == (if views_of(out@).len() == 0 {
            NodeV::Num { value: NumV::Integer { i: identity as int } }
        } else if views_of(out@).len() == 1 {
            views_of(out@)[0]
        } else if is_sum {
            NodeV::Plus { terms: sort_seq(views_of(out@)) }
        } else {
            NodeV::Times { factors: sort_seq(views_of(out@)) }
        }),
{
    proof {
        lemma_views_of(out@);
    }
    if out.len() == 0 {
        Expr::number(Number::Integer(crate::big::BigInteger::from_i64(identity)))
    } else if out.len() == 1 {
        let mut out = out;
        match out.pop() {
            Some(x) => x,
            None => vstd::pervasive::unreached(),
        }
    } else if is_sum {
        proof {
            lemma_wf_all(out@);
        }
        let sum = Plus::new(out);
        proof {
            lemma_wf_all_multiset(out@, sum.terms@);
            lemma_wf_all(sum.terms@);
        }
        Expr::new(Node::Plus(sum))
    } else {
        proof {
            lemma_wf_all(out@);
        }
        let prod = Times::new(out);
        proof {
            lemma_wf_all_multiset(out@, prod.terms@);
            lemma_wf_all(prod.terms@);
        }
        Expr::new(Node::Times(prod))
    }
}

/// Rewrites a tree into canonical form. The result is the undefined sentinel
/// when any part of the tree is undefined, or when an indeterminate sum of
/// infinities arises while folding coefficients.
pub fn canonicalize(expr: Expr) -> (r: Expr)
    requires
        expr.wf(),
    ensures
        r@ == full_canon(expr@),
        r.wf(),
{
    match canon_expr(&expr) {
        Some(c) => c,
        None => Expr::undefined(),
    }
}

/// The canonicalization pass over one node; `None` aborts the pass.
#[verifier::loop_isolation(false)]
fn canon_expr(e: &Expr) -> (r: Option<Expr>)
    requires
        e.wf(),
    ensures
        (r is Some <==> canon(e@) is Some),
        (match r {
            Some(x) => canon(e@) == Some(x@) && x.wf(),
            None => true,
        }),
    decreases e@, 1int,
{
    match &*e.node {
        Node::Number(n) => {
            match n {
                Number::Rational(q) => {
                    if q.denom.is_one_val() {
                        Some(Expr::number(Number::Integer(q.numer.clone())))
                    } else {
                        Some(e.clone())
                    }
                },
                _ => Some(e.clone()),
            }
        },
        Node::Symbol(_) => Some(e.clone()),
        Node::Undefined(_) => None,
        Node::Derivative(d) => {
            match canon_expr(&d.expr) {
                None => None,
                Some(ci) => Some(crate::derivative::derivative(ci, d.wrt.clone())),
            }
        },
        Node::Plus(p) => {
            let ghost cs = views_of(p.terms@);
            proof {
                lemma_views_of(p.terms@);
                lemma_wf_all(p.terms@);
                assert(cs.subrange(0, cs.len() as int) =~= cs);
            }
            let mut kept: Vec<Expr> = Vec::new();
            let mut coef: Option<Number> = None;
            let mut k: usize = 0;
            proof {
                assert(views_of(kept@) =~= Seq::<NodeV>::empty());
            }
            while k < p.terms.len()
                invariant
                    0 <= k <= p.terms@.len(),
                    forall|i: int| 0 <= i < kept@.len() ==> (*#[trigger] kept@[i].node).wf(),
                    coef_wf(coef),
                    fold_plus(cs, Seq::empty(), None) == fold_plus(
                        cs.subrange(k as int, cs.len() as int),
                        views_of(kept@),
                        coef_v(coef),
                    ),
                decreases cs.len() - k,
            {
                let ghost rest = cs.subrange(k as int, cs.len() as int);
                proof {
                    assert(rest[0] == cs[k as int]);
                    assert(rest.subrange(1, rest.len() as int) =~= cs.subrange(
                        k as int + 1,
                        cs.len() as int,
                    ));
                }
                let c = match canon_expr(&p.terms[k]) {
                    None => {
                        return None;
                    },
                    Some(c) => c,
                };
                match &*c.node {
                    Node::Plus(cp) => {
                        let ghost ts = views_of(cp.terms@);
                        proof {
                            lemma_views_of(cp.terms@);
                            lemma_wf_all(cp.terms@);
                            assert(ts.subrange(0, ts.len() as int) =~= ts);
                        }
                        let ghost kept0 = views_of(kept@);
                        let ghost coef0 = coef_v(coef);
                        let mut j: usize = 0;
                        while j < cp.terms.len()
                            invariant
                                0 <= j <= cp.terms@.len(),
                                forall|i: int|
                                    0 <= i < kept@.len() ==> (*#[trigger] kept@[i].node).wf(),
                                coef_wf(coef),
                                plus_splice(ts, kept0, coef0) == plus_splice(
                                    ts.subrange(j as int, ts.len() as int),
                                    views_of(kept@),
                                    coef_v(coef),
                                ),
                            decreases ts.len() - j,
                        {
                            let ghost trest = ts.subrange(j as int, ts.len() as int);
                            proof {
                                assert(trest[0] == ts[j as int]);
                                assert(trest.subrange(1, trest.len() as int) =~= ts.subrange(
                                    j as int + 1,
                                    ts.len() as int,
                                ));
                            }
                            let t = &cp.terms[j];
                            match &*t.node {
                                Node::Number(n) => {
                                    if !n.is_zero() {
                                        match plus_coef(coef, n) {
                                            None => {
                                                return None;
                                            },
                                            Some(c2) => {
                                                coef = c2;
                                            },
                                        }
                                    }
                                },
                                _ => {
                                    proof {
                                        crate::plus::lemma_views_seq_push(kept@, *t);
                                    }
                                    kept.push(t.clone());
                                },
                            }
                            j = j + 1;
                        }
                        proof {
                            assert(ts.subrange(j as int, ts.len() as int)
                                =~= Seq::<NodeV>::empty());
                        }
                    },
                    Node::Number(n) => {
                        if !n.is_zero() {
                            match plus_coef(coef, n) {
                                None => {
                                    return None;
                                },
                                Some(c2) => {
                                    coef = c2;
                                },
                            }
                        }
                    },
                    _ => {
                        proof {
                            crate::plus::lemma_views_seq_push(kept@, c);
                        }
                        kept.push(c);
                    },
                }
                k = k + 1;
            }
            proof {
                assert(cs.subrange(k as int, cs.len() as int) =~= Seq::<NodeV>::empty());
            }
            let ghost kept_v = views_of(kept@);
            let ghost coef0 = coef_v(coef);
            match coef {
                Some(kn) => {
                    if !kn.is_zero() {
                        let leaf = normal_leaf(kn);
                        proof {
                            crate::plus::lemma_views_seq_push(kept@, leaf);
                        }
                        kept.push(leaf);
                    }
                },
                None => {},
            }
            let out = assemble(kept, 0, true);
            proof {
                assert(out@ == finish_plus(kept_v, coef0));
            }
            Some(out)
        },
        Node::Times(t) => {
            let ghost cs = views_of(t.terms@);
            proof {
                lemma_views_of(t.terms@);
                lemma_wf_all(t.terms@);
                assert(cs.subrange(0, cs.len() as int) =~= cs);
            }
            let mut kept: Vec<Expr> = Vec::new();
            let mut coef: Option<Number> = None;
            let mut k: usize = 0;
            proof {
                assert(views_of(kept@) =~= Seq::<NodeV>::empty());
            }
            while k < t.terms.len()
                invariant
                    0 <= k <= t.terms@.len(),
                    forall|i: int| 0 <= i < kept@.len() ==> (*#[trigger] kept@[i].node).wf(),
                    coef_wf(coef),
                    fold_times(cs, Seq::empty(), None) == fold_times(
                        cs.subrange(k as int, cs.len() as int),
                        views_of(kept@),
                        coef_v(coef),
                    ),
                decreases cs.len() - k,
            {
                let ghost rest = cs.subrange(k as int, cs.len() as int);
                proof {
                    assert(rest[0] == cs[k as int]);
                    assert(rest.subrange(1, rest.len() as int) =~= cs.subrange(
                        k as int + 1,
                        cs.len() as int,
                    ));
                }
                let c = match canon_expr(&t.terms[k]) {
                    None => {
                        return None;
                    },
                    Some(c) => c,
                };
                match &*c.node {
                    Node::Times(ct) => {
                        let ghost ts = views_of(ct.terms@);
                        proof {
                            lemma_views_of(ct.terms@);
                            lemma_wf_all(ct.terms@);
                            assert(ts.subrange(0, ts.len() as int) =~= ts);
                        }
                        let ghost kept0 = views_of(kept@);
                        let ghost coef0 = coef_v(coef);
                        let mut j: usize = 0;
                        while j < ct.terms.len()
                            invariant
                                0 <= j <= ct.terms@.len(),
                                forall|i: int|
                                    0 <= i < kept@.len() ==> (*#[trigger] kept@[i].node).wf(),
                                coef_wf(coef),
                                times_splice(ts, kept0, coef0) == times_splice(
                                    ts.subrange(j as int, ts.len() as int),
                                    views_of(kept@),
                                    coef_v(coef),
                                ),
                            decreases ts.len() - j,
                        {
                            let ghost trest = ts.subrange(j as int, ts.len() as int);
                            proof {
                                assert(trest[0] == ts[j as int]);
                                assert(trest.subrange(1, trest.len() as int) =~= ts.subrange(
                                    j as int + 1,
                                    ts.len() as int,
                                ));
                            }
                            let u = &ct.terms[j];
                            match &*u.node {
                                Node::Number(n) => {
                                    if n.is_one() {
                                        // dropped
                                    } else if n.is_zero() {
                                        return Some(Expr::zero());
                                    } else {
                                        coef = times_coef(coef, n);
                                    }
                                },
                                _ => {
                                    proof {
                                        crate::plus::lemma_views_seq_push(kept@, *u);
                                    }
                                    kept.push(u.clone());
                                },
                            }
                            j = j + 1;
                        }
                        proof {
                            assert(ts.subrange(j as int, ts.len() as int)
                                =~= Seq::<NodeV>::empty());
                        }
                    },
                    Node::Number(n) => {
                        if n.is_one() {
                            // dropped
                        } else if n.is_zero() {
                            return Some(Expr::zero());
                        } else {
                            coef = times_coef(coef, n);
                        }
                    },
                    _ => {
                        proof {
                            crate::plus::lemma_views_seq_push(kept@, c);
                        }
                        kept.push(c);
                    },
                }
                k = k + 1;
            }
            proof {
                assert(cs.subrange(k as int, cs.len() as int) =~= Seq::<NodeV>::empty());
            }
            let ghost kept_v = views_of(kept@);
            let ghost coef0 = coef_v(coef);
            match coef {
                Some(kn) => {
                    if !kn.is_one() {
                        let leaf = normal_leaf(kn);
                        proof {
                            crate::plus::lemma_views_seq_push(kept@, leaf);
                        }
                        kept.push(leaf);
                    }
                },
                None => {},
            }
            let out = assemble(kept, 1, false);
            proof {
                assert(out@ == finish_times(kept_v, coef0));
            }
            Some(out)
        },
    }
}

} // verus!
