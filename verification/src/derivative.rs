use vstd::prelude::*;

use crate::expr::{clone_exprs, lemma_views_of, lemma_wf_all, views_of, Expr, Node, NodeV};
use crate::number::{Number, NumV};
use crate::order::sort_seq;
use crate::plus::Plus;
use crate::symbol::Symbol;
use crate::times::Times;

verus! {

/// An unevaluated derivative of an expression with respect to a symbol.
/// Building one performs no traversal; evaluation is a separate pass.
pub struct Derivative {
    pub wrt: Symbol,
    pub expr: Expr,
}

/// Wraps an expression in an unevaluated derivative node, in constant time.
pub fn derivative(expr: Expr, wrt: Symbol) -> (r: Expr)
    ensures
        r@ == (NodeV::Deriv { wrt: wrt@, inner: Box::new(expr@) }),
        r.wf() == expr.wf(),
{
    Expr::new(Node::Derivative(Derivative { wrt, expr }))
}

/// How deeply derivative nodes nest in a tree. Differentiation eliminates one
/// layer at a time, which is what bounds the evaluation pass.
pub open spec fn dd(v: NodeV) -> nat
    decreases v,
{
    match v {
        NodeV::Plus { terms } => dd_all(terms),
        NodeV::Times { factors } => dd_all(factors),
        NodeV::Deriv { inner, .. } => 1 + dd(*inner),
        _ => 0,
    }
}

/// The deepest nesting among the elements of a sequence.
pub open spec fn dd_all(s: Seq<NodeV>) -> nat
    decreases s,
{
    if s.len() == 0 {
        0
    } else {
        let rest = dd_all(s.subrange(0, s.len() - 1));
        let last = dd(s[s.len() - 1]);
        if last > rest {
            last
        } else {
            rest
        }
    }
}

/// Each element nests no deeper than the sequence's bound.
pub broadcast proof fn lemma_dd_all(s: Seq<NodeV>)
    ensures
        #![trigger dd_all(s)]
        forall|i: int| 0 <= i < s.len() ==> dd(#[trigger] s[i]) <= dd_all(s),
    decreases s.len(),
{
    if s.len() > 0 {
        let head = s.subrange(0, s.len() - 1);
        lemma_dd_all(head);
        assert(forall|i: int| 0 <= i < s.len() - 1 ==> #[trigger] s[i] == head[i]);
    }
}

/// The structural derivative with respect to `wrt`, fuelled: each nested
/// derivative layer evaluated on the way consumes one unit. `None` means the
/// pass aborted on an undefined part (or, with too little fuel, that the
/// nesting was deeper than the fuel; `spec_deriv` always supplies enough).
///
/// A number differentiates to zero; a symbol to one or zero; a sum termwise;
/// a product by the generalized product rule; a nested derivative is
/// evaluated first and the outer rule is then applied to the result.
pub open spec fn deriv_f(v: NodeV, wrt: Seq<char>, fuel: nat) -> Option<NodeV>
    decreases fuel, v, 0int,
{
    match v {
        NodeV::Undef => None,
        NodeV::Num { .. } => Some(NodeV::Num { value: NumV::Integer { i: 0 } }),
        NodeV::Sym { name } => Some(
            NodeV::Num {
                value: NumV::Integer {
                    i: if name == wrt {
                        1
                    } else {
                        0
                    },
                },
            },
        ),
        NodeV::Plus { terms } => match deriv_seq(terms, wrt, fuel) {
            None => None,
            Some(ds) => Some(NodeV::Plus { terms: sort_seq(ds) }),
        },
        NodeV::Times { factors } => match deriv_terms(factors, wrt, fuel, 0) {
            None => None,
            Some(ts) => Some(NodeV::Plus { terms: sort_seq(ts) }),
        },
        NodeV::Deriv { wrt: w2, inner } => {
            if fuel == 0 {
                None
            } else {
                match deriv_f(*inner, w2, fuel) {
                    None => None,
                    Some(v1) => deriv_f(v1, wrt, (fuel - 1) as nat),
                }
            }
        },
    }
}

/// The derivatives of a sum's terms, in order.
pub open spec fn deriv_seq(cs: Seq<NodeV>, wrt: Seq<char>, fuel: nat) -> Option<Seq<NodeV>>
    decreases fuel, cs, 0int,
{
    if cs.len() == 0 {
        Some(Seq::empty())
    } else {
        match deriv_f(cs[0], wrt, fuel) {
            None => None,
            Some(d0) => match deriv_seq(cs.subrange(1, cs.len() as int), wrt, fuel) {
                None => None,
                Some(rest) => Some(seq![d0] + rest),
            },
        }
    }
}

/// The terms of the generalized product rule: for each index from `i` on, the
/// product with that factor replaced by its derivative (factors sorted on
/// construction of each product).
pub open spec fn deriv_terms(factors: Seq<NodeV>, wrt: Seq<char>, fuel: nat, i: int) -> Option<
    Seq<NodeV>,
>
    decreases fuel, factors, factors.len() - i,
{
    if i < 0 || i >= factors.len() {
        Some(Seq::empty())
    } else {
        match deriv_f(factors[i], wrt, fuel) {
            None => None,
            Some(di) => match deriv_terms(factors, wrt, fuel, i + 1) {
                None => None,
                Some(rest) => Some(
                    seq![NodeV::Times { factors: sort_seq(factors.update(i, di)) }] + rest,
                ),
            },
        }
    }
}

/// The derivative pass as the library runs it: fuelled by the nesting depth,
/// which always suffices.
pub open spec fn spec_deriv(v: NodeV, wrt: Seq<char>) -> Option<NodeV> {
    deriv_f(v, wrt, dd(v) + 1)
}

/// The nesting depth of derivative nodes, as executable code. The depth of a
/// tree held in memory is far below the machine-word bound the contract asks
/// for.
fn depth_of(e: &Expr) -> (r: u64)
    requires
        dd(e@) < 0xFFFF_FFFF_FFFF_FFFFu64,
    ensures
        r as nat == dd(e@),
    decreases e@,
{
    match &*e.node {
        Node::Plus(p) => depth_of_vec(&p.terms),
        Node::Times(t) => depth_of_vec(&t.terms),
        Node::Derivative(d) => {
            proof {
                assert(dd(e@) == 1 + dd(d.expr@));
            }
            1 + depth_of(&d.expr)
        },
        _ => 0,
    }
}

/// A prefix of a sequence nests no deeper than the whole.
proof fn lemma_dd_all_prefix(s: Seq<NodeV>, k: int)
    requires
        0 <= k <= s.len(),
    ensures
        dd_all(s.subrange(0, k)) <= dd_all(s),
    decreases s.len() - k,
{
    if k < s.len() {
        lemma_dd_all_prefix(s, k + 1);
        assert(s.subrange(0, k + 1).subrange(0, k) =~= s.subrange(0, k));
        assert(dd_all(s.subrange(0, k)) <= dd_all(s.subrange(0, k + 1)));
    } else {
        assert(s.subrange(0, k) =~= s);
    }
}

/// The deepest nesting among a list of children.
fn depth_of_vec(v: &Vec<Expr>) -> (r: u64)
    requires
        dd_all(views_of(v@)) < 0xFFFF_FFFF_FFFF_FFFFu64,
    ensures
        r as nat == dd_all(views_of(v@)),
    decreases views_of(v@),
{
    proof {
        lemma_views_of(v@);
    }
    let ghost cs = views_of(v@);
    let mut best: u64 = 0;
    let mut k: usize = 0;
    proof {
        assert(cs.subrange(0, 0) =~= Seq::<NodeV>::empty());
    }
    while k < v.len()
        invariant
            0 <= k <= v@.len(),
            cs == views_of(v@),
            cs.len() == v@.len(),
            forall|i: int| 0 <= i < cs.len() ==> #[trigger] cs[i] == v@[i]@,
            dd_all(cs) < 0xFFFF_FFFF_FFFF_FFFFu64,
            best as nat == dd_all(cs.subrange(0, k as int)),
            best as nat <= dd_all(cs),
        decreases v@.len() - k,
    {
        proof {
            assert(decreases_to!(cs => cs[k as int]));
            lemma_dd_all_prefix(cs, k as int + 1);
            assert(cs.subrange(0, k as int + 1).subrange(0, k as int) =~= cs.subrange(
                0,
                k as int,
            ));
            assert(cs.subrange(0, k as int + 1)[k as int] == cs[k as int]);
        }
        let d = depth_of(&v[k]);
        if d > best {
            best = d;
        }
        k = k + 1;
    }
    proof {
        assert(cs.subrange(0, k as int) =~= cs);
    }
    best
}

/// One step of the fuelled derivative, as executable code.
fn deriv_exec(e: &Expr, wrt: &Symbol, fuel: u64) -> (r: Option<Expr>)
    requires
        e.wf(),
    ensures
        (r is Some <==> deriv_f(e@, wrt@, fuel as nat) is Some),
        (match r {
            Some(x) => deriv_f(e@, wrt@, fuel as nat) == Some(x@) && x.wf(),
            None => true,
        }),
    decreases fuel, e@, 0int,
{
    match &*e.node {
        Node::Undefined(_) => None,
        Node::Number(_) => Some(Expr::zero()),
        Node::Symbol(s) => {
            if wrt.same_name(s) {
                Some(Expr::one())
            } else {
                Some(Expr::zero())
            }
        },
        Node::Plus(p) => {
            match deriv_vec(&p.terms, wrt, fuel) {
                None => None,
                Some(ds) => {
                    proof {
                        lemma_wf_all(ds@);
                    }
                    let sum = Plus::new(ds);
                    proof {
                        crate::order::lemma_wf_all_multiset(ds@, sum.terms@);
                        lemma_wf_all(sum.terms@);
                    }
                    Some(Expr::new(Node::Plus(sum)))
                },
            }
        },
        Node::Times(t) => {
            match deriv_product(&t.terms, wrt, fuel) {
                None => None,
                Some(ts) => {
                    proof {
                        lemma_wf_all(ts@);
                    }
                    let sum = Plus::new(ts);
                    proof {
                        crate::order::lemma_wf_all_multiset(ts@, sum.terms@);
                        lemma_wf_all(sum.terms@);
                    }
                    Some(Expr::new(Node::Plus(sum)))
                },
            }
        },
        Node::Derivative(d) => {
            if fuel == 0 {
                None
            } else {
                match deriv_exec(&d.expr, &d.wrt, fuel) {
                    None => None,
                    Some(v1) => deriv_exec(&v1, wrt, fuel - 1),
                }
            }
        },
    }
}

/// The derivatives of a sum's terms, in order; `None` aborts.
#[verifier::loop_isolation(false)]
fn deriv_vec(v: &Vec<Expr>, wrt: &Symbol, fuel: u64) -> (r: Option<Vec<Expr>>)
    requires
        crate::expr::wf_all(v@),
    ensures
        (match r {
            Some(ds) => deriv_seq(views_of(v@), wrt@, fuel as nat) == Some(views_of(ds@))
                && crate::expr::wf_all(ds@),
            None => deriv_seq(views_of(v@), wrt@, fuel as nat) is None,
        }),
    decreases fuel, views_of(v@), 1int,
{
    proof {
        lemma_views_of(v@);
        lemma_wf_all(v@);
    }
    let ghost cs = views_of(v@);
    let mut out: Vec<Expr> = Vec::new();
    let mut k: usize = 0;
    proof {
        assert(cs.subrange(0, cs.len() as int) =~= cs);
        assert(views_of(out@) =~= Seq::<NodeV>::empty());
        match deriv_seq(cs, wrt@, fuel as nat) {
            Some(rest) => {
                assert(views_of(out@) + rest =~= rest);
            },
            None => {},
        }
    }
    while k < v.len()
        invariant
            0 <= k <= v@.len(),
            forall|i: int| 0 <= i < out@.len() ==> (*#[trigger] out@[i].node).wf(),
            deriv_seq(cs, wrt@, fuel as nat) == (match deriv_seq(
                cs.subrange(k as int, cs.len() as int),
                wrt@,
                fuel as nat,
            ) {
                None => None::<Seq<NodeV>>,
                Some(rest) => Some(views_of(out@) + rest),
            }),
        decreases v@.len() - k,
    {
        let ghost rest = cs.subrange(k as int, cs.len() as int);
        let ghost tail = cs.subrange(k as int + 1, cs.len() as int);
        proof {
            assert(rest[0] == cs[k as int]);
            assert(rest.subrange(1, rest.len() as int) =~= tail);
            assert(decreases_to!(cs => cs[k as int]));
        }
        match deriv_exec(&v[k], wrt, fuel) {
            None => {
                return None;
            },
            Some(dk) => {
                proof {
                    crate::plus::lemma_views_seq_push(out@, dk);
                    match deriv_seq(tail, wrt@, fuel as nat) {
                        Some(rest2) => {
                            assert(views_of(out@) + (seq![dk@] + rest2) =~= views_of(
                                out@,
                            ).push(dk@) + rest2);
                        },
                        None => {},
                    }
                }
                out.push(dk);
            },
        }
        k = k + 1;
    }
    proof {
        assert(cs.subrange(k as int, cs.len() as int) =~= Seq::<NodeV>::empty());
        match deriv_seq(Seq::<NodeV>::empty(), wrt@, fuel as nat) {
            Some(rest) => {
                assert(views_of(out@) + rest =~= views_of(out@));
            },
            None => {},
        }
        lemma_wf_all(out@);
    }
    Some(out)
}

/// The product-rule terms, one per factor; `None` aborts.
#[verifier::loop_isolation(false)]
fn deriv_product(v: &Vec<Expr>, wrt: &Symbol, fuel: u64) -> (r: Option<Vec<Expr>>)
    requires
        crate::expr::wf_all(v@),
    ensures
        (match r {
            Some(ts) => deriv_terms(views_of(v@), wrt@, fuel as nat, 0) == Some(views_of(ts@))
                && crate::expr::wf_all(ts@),
            None => deriv_terms(views_of(v@), wrt@, fuel as nat, 0) is None,
        }),
    decreases fuel, views_of(v@), 1int,
{
    proof {
        lemma_views_of(v@);
        lemma_wf_all(v@);
    }
    let ghost cs = views_of(v@);
    let mut out: Vec<Expr> = Vec::new();
    let mut i: usize = 0;
    proof {
        assert(views_of(out@) =~= Seq::<NodeV>::empty());
        match deriv_terms(cs, wrt@, fuel as nat, 0) {
            Some(rest) => {
                assert(views_of(out@) + rest =~= rest);
            },
            None => {},
        }
    }
    while i < v.len()
        invariant
            0 <= i <= v@.len(),
            forall|k: int| 0 <= k < out@.len() ==> (*#[trigger] out@[k].node).wf(),
            deriv_terms(cs, wrt@, fuel as nat, 0) == (match deriv_terms(
                cs,
                wrt@,
                fuel as nat,
                i as int,
            ) {
                None => None::<Seq<NodeV>>,
                Some(rest) => Some(views_of(out@) + rest),
            }),
        decreases v@.len() - i,
    {
        proof {
            assert(decreases_to!(cs => cs[i as int]));
        }
        let di = match deriv_exec(&v[i], wrt, fuel) {
            None => {
                return None;
            },
            Some(di) => di,
        };
        // the product with factor i replaced by its derivative
        let mut factors: Vec<Expr> = Vec::new();
        let mut j: usize = 0;
        while j < v.len()
            invariant
                0 <= j <= v@.len(),
                factors@ == v@.update(i as int, di).subrange(0, j as int),
            decreases v@.len() - j,
        {
            proof {
                assert(v@.update(i as int, di).subrange(0, j as int).push(
                    v@.update(i as int, di)[j as int],
                ) =~= v@.update(i as int, di).subrange(0, j as int + 1));
            }
            if j == i {
                factors.push(di.clone());
            } else {
                factors.push(v[j].clone());
            }
            j = j + 1;
        }
        let ghost fsnap = factors@;
        proof {
            assert(fsnap =~= v@.update(i as int, di));
            lemma_views_of(fsnap);
            assert(views_of(fsnap) =~= cs.update(i as int, di@));
            lemma_wf_all(fsnap);
            assert forall|k: int| 0 <= k < fsnap.len() implies (*#[trigger] fsnap[k].node).wf()
                by {
                if k != i {
                    assert(fsnap[k] == v@[k]);
                }
            }
        }
        let prod = Times::new(factors);
        proof {
            crate::order::lemma_wf_all_multiset(fsnap, prod.terms@);
            lemma_wf_all(prod.terms@);
        }
        let term = Expr::new(Node::Times(prod));
        proof {
            crate::plus::lemma_views_seq_push(out@, term);
            match deriv_terms(cs, wrt@, fuel as nat, i as int + 1) {
                Some(rest2) => {
                    assert(views_of(out@) + (seq![term@] + rest2) =~= views_of(out@).push(term@)
                        + rest2);
                },
                None => {},
            }
        }
        out.push(term);
        i = i + 1;
    }
    proof {
        match deriv_terms(cs, wrt@, fuel as nat, i as int) {
            Some(rest) => {
                assert(views_of(out@) + rest =~= views_of(out@));
            },
            None => {},
        }
        lemma_wf_all(out@);
    }
    Some(out)
}

impl Derivative {
    /// The symbol of differentiation.
    pub fn wrt(&self) -> (r: &Symbol)
        ensures
            r == &self.wrt,
    {
        &self.wrt
    }

    /// The expression being differentiated.
    pub fn expr(&self) -> (r: &Expr)
        ensures
            r == &self.expr,
    {
        &self.expr
    }

    /// Evaluates the derivative: the structural derivative of the wrapped
    /// expression with respect to the symbol, unevaluated derivatives inside
    /// being evaluated layer by layer. `None` exactly when an undefined part
    /// is reached. The depth bound is a machine limit: a tree held in memory
    /// cannot nest that deep.
    pub fn eval(&self) -> (r: Option<Expr>)
        requires
            self.expr.wf(),
            dd(self.expr@) < 0xFFFF_FFFF_FFFF_FFFFu64,
        ensures
            (r is Some <==> spec_deriv(self.expr@, self.wrt@) is Some),
            (match r {
                Some(x) => spec_deriv(self.expr@, self.wrt@) == Some(x@) && x.wf(),
                None => true,
            }),
    {
        let fuel = depth_of(&self.expr) + 1;
        deriv_exec(&self.expr, &self.wrt, fuel)
    }
}

} // verus!
