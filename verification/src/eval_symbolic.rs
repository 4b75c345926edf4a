use vstd::prelude::*;

use crate::canonicalize::{canonicalize, full_canon};
use crate::derivative::{dd, dd_all, lemma_dd_all, spec_deriv};
use crate::expr::{lemma_views_of, lemma_wf_all, views_of, Expr, Node, NodeV};
use crate::order::sort_seq;
use crate::plus::Plus;
use crate::times::Times;

verus! {

/// Evaluates every derivative node reachable in the tree, recursively; the
/// rest of the structure is rebuilt unchanged (compound nodes sort their
/// children on construction). `None` aborts on an undefined part.
pub open spec fn sym_eval(v: NodeV) -> Option<NodeV>
    decreases v, 0int,
{
    match v {
        NodeV::Undef => None,
        NodeV::Num { .. } => Some(v),
        NodeV::Sym { .. } => Some(v),
        NodeV::Plus { terms } => match sym_eval_seq(terms) {
            None => None,
            Some(rs) => Some(NodeV::Plus { terms: sort_seq(rs) }),
        },
        NodeV::Times { factors } => match sym_eval_seq(factors) {
            None => None,
            Some(rs) => Some(NodeV::Times { factors: sort_seq(rs) }),
        },
        NodeV::Deriv { wrt, inner } => spec_deriv(*inner, wrt),
    }
}

/// Symbolic evaluation of each element of a child list, in order.
pub open spec fn sym_eval_seq(s: Seq<NodeV>) -> Option<Seq<NodeV>>
    decreases s, 1int,
{
    if s.len() == 0 {
        Some(Seq::empty())
    } else {
        match sym_eval(s[0]) {
            None => None,
            Some(r0) => match sym_eval_seq(s.subrange(1, s.len() as int)) {
                None => None,
                Some(rest) => Some(seq![r0] + rest),
            },
        }
    }
}

/// What `symbolic_eval` returns: every derivative evaluated, then the whole
/// tree canonicalized; the undefined sentinel when either pass aborted.
pub open spec fn spec_symbolic_eval(v: NodeV) -> NodeV {
    match sym_eval(v) {
        None => NodeV::Undef,
        Some(r) => full_canon(r),
    }
}

/// Differentiates every derivative node in the tree, then canonicalizes the
/// result. The depth bound is a machine limit: a tree held in memory cannot
/// nest derivatives that deep.
pub fn symbolic_eval(expr: Expr) -> (r: Expr)
    requires
        expr.wf(),
        dd(expr@) < 0xFFFF_FFFF_FFFF_FFFFu64,
    ensures
        r@ == spec_symbolic_eval(expr@),
        r.wf(),
{
    match sym_eval_exec(&expr) {
        None => Expr::undefined(),
        Some(x) => canonicalize(x),
    }
}

/// The evaluation pass over one node; `None` aborts.
fn sym_eval_exec(e: &Expr) -> (r: Option<Expr>)
    requires
        e.wf(),
        dd(e@) < 0xFFFF_FFFF_FFFF_FFFFu64,
    ensures
        (r is Some <==> sym_eval(e@) is Some),
        (match r {
            Some(x) => sym_eval(e@) == Some(x@) && x.wf(),
            None => true,
        }),
    decreases e@, 1int,
{
    match &*e.node {
        Node::Undefined(_) => None,
        Node::Number(_) => Some(e.clone()),
        Node::Symbol(_) => Some(e.clone()),
        Node::Plus(p) => {
            match sym_eval_vec(&p.terms, Ghost(e@)) {
                None => None,
                Some(rs) => {
                    let ghost rsnap = rs@;
                    proof {
                        lemma_wf_all(rsnap);
                    }
                    let sum = Plus::new(rs);
                    proof {
                        crate::order::lemma_wf_all_multiset(rsnap, sum.terms@);
                        lemma_wf_all(sum.terms@);
                    }
                    Some(Expr::new(Node::Plus(sum)))
                },
            }
        },
        Node::Times(t) => {
            match sym_eval_vec(&t.terms, Ghost(e@)) {
                None => None,
                Some(rs) => {
                    let ghost rsnap = rs@;
                    proof {
                        lemma_wf_all(rsnap);
                    }
                    let prod = Times::new(rs);
                    proof {
                        crate::order::lemma_wf_all_multiset(rsnap, prod.terms@);
                        lemma_wf_all(prod.terms@);
                    }
                    Some(Expr::new(Node::Times(prod)))
                },
            }
        },
        Node::Derivative(d) => d.eval(),
    }
}

/// Symbolic evaluation of each child, in order; `None` aborts.
#[verifier::loop_isolation(false)]
fn sym_eval_vec(v: &Vec<Expr>, parent: Ghost<NodeV>) -> (r: Option<Vec<Expr>>)
    requires
        crate::expr::wf_all(v@),
        dd_all(views_of(v@)) < 0xFFFF_FFFF_FFFF_FFFFu64,
        forall|i: int|
            0 <= i < views_of(v@).len() ==> decreases_to!(parent@ => #[trigger] views_of(v@)[i]),
    ensures
        (match r {
            Some(rs) => sym_eval_seq(views_of(v@)) == Some(views_of(rs@)) && crate::expr::wf_all(
                rs@,
            ),
            None => sym_eval_seq(views_of(v@)) is None,
        }),
    decreases parent@, 0int,
{
    proof {
        lemma_views_of(v@);
        lemma_wf_all(v@);
        broadcast use lemma_dd_all;

    }
    let ghost cs = views_of(v@);
    let mut out: Vec<Expr> = Vec::new();
    let mut k: usize = 0;
    proof {
        assert(cs.subrange(0, cs.len() as int) =~= cs);
        assert(views_of(out@) =~= Seq::<NodeV>::empty());
        match sym_eval_seq(cs) {
            Some(rest) => {
                assert(views_of(out@) + rest =~= rest);
            },
            None => {},
        }
    }
    while k < v.len()
        invariant
            0 <= k <= v@.len(),
            forall|i: int| 0 <= i < out@.len() ==> (*#[trigger] out@[i].node).wf(),
            sym_eval_seq(cs) == (match sym_eval_seq(cs.subrange(k as int, cs.len() as int)) {
                None => None::<Seq<NodeV>>,
                Some(rest) => Some(views_of(out@) + rest),
            }),
        decreases v@.len() - k,
    {
        let ghost rest = cs.subrange(k as int, cs.len() as int);
        let ghost tail = cs.subrange(k as int + 1, cs.len() as int);
        proof {
            assert(rest[0] == cs[k as int]);
            assert(rest.subrange(1, rest.len() as int) =~= tail);
            assert(dd(cs[k as int]) <= dd_all(cs));
        }
        match sym_eval_exec(&v[k]) {
            None => {
                return None;
            },
            Some(rk) => {
                proof {
                    crate::plus::lemma_views_seq_push(out@, rk);
                    match sym_eval_seq(tail) {
                        Some(rest2) => {
                            assert(views_of(out@) + (seq![rk@] + rest2) =~= views_of(out@).push(
                                rk@,
                            ) + rest2);
                        },
                        None => {},
                    }
                }
                out.push(rk);
            },
        }
        k = k + 1;
    }
    proof {
        assert(cs.subrange(k as int, cs.len() as int) =~= Seq::<NodeV>::empty());
        match sym_eval_seq(Seq::<NodeV>::empty()) {
            Some(rest) => {
                assert(views_of(out@) + rest =~= views_of(out@));
            },
            None => {},
        }
        lemma_wf_all(out@);
    }
    Some(out)
}

} // verus!
