use vstd::prelude::*;

use crate::expr::{clone_exprs, lemma_views_of, lemma_wf_all, views_of, Expr, Node, NodeV};
use crate::number::{num_mul, NumV};
use crate::order::{lemma_wf_all_multiset, sort_exprs, sort_seq};
use crate::plus::{lemma_views_seq_concat, lemma_views_seq_push, lemma_wf_concat, lemma_wf_push};

verus! {

/// A product node: an ordered sequence of factors, kept sorted by the node
/// order.
pub struct Times {
    pub terms: Vec<Expr>,
}

impl Times {
    /// A product of the given factors; they are sorted on construction.
    pub fn new(terms: Vec<Expr>) -> (r: Times)
        ensures
            views_of(r.terms@) == sort_seq(views_of(terms@)),
            r.terms@.to_multiset() == terms@.to_multiset(),
    {
        Times { terms: sort_exprs(terms) }
    }

    /// Adds factors to the product; the result is sorted again.
    pub fn extend(&mut self, new: Vec<Expr>)
        ensures
            views_of(final(self).terms@) == sort_seq(views_of(old(self).terms@ + new@)),
            final(self).terms@.to_multiset() == (old(self).terms@ + new@).to_multiset(),
    {
        let mut moved: Vec<Expr> = Vec::new();
        core::mem::swap(&mut moved, &mut self.terms);
        let mut more = new;
        moved.append(&mut more);
        self.terms = sort_exprs(moved);
    }

    /// The factors, in sorted order.
    pub fn terms(&self) -> (r: &Vec<Expr>)
        ensures
            r == &self.terms,
    {
        &self.terms
    }
}

/// What `times` builds: two products merge into one; a product absorbs any
/// other node as one more factor; two numbers fold by multiplication;
/// anything else becomes a two-factor product. Products sort their factors on
/// construction.
pub open spec fn times_merge(a: NodeV, b: NodeV) -> NodeV {
    match (a, b) {
        (NodeV::Times { factors: t1 }, NodeV::Times { factors: t2 }) => NodeV::Times {
            factors: sort_seq(t1 + t2),
        },
        (NodeV::Times { factors }, _) => NodeV::Times { factors: sort_seq(factors.push(b)) },
        (_, NodeV::Times { factors }) => NodeV::Times { factors: sort_seq(factors.push(a)) },
        (NodeV::Num { value: x }, NodeV::Num { value: y }) => NodeV::Num { value: num_mul(x, y) },
        _ => NodeV::Times { factors: sort_seq(seq![a, b]) },
    }
}

/// Builds the product of two expressions, with the local normalization the
/// constructors perform: merging products and folding numeric pairs.
pub fn times(lhs: &Expr, rhs: &Expr) -> (r: Expr)
    requires
        lhs.wf(),
        rhs.wf(),
    ensures
        r@ == times_merge(lhs@, rhs@),
        r.wf(),
{
    proof {
        broadcast use vstd::seq_lib::group_to_multiset_ensures;
        broadcast use vstd::seq_lib::lemma_multiset_commutative;
    }
    match (&*lhs.node, &*rhs.node) {
        (Node::Times(t1), Node::Times(t2)) => {
            let mut terms = clone_exprs(&t1.terms);
            let mut more = clone_exprs(&t2.terms);
            terms.append(&mut more);
            proof {
                lemma_views_seq_concat(t1.terms@, t2.terms@);
                lemma_wf_concat(t1.terms@, t2.terms@);
            }
            let prod = Times::new(terms);
            proof {
                lemma_wf_all_multiset((t1.terms@ + t2.terms@), prod.terms@);
            }
            Expr::new(Node::Times(prod))
        },
        (Node::Times(t1), _) => {
            let mut terms = clone_exprs(&t1.terms);
            terms.push(rhs.clone());
            proof {
                lemma_views_seq_push(t1.terms@, *rhs);
                lemma_wf_push(t1.terms@, *rhs);
            }
            let prod = Times::new(terms);
            proof {
                lemma_wf_all_multiset(t1.terms@.push(*rhs), prod.terms@);
            }
            Expr::new(Node::Times(prod))
        },
        (_, Node::Times(t2)) => {
            let mut terms = clone_exprs(&t2.terms);
            terms.push(lhs.clone());
            proof {
                lemma_views_seq_push(t2.terms@, *lhs);
                lemma_wf_push(t2.terms@, *lhs);
            }
            let prod = Times::new(terms);
            proof {
                lemma_wf_all_multiset(t2.terms@.push(*lhs), prod.terms@);
            }
            Expr::new(Node::Times(prod))
        },
        (Node::Number(x), Node::Number(y)) => Expr::number(x.mul_num(y)),
        _ => {
            let mut terms: Vec<Expr> = Vec::new();
            terms.push(lhs.clone());
            terms.push(rhs.clone());
            proof {
                assert(views_of(terms@) =~= seq![lhs@, rhs@]) by {
                    lemma_views_of(terms@);
                }
                lemma_wf_all(terms@);
            }
            let prod = Times::new(terms);
            proof {
                lemma_wf_all_multiset(terms@, prod.terms@);
            }
            Expr::new(Node::Times(prod))
        },
    }
}

} // verus!
