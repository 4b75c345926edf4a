use vstd::prelude::*;

use crate::expr::{clone_exprs, lemma_views_of, lemma_wf_all, views_of, Expr, Node, NodeV};
use crate::number::{num_add, NumV};
use crate::order::{lemma_wf_all_multiset, sort_exprs, sort_seq};

verus! {

/// A sum node: an ordered sequence of terms, kept sorted by the node order.
pub struct Plus {
    pub terms: Vec<Expr>,
}

impl Plus {
    /// A sum of the given terms; they are sorted on construction.
    pub fn new(terms: Vec<Expr>) -> (r: Plus)
        ensures
            views_of(r.terms@) == sort_seq(views_of(terms@)),
            r.terms@.to_multiset() == terms@.to_multiset(),
    {
        Plus { terms: sort_exprs(terms) }
    }

    /// Adds terms to the sum; the result is sorted again.
    pub fn extend(&mut self, new: Vec<Expr>)
        ensures
            views_of(final(self).terms@) == sort_seq(views_of(old(self).terms@ + new@)),
            final(self).terms@.to_multiset() == (old(self).terms@ + new@).to_multiset(),
    {
        let mut moved: Vec<Expr> = Vec::new();
        core::mem::swap(&mut moved, &mut self.terms);
        let mut more = new;
        moved.append(&mut more);
        self.terms = sort_exprs(moved);
    }

    /// The terms, in sorted order.
    pub fn terms(&self) -> (r: &Vec<Expr>)
        ensures
            r == &self.terms,
    {
        &self.terms
    }
}

/// What `plus` builds: two sums merge into one; a sum absorbs any other node
/// as one more term; two numbers fold by addition (an indeterminate sum is
/// the undefined sentinel); anything else becomes a two-term sum. Sums sort
/// their terms on construction.
pub open spec fn plus_merge(a: NodeV, b: NodeV) -> NodeV {
    match (a, b) {
        (NodeV::Plus { terms: t1 }, NodeV::Plus { terms: t2 }) => NodeV::Plus {
            terms: sort_seq(t1 + t2),
        },
        (NodeV::Plus { terms }, _) => NodeV::Plus { terms: sort_seq(terms.push(b)) },
        (_, NodeV::Plus { terms }) => NodeV::Plus { terms: sort_seq(terms.push(a)) },
        (NodeV::Num { value: x }, NodeV::Num { value: y }) => match num_add(x, y) {
            Some(v) => NodeV::Num { value: v },
            None => NodeV::Undef,
        },
        _ => NodeV::Plus { terms: sort_seq(seq![a, b]) },
    }
}

/// Builds the sum of two expressions, with the local normalization the
/// constructors perform: merging sums and folding numeric pairs.
pub fn plus(lhs: &Expr, rhs: &Expr) -> (r: Expr)
    requires
        lhs.wf(),
        rhs.wf(),
    ensures
        r@ == plus_merge(lhs@, rhs@),
        r.wf(),
{
    proof {
        broadcast use vstd::seq_lib::group_to_multiset_ensures;
        broadcast use vstd::seq_lib::lemma_multiset_commutative;
    }
    match (&*lhs.node, &*rhs.node) {
        (Node::Plus(p1), Node::Plus(p2)) => {
            let mut terms = clone_exprs(&p1.terms);
            let mut more = clone_exprs(&p2.terms);
            terms.append(&mut more);
            proof {
                lemma_views_seq_concat(p1.terms@, p2.terms@);
                lemma_wf_concat(p1.terms@, p2.terms@);
            }
            let sum = Plus::new(terms);
            proof {
                lemma_wf_all_multiset((p1.terms@ + p2.terms@), sum.terms@);
            }
            Expr::new(Node::Plus(sum))
        },
        (Node::Plus(p1), _) => {
            let mut terms = clone_exprs(&p1.terms);
            terms.push(rhs.clone());
            proof {
                lemma_views_seq_push(p1.terms@, *rhs);
                lemma_wf_push(p1.terms@, *rhs);
            }
            let sum = Plus::new(terms);
            proof {
                lemma_wf_all_multiset(p1.terms@.push(*rhs), sum.terms@);
            }
            Expr::new(Node::Plus(sum))
        },
        (_, Node::Plus(p2)) => {
            let mut terms = clone_exprs(&p2.terms);
            terms.push(lhs.clone());
            proof {
                lemma_views_seq_push(p2.terms@, *lhs);
                lemma_wf_push(p2.terms@, *lhs);
            }
            let sum = Plus::new(terms);
            proof {
                lemma_wf_all_multiset(p2.terms@.push(*lhs), sum.terms@);
            }
            Expr::new(Node::Plus(sum))
        },
        (Node::Number(x), Node::Number(y)) => {
            match x.checked_add(y) {
                Some(v) => Expr::number(v),
                None => Expr::undefined(),
            }
        },
        _ => {
            let mut terms: Vec<Expr> = Vec::new();
            terms.push(lhs.clone());
            terms.push(rhs.clone());
            proof {
                assert(views_of(terms@) =~= seq![lhs@, rhs@]) by {
                    lemma_views_of(terms@);
                }
                lemma_wf_all(terms@);
            }
            let sum = Plus::new(terms);
            proof {
                lemma_wf_all_multiset(terms@, sum.terms@);
            }
            Expr::new(Node::Plus(sum))
        },
    }
}

/// Views distribute over concatenation of handle lists.
pub(crate) proof fn lemma_views_seq_concat(a: Seq<Expr>, b: Seq<Expr>)
    ensures
        views_of(a + b) == views_of(a) + views_of(b),
{
    lemma_views_of(a);
    lemma_views_of(b);
    lemma_views_of(a + b);
    assert(views_of(a + b) =~= views_of(a) + views_of(b));
}

/// Views distribute over appending one handle.
pub(crate) proof fn lemma_views_seq_push(a: Seq<Expr>, x: Expr)
    ensures
        views_of(a.push(x)) == views_of(a).push(x@),
{
    lemma_views_of(a);
    lemma_views_of(a.push(x));
    assert(views_of(a.push(x)) =~= views_of(a).push(x@));
}

/// Well-formedness is preserved by concatenation of handle lists.
pub(crate) proof fn lemma_wf_concat(a: Seq<Expr>, b: Seq<Expr>)
    requires
        crate::expr::wf_all(a),
        crate::expr::wf_all(b),
    ensures
        crate::expr::wf_all(a + b),
{
    lemma_wf_all(a);
    lemma_wf_all(b);
    lemma_wf_all(a + b);
    assert forall|i: int| 0 <= i < (a + b).len() implies (*#[trigger] (a + b)[i].node).wf() by {
        if i < a.len() {
            assert((a + b)[i] == a[i]);
        } else {
            assert((a + b)[i] == b[i - a.len()]);
        }
    }
}

/// Well-formedness is preserved by appending one well-formed handle.
pub(crate) proof fn lemma_wf_push(a: Seq<Expr>, x: Expr)
    requires
        crate::expr::wf_all(a),
        x.wf(),
    ensures
        crate::expr::wf_all(a.push(x)),
{
    lemma_wf_all(a);
    lemma_wf_all(a.push(x));
    assert forall|i: int| 0 <= i < a.push(x).len() implies (*#[trigger] a.push(x)[i].node).wf() by {
        if i < a.len() {
            assert(a.push(x)[i] == a[i]);
        } else {
            assert(a.push(x)[i] == x);
        }
    }
}

} // verus!
