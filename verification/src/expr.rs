use vstd::prelude::*;

use crate::derivative::Derivative;
use crate::number::{Number, NumV};
use crate::plus::Plus;
use crate::symbol::Symbol;
use crate::times::Times;
use crate::undefined::Undefined;

verus! {

/// Mathematical model of an expression tree.
pub enum NodeV {
    Num { value: NumV },
    Sym { name: Seq<char> },
    Plus { terms: Seq<NodeV> },
    Times { factors: Seq<NodeV> },
    Deriv { wrt: Seq<char>, inner: Box<NodeV> },
    Undef,
}

/// An expression node: the closed set of variants.
pub enum Node {
    Number(Number),
    Symbol(Symbol),
    Plus(Plus),
    Times(Times),
    Derivative(Derivative),
    Undefined(Undefined),
}

/// A shared, reference-counted handle to an immutable node. Cloning a handle
/// aliases the node in constant time; `make_mut` gives exclusive access,
/// cloning the node first when it is aliased (copy on write).
pub struct Expr {
    pub node: std::sync::Arc<Node>,
}

impl Node {
    /// The tree this node heads, as a mathematical value.
    pub open spec fn view_rec(self) -> NodeV
        decreases self,
    {
        match self {
            Node::Number(n) => NodeV::Num { value: n@ },
            Node::Symbol(s) => NodeV::Sym { name: s@ },
            Node::Plus(p) => NodeV::Plus { terms: views_of(p.terms@) },
            Node::Times(t) => NodeV::Times { factors: views_of(t.terms@) },
            Node::Derivative(d) => NodeV::Deriv {
                wrt: d.wrt@,
                inner: Box::new((*d.expr.node).view_rec()),
            },
            Node::Undefined(_) => NodeV::Undef,
        }
    }

    /// Representation invariant of the whole tree: every number is
    /// well-formed (integers carry no leading zero digit, rationals are
    /// reduced with a positive denominator).
    pub open spec fn wf(self) -> bool
        decreases self,
    {
        match self {
            Node::Number(n) => n.wf(),
            Node::Symbol(_) => true,
            Node::Plus(p) => wf_all(p.terms@),
            Node::Times(t) => wf_all(t.terms@),
            Node::Derivative(d) => (*d.expr.node).wf(),
            Node::Undefined(_) => true,
        }
    }
}

/// The views of a sequence of handles, in order.
pub open spec fn views_of(s: Seq<Expr>) -> Seq<NodeV>
    decreases s,
{
    if s.len() == 0 {
        Seq::empty()
    } else {
        views_of(s.subrange(0, s.len() - 1)).push((*s[s.len() - 1].node).view_rec())
    }
}

/// All handles in the sequence head well-formed trees.
pub open spec fn wf_all(s: Seq<Expr>) -> bool
    decreases s,
{
    if s.len() == 0 {
        true
    } else {
        wf_all(s.subrange(0, s.len() - 1)) && (*s[s.len() - 1].node).wf()
    }
}

/// `views_of` maps each handle to its view.
pub broadcast proof fn lemma_views_of(s: Seq<Expr>)
    ensures
        (#[trigger] views_of(s)).len() == s.len(),
        forall|i: int| 0 <= i < s.len() ==> views_of(s)[i] == s[i]@,
    decreases s.len(),
{
    if s.len() > 0 {
        lemma_views_of(s.subrange(0, s.len() - 1));
    }
}

/// `wf_all` holds exactly when each handle heads a well-formed tree.
pub broadcast proof fn lemma_wf_all(s: Seq<Expr>)
    ensures
        #[trigger] wf_all(s) <==> (forall|i: int| 0 <= i < s.len() ==> (*#[trigger] s[i].node).wf()),
    decreases s.len(),
{
    if s.len() > 0 {
        let head = s.subrange(0, s.len() - 1);
        lemma_wf_all(head);
        assert(forall|i: int| 0 <= i < s.len() - 1 ==> #[trigger] s[i] == head[i]);
        if forall|i: int| 0 <= i < s.len() ==> (*#[trigger] s[i].node).wf() {
            assert forall|i: int| 0 <= i < head.len() implies (*#[trigger] head[i].node).wf() by {
                assert(head[i] == s[i]);
            }
        }
        if wf_all(s) {
            assert forall|i: int| 0 <= i < s.len() implies (*#[trigger] s[i].node).wf() by {
                if i < s.len() - 1 {
                    assert((*head[i].node).wf());
                }
            }
        }
    }
}

impl View for Expr {
    type V = NodeV;

    open spec fn view(&self) -> NodeV {
        (*self.node).view_rec()
    }
}

impl Expr {
    pub open spec fn wf(&self) -> bool {
        (*self.node).wf()
    }
}

/// Relies on `Arc::clone`: returns an aliasing handle to the same node.
#[verifier::external_body]
fn arc_clone(a: &std::sync::Arc<Node>) -> (r: std::sync::Arc<Node>)
    ensures
        r == *a,
{
    std::sync::Arc::clone(a)
}

/// Relies on `Arc::make_mut`: when the handle is aliased it first replaces it
/// with a fresh allocation holding a clone of the node (through `Node::clone`,
/// which preserves the node's value), then yields exclusive mutable access;
/// other aliases keep observing the original node.
#[verifier::external_body]
fn arc_make_mut(a: &mut std::sync::Arc<Node>) -> (r: &mut Node)
    ensures
        (*r).view_rec() == (**old(a)).view_rec(),
        (*r).wf() == (**old(a)).wf(),
        **final(a) == *final(r),
{
    std::sync::Arc::make_mut(a)
}

impl Clone for Expr {
    /// An aliasing handle to the same node, in constant time.
    fn clone(&self) -> (r: Self)
        ensures
            r == *self,
    {
        Expr { node: arc_clone(&self.node) }
    }
}

/// Clones a sequence of handles; the copies alias the same nodes.
pub(crate) fn clone_exprs(v: &Vec<Expr>) -> (r: Vec<Expr>)
    ensures
        r@ == v@,
{
    let mut out: Vec<Expr> = Vec::new();
    for k in 0..v.len()
        invariant
            out@ == v@.take(k as int),
    {
        out.push(v[k].clone());
    }
    proof {
        assert(out@ =~= v@);
    }
    out
}

impl Clone for Node {
    /// A copy with the same value; child handles are aliased, not copied.
    fn clone(&self) -> (r: Self)
        ensures
            r.view_rec() == self.view_rec(),
            r.wf() == self.wf(),
    {
        match self {
            Node::Number(n) => Node::Number(n.clone()),
            Node::Symbol(s) => Node::Symbol(s.clone()),
            Node::Plus(p) => {
                let r = Node::Plus(Plus { terms: clone_exprs(&p.terms) });
                proof {
                    assert(r.view_rec() == self.view_rec());
                }
                r
            },
            Node::Times(t) => {
                let r = Node::Times(Times { terms: clone_exprs(&t.terms) });
                proof {
                    assert(r.view_rec() == self.view_rec());
                }
                r
            },
            Node::Derivative(d) => Node::Derivative(Derivative {
                wrt: d.wrt.clone(),
                expr: d.expr.clone(),
            }),
            Node::Undefined(_) => Node::Undefined(Undefined),
        }
    }
}

impl Expr {
    /// A fresh handle owning the given node.
    pub fn new(node: Node) -> (r: Self)
        ensures
            r@ == node.view_rec(),
            r.wf() == node.wf(),
    {
        Expr { node: std::sync::Arc::new(node) }
    }

    /// Exclusive mutable access to the node: when the handle is aliased the
    /// node is cloned first, so no other alias ever observes the mutation.
    pub fn make_mut(&mut self) -> (r: &mut Node)
        ensures
            (*r).view_rec() == old(self)@,
            (*r).wf() == old(self).wf(),
            final(self)@ == final(r).view_rec(),
            final(self).wf() == final(r).wf(),
    {
        arc_make_mut(&mut self.node)
    }

    /// The undefined sentinel.
    pub fn undefined() -> (r: Self)
        ensures
            r@ == NodeV::Undef,
            r.wf(),
    {
        Expr::new(Node::Undefined(Undefined))
    }

    /// A numeric leaf.
    pub fn number(n: Number) -> (r: Self)
        requires
            n.wf(),
        ensures
            r@ == (NodeV::Num { value: n@ }),
            r.wf(),
    {
        Expr::new(Node::Number(n))
    }

    /// The additive identity.
    pub fn zero() -> (r: Self)
        ensures
            r@ == (NodeV::Num { value: NumV::Integer { i: 0 } }),
            r.wf(),
    {
        Expr::number(Number::Integer(crate::big::BigInteger::zero()))
    }

    /// The multiplicative identity.
    pub fn one() -> (r: Self)
        ensures
            r@ == (NodeV::Num { value: NumV::Integer { i: 1 } }),
            r.wf(),
    {
        Expr::number(Number::Integer(crate::big::BigInteger::from_i64(1)))
    }

    /// Minus one.
    pub fn minus_one() -> (r: Self)
        ensures
            r@ == (NodeV::Num { value: NumV::Integer { i: -1 } }),
            r.wf(),
    {
        Expr::number(Number::Integer(crate::big::BigInteger::from_i64(-1)))
    }

    /// A signed infinity.
    pub fn infinity(sign: crate::number::Sign) -> (r: Self)
        ensures
            r@ == (NodeV::Num { value: NumV::Infinity { sign } }),
            r.wf(),
    {
        Expr::number(Number::Infinity(sign))
    }

    /// An integer leaf from a signed machine word.
    pub fn from_i64(n: i64) -> (r: Self)
        ensures
            r@ == (NodeV::Num { value: NumV::Integer { i: n as int } }),
            r.wf(),
    {
        Expr::number(Number::Integer(crate::big::BigInteger::from_i64(n)))
    }

    /// An integer leaf from an unsigned machine word.
    pub fn from_u64(n: u64) -> (r: Self)
        ensures
            r@ == (NodeV::Num { value: NumV::Integer { i: n as int } }),
            r.wf(),
    {
        Expr::number(Number::Integer(crate::big::BigInteger::from_u64(n)))
    }

    /// A rational leaf from big-integer parts, reduced to lowest terms; the
    /// undefined sentinel when the denominator is zero.
    pub fn rational_big(n: crate::big::BigInteger, d: crate::big::BigInteger) -> (r: Self)
        ensures
            r.wf(),
            d@ == 0 ==> r@ == NodeV::Undef,
            d@ > 0 ==> r@ == (NodeV::Num {
                value: NumV::Rational {
                    n: crate::number::reduce_frac(n@, d@).0,
                    d: crate::number::reduce_frac(n@, d@).1,
                },
            }),
            d@ < 0 ==> r@ == (NodeV::Num {
                value: NumV::Rational {
                    n: crate::number::reduce_frac(-n@, -d@).0,
                    d: crate::number::reduce_frac(-n@, -d@).1,
                },
            }),
    {
        match Number::rational(n, d) {
            Some(q) => Expr::number(q),
            None => Expr::undefined(),
        }
    }

    /// A rational leaf from machine-word parts.
    pub fn rational_i64(n: i64, d: i64) -> (r: Self)
        ensures
            r.wf(),
            d == 0 ==> r@ == NodeV::Undef,
            d > 0 ==> r@ == (NodeV::Num {
                value: NumV::Rational {
                    n: crate::number::reduce_frac(n as int, d as int).0,
                    d: crate::number::reduce_frac(n as int, d as int).1,
                },
            }),
            d < 0 ==> r@ == (NodeV::Num {
                value: NumV::Rational {
                    n: crate::number::reduce_frac(-(n as int), -(d as int)).0,
                    d: crate::number::reduce_frac(-(n as int), -(d as int)).1,
                },
            }),
    {
        Expr::rational_big(
            crate::big::BigInteger::from_i64(n),
            crate::big::BigInteger::from_i64(d),
        )
    }

    /// A symbol leaf.
    pub fn symbol(s: Symbol) -> (r: Self)
        ensures
            r@ == (NodeV::Sym { name: s@ }),
            r.wf(),
    {
        Expr::new(Node::Symbol(s))
    }
}

} // verus!
