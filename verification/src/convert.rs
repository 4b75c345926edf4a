use vstd::prelude::*;
use vstd::string::StringExecFns;

use crate::big::BigInteger;
use crate::expr::{lemma_views_of, views_of, Expr, Node, NodeV};
use crate::number::{NumV, Sign};

verus! {

/// The decimal digits of a positive value, most significant first.
pub open spec fn dec_digits(n: nat) -> Seq<char>
    decreases n,
{
    if n == 0 {
        Seq::empty()
    } else {
        dec_digits(n / 10).push(digit_char(n % 10))
    }
}

pub open spec fn digit_char(d: nat) -> char {
    if d == 0 {
        '0'
    } else if d == 1 {
        '1'
    } else if d == 2 {
        '2'
    } else if d == 3 {
        '3'
    } else if d == 4 {
        '4'
    } else if d == 5 {
        '5'
    } else if d == 6 {
        '6'
    } else if d == 7 {
        '7'
    } else if d == 8 {
        '8'
    } else {
        '9'
    }
}

/// The decimal rendering of an integer: a minus sign for negative values, no
/// leading zeros, and a lone zero digit for zero.
pub open spec fn dec_str(i: int) -> Seq<char> {
    if i == 0 {
        seq!['0']
    } else if i > 0 {
        dec_digits(i as nat)
    } else {
        seq!['-'] + dec_digits((-i) as nat)
    }
}

/// Relies on `num::BigInt`'s decimal formatting: an optional minus sign, then
/// the digits without leading zeros; zero prints as one zero digit.
#[verifier::external_body]
fn big_to_decimal(b: &BigInteger) -> (r: String)
    ensures
        r@ == dec_str(b@),
{
    let s = if b.neg { num::bigint::Sign::Minus } else { num::bigint::Sign::Plus };
    format!("{}", num::BigInt::from_slice(s, &b.mag))
}

/// The text a number renders to.
pub open spec fn latex_num(v: NumV) -> Seq<char> {
    match v {
        NumV::Integer { i } => dec_str(i),
        NumV::Rational { n, d } => "\\frac{"@ + dec_str(n) + "}{"@ + dec_str(d) + "}"@,
        NumV::Infinity { sign } => if sign == Sign::Plus {
            "+ \\infty"@
        } else {
            "- \\infty"@
        },
    }
}

/// The text a tree renders to, with whether rendering ran to completion: an
/// undefined part stops the whole render where it stands, mirroring the
/// traversal's early-termination signal.
pub open spec fn latex(v: NodeV) -> (Seq<char>, bool)
    decreases v, 0int,
{
    match v {
        NodeV::Num { value } => (latex_num(value), true),
        NodeV::Sym { name } => (name, true),
        NodeV::Plus { terms } => latex_join(terms, " + "@),
        NodeV::Times { factors } => latex_join(factors, " * "@),
        NodeV::Deriv { wrt, inner } => {
            let prefix = "\\frac{d}{d"@ + wrt + "}("@;
            let (t, ok) = latex(*inner);
            if ok {
                (prefix + t + ")"@, true)
            } else {
                (prefix + t, false)
            }
        },
        NodeV::Undef => (Seq::empty(), false),
    }
}

/// Renders children in order with a separator after each one but the last,
/// stopping where a child's rendering stopped.
pub open spec fn latex_join(s: Seq<NodeV>, sep: Seq<char>) -> (Seq<char>, bool)
    decreases s, 1int,
{
    if s.len() == 0 {
        (Seq::empty(), true)
    } else {
        let (t, ok) = latex(s[0]);
        if !ok {
            (t, false)
        } else if s.len() == 1 {
            (t, true)
        } else {
            let (r, ok2) = latex_join(s.subrange(1, s.len() as int), sep);
            (t + sep + r, ok2)
        }
    }
}

/// The LaTeX renderer.
pub struct LaTex {}

impl LaTex {
    /// Renders the expression as LaTeX source. `None` exactly when an
    /// undefined part stopped the render; no partial text is handed out.
    pub fn convert_to_string(expr: &Expr) -> (r: Option<String>)
        ensures
            (r is Some <==> latex(expr@).1),
            (match r {
                Some(s) => s@ == latex(expr@).0,
                None => true,
            }),
    {
        let mut out = String::new();
        if Self::render(expr, &mut out) {
            Some(out)
        } else {
            None
        }
    }

    /// Appends the rendering of one node; reports whether it completed.
    fn render(expr: &Expr, out: &mut String) -> (ok: bool)
        ensures
            final(out)@ == old(out)@ + latex(expr@).0,
            ok == latex(expr@).1,
        decreases expr@, 1int,
    {
        match &*expr.node {
            Node::Number(n) => {
                match n {
                    crate::number::Number::Integer(i) => {
                        let d = big_to_decimal(i);
                        out.append(d.as_str());
                    },
                    crate::number::Number::Rational(q) => {
                        let dn = big_to_decimal(&q.numer);
                        let dd = big_to_decimal(&q.denom);
                        out.append("\\frac{");
                        out.append(dn.as_str());
                        out.append("}{");
                        out.append(dd.as_str());
                        out.append("}");
                    },
                    crate::number::Number::Infinity(sign) => {
                        match sign {
                            Sign::Plus => out.append("+ \\infty"),
                            Sign::Minus => out.append("- \\infty"),
                        }
                    },
                }
                true
            },
            Node::Symbol(s) => {
                out.append(s.as_str());
                true
            },
            Node::Plus(p) => {
                proof {
                    lemma_decreases_children(expr@, views_of(p.terms@));
                }
                Self::render_join(&p.terms, " + ", out, Ghost(expr@))
            },
            Node::Times(t) => {
                proof {
                    lemma_decreases_children(expr@, views_of(t.terms@));
                }
                Self::render_join(&t.terms, " * ", out, Ghost(expr@))
            },
            Node::Derivative(d) => {
                out.append("\\frac{d}{d");
                out.append(d.wrt.as_str());
                out.append("}(");
                proof {
                    assert(decreases_to!(expr@ => expr@->inner));
                }
                let ok = Self::render(&d.expr, out);
                if ok {
                    out.append(")");
                }
                ok
            },
            Node::Undefined(_) => false,
        }
    }

    /// Appends the renderings of the children, separated; reports whether all
    /// of them completed.
    #[verifier::loop_isolation(false)]
    fn render_join(v: &Vec<Expr>, sep: &str, out: &mut String, parent: Ghost<NodeV>) -> (ok: bool)
        requires
            forall|i: int|
                0 <= i < views_of(v@).len() ==> decreases_to!(
                parent@ => #[trigger] views_of(v@)[i]),
        ensures
            final(out)@ == old(out)@ + latex_join(views_of(v@), sep@).0,
            ok == latex_join(views_of(v@), sep@).1,
        decreases parent@, 0int,
    {
        proof {
            lemma_views_of(v@);
        }
        let ghost cs = views_of(v@);
        let ghost sepv = sep@;
        let mut k: usize = 0;
        proof {
            assert(cs.subrange(0, cs.len() as int) =~= cs);
            assert(old(out)@ + Seq::<char>::empty() =~= old(out)@);
        }
        while k < v.len()
            invariant
                0 <= k <= v@.len(),
                (old(out)@ + latex_join(cs, sepv).0, latex_join(cs, sepv).1) == (
                (out@ + latex_join(cs.subrange(k as int, cs.len() as int), sepv).0,
                latex_join(cs.subrange(k as int, cs.len() as int), sepv).1)),
            decreases v@.len() - k,
        {
            let ghost rest = cs.subrange(k as int, cs.len() as int);
            proof {
                assert(rest[0] == cs[k as int]);
                assert(rest.subrange(1, rest.len() as int) =~= cs.subrange(
                    k as int + 1,
                    cs.len() as int,
                ));
            }
            let ok = Self::render(&v[k], out);
            if !ok {
                proof {
                    lemma_join_assoc(old(out)@, out@, rest, sepv);
                }
                return false;
            }
            if k + 1 < v.len() {
                out.append(sep);
            }
            proof {
                lemma_join_assoc(old(out)@, out@, rest, sepv);
            }
            k = k + 1;
        }
        proof {
            assert(cs.subrange(k as int, cs.len() as int) =~= Seq::<NodeV>::empty());
            assert(out@ + Seq::<char>::empty() =~= out@);
        }
        true
    }
}

/// Concatenation of character sequences is associative; this packages the
/// rewrites the join loop needs.
proof fn lemma_join_assoc(base: Seq<char>, cur: Seq<char>, rest: Seq<NodeV>, sep: Seq<char>)
    ensures
        forall|a: Seq<char>, b: Seq<char>| #[trigger] ((cur + a) + b) == cur + (a + b),
        forall|a: Seq<char>, b: Seq<char>, c: Seq<char>| #[trigger] (cur + ((a + b) + c)) == ((cur
            + a) + b) + c,
{
    assert forall|a: Seq<char>, b: Seq<char>| #[trigger] ((cur + a) + b) == cur + (a + b) by {
        assert((cur + a) + b =~= cur + (a + b));
    }
    assert forall|a: Seq<char>, b: Seq<char>, c: Seq<char>| #[trigger] (cur + ((a + b) + c)) == ((
    cur + a) + b) + c by {
        assert(cur + ((a + b) + c) =~= ((cur + a) + b) + c);
    }
}

/// Each child's view stands below the parent's view, for the termination of
/// the renderer.
proof fn lemma_decreases_children(parent: NodeV, cs: Seq<NodeV>)
    requires
        (parent matches NodeV::Plus { terms } && terms == cs) || (parent matches NodeV::Times {
            factors,
        } && factors == cs),
    ensures
        forall|i: int| 0 <= i < cs.len() ==> decreases_to!(parent => #[trigger] cs[i]),
{
    assert forall|i: int| 0 <= i < cs.len() implies decreases_to!(parent => #[trigger] cs[i]) by {
        match parent {
            NodeV::Plus { terms } => {
                assert(decreases_to!(parent => parent->terms));
                assert(decreases_to!(parent->terms => parent->terms[i]));
            },
            NodeV::Times { factors } => {
                assert(decreases_to!(parent => parent->factors));
                assert(decreases_to!(parent->factors => parent->factors[i]));
            },
            _ => {},
        }
    }
}

} // verus!
