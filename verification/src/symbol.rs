use vstd::prelude::*;
use vstd::string::StrSliceExecFns;

use crate::expr::{Expr, Node, NodeV};

verus! {

/// A named symbol. Symbols with equal names are indistinguishable by equality
/// and by ordering.
pub struct Symbol {
    pub name: String,
}

impl View for Symbol {
    type V = Seq<char>;

    open spec fn view(&self) -> Seq<char> {
        self.name@
    }
}

impl Clone for Symbol {
    fn clone(&self) -> (r: Self)
        ensures
            r@ == self@,
    {
        Symbol { name: self.name.clone() }
    }
}

impl Symbol {
    /// A symbol with the given name.
    pub fn new(s: &str) -> (r: Self)
        ensures
            r@ == s@,
    {
        Symbol { name: s.to_owned() }
    }

    /// The symbol's name.
    pub fn as_str(&self) -> (r: &str)
        ensures
            r@ == self@,
    {
        self.name.as_str()
    }

    /// Name equality.
    pub fn same_name(&self, other: &Symbol) -> (r: bool)
        ensures
            r == (self@ == other@),
    {
        self.name == other.name
    }
}

/// A symbol-leaf expression with the given name.
pub fn sym(s: &str) -> (r: Expr)
    ensures
        r@ == (NodeV::Sym { name: s@ }),
        r.wf(),
{
    Expr::symbol(Symbol::new(s))
}

/// Lexicographic order on character sequences: the first differing character
/// decides; a proper prefix comes first.
pub open spec fn lex_cmp_chars(a: Seq<char>, b: Seq<char>) -> core::cmp::Ordering
    decreases a.len(),
{
    if a.len() == 0 && b.len() == 0 {
        core::cmp::Ordering::Equal
    } else if a.len() == 0 {
        core::cmp::Ordering::Less
    } else if b.len() == 0 {
        core::cmp::Ordering::Greater
    } else if (a[0] as u32) < (b[0] as u32) {
        core::cmp::Ordering::Less
    } else if (a[0] as u32) > (b[0] as u32) {
        core::cmp::Ordering::Greater
    } else {
        lex_cmp_chars(a.skip(1), b.skip(1))
    }
}

/// Sequences that agree on a prefix compare as their remainders do.
proof fn lemma_lex_skip(a: Seq<char>, b: Seq<char>, i: int)
    requires
        0 <= i <= a.len(),
        i <= b.len(),
        forall|j: int| 0 <= j < i ==> a[j] == b[j],
    ensures
        lex_cmp_chars(a, b) == lex_cmp_chars(a.skip(i), b.skip(i)),
    decreases i,
{
    if i == 0 {
        assert(a.skip(0) =~= a);
        assert(b.skip(0) =~= b);
    } else {
        assert(a.len() > 0 && b.len() > 0);
        assert(a[0] == b[0]);
        lemma_lex_skip(a.skip(1), b.skip(1), i - 1);
        assert(a.skip(1).skip(i - 1) =~= a.skip(i));
        assert(b.skip(1).skip(i - 1) =~= b.skip(i));
    }
}

/// Equal comparison means equal sequences.
pub proof fn lemma_lex_equal(a: Seq<char>, b: Seq<char>)
    requires
        lex_cmp_chars(a, b) == core::cmp::Ordering::Equal,
    ensures
        a == b,
    decreases a.len(),
{
    if a.len() == 0 && b.len() == 0 {
        assert(a =~= b);
    } else if a.len() != 0 && b.len() != 0 && a[0] as u32 == b[0] as u32 {
        lemma_lex_equal(a.skip(1), b.skip(1));
        vstd::utf8::char_u32_cast(a[0], a[0] as u32);
        vstd::utf8::char_u32_cast(b[0], b[0] as u32);
        assert(a =~= seq![a[0]] + a.skip(1));
        assert(b =~= seq![b[0]] + b.skip(1));
    }
}

/// Compares two names in the lexicographic order.
pub fn str_compare(a: &str, b: &str) -> (r: core::cmp::Ordering)
    ensures
        r == lex_cmp_chars(a@, b@),
{
    let alen = a.unicode_len();
    let blen = b.unicode_len();
    let mut i: usize = 0;
    loop
        invariant
            0 <= i <= alen,
            i <= blen,
            alen == a@.len(),
            blen == b@.len(),
            forall|j: int| 0 <= j < i ==> a@[j] == b@[j],
        decreases alen - i,
    {
        proof {
            lemma_lex_skip(a@, b@, i as int);
        }
        if i == alen && i == blen {
            return core::cmp::Ordering::Equal;
        }
        if i == alen {
            return core::cmp::Ordering::Less;
        }
        if i == blen {
            return core::cmp::Ordering::Greater;
        }
        let ca = a.get_char(i) as u32;
        let cb = b.get_char(i) as u32;
        if ca < cb {
            return core::cmp::Ordering::Less;
        }
        if ca > cb {
            return core::cmp::Ordering::Greater;
        }
        proof {
            vstd::utf8::char_u32_cast(a@[i as int], ca);
            vstd::utf8::char_u32_cast(b@[i as int], cb);
        }
        i = i + 1;
    }
}

/// The symbol with the given name occurs somewhere in the tree (a
/// derivative's symbol of differentiation counts as an occurrence).
pub open spec fn occurs(v: NodeV, name: Seq<char>) -> bool
    decreases v, 0int,
{
    match v {
        NodeV::Sym { name: n } => n == name,
        NodeV::Plus { terms } => occurs_any(terms, name),
        NodeV::Times { factors } => occurs_any(factors, name),
        NodeV::Deriv { wrt, inner } => wrt == name || occurs(*inner, name),
        _ => false,
    }
}

pub open spec fn occurs_any(s: Seq<NodeV>, name: Seq<char>) -> bool
    decreases s, 1int,
{
    if s.len() == 0 {
        false
    } else {
        occurs(s[0], name) || occurs_any(s.subrange(1, s.len() as int), name)
    }
}

/// Whether the expression depends on the given symbol: a walk that stops at
/// the first occurrence.
pub fn depends_on(expr: &Expr, sym: &Symbol) -> (r: bool)
    ensures
        r == occurs(expr@, sym@),
    decreases expr@, 1int,
{
    match &*expr.node {
        Node::Symbol(s) => s.same_name(sym),
        Node::Plus(p) => {
            proof {
                crate::expr::lemma_views_of(p.terms@);
                assert forall|i: int|
                    0 <= i < crate::expr::views_of(p.terms@).len() implies decreases_to!(
                    expr@ => #[trigger] crate::expr::views_of(p.terms@)[i]) by {
                    assert(decreases_to!(expr@ => expr@->terms));
                    assert(decreases_to!(expr@->terms => expr@->terms[i]));
                }
            }
            depends_on_any(&p.terms, sym, Ghost(expr@))
        },
        Node::Times(t) => {
            proof {
                crate::expr::lemma_views_of(t.terms@);
                assert forall|i: int|
                    0 <= i < crate::expr::views_of(t.terms@).len() implies decreases_to!(
                    expr@ => #[trigger] crate::expr::views_of(t.terms@)[i]) by {
                    assert(decreases_to!(expr@ => expr@->factors));
                    assert(decreases_to!(expr@->factors => expr@->factors[i]));
                }
            }
            depends_on_any(&t.terms, sym, Ghost(expr@))
        },
        Node::Derivative(d) => {
            if d.wrt.same_name(sym) {
                true
            } else {
                proof {
                    assert(decreases_to!(expr@ => expr@->inner));
                }
                depends_on(&d.expr, sym)
            }
        },
        _ => false,
    }
}

/// Whether any child depends on the symbol, stopping at the first that does.
#[verifier::loop_isolation(false)]
fn depends_on_any(v: &Vec<Expr>, sym: &Symbol, parent: Ghost<NodeV>) -> (r: bool)
    requires
        forall|i: int|
            0 <= i < crate::expr::views_of(v@).len() ==> decreases_to!(
                parent@ => #[trigger] crate::expr::views_of(v@)[i]),
    ensures
        r == occurs_any(crate::expr::views_of(v@), sym@),
    decreases parent@, 0int,
{
    proof {
        crate::expr::lemma_views_of(v@);
    }
    let ghost cs = crate::expr::views_of(v@);
    let mut k: usize = 0;
    proof {
        assert(cs.subrange(0, cs.len() as int) =~= cs);
    }
    while k < v.len()
        invariant
            0 <= k <= v@.len(),
            occurs_any(cs, sym@) == occurs_any(cs.subrange(k as int, cs.len() as int), sym@),
        decreases v@.len() - k,
    {
        let ghost rest = cs.subrange(k as int, cs.len() as int);
        proof {
            assert(rest[0] == cs[k as int]);
            assert(rest.subrange(1, rest.len() as int) =~= cs.subrange(
                k as int + 1,
                cs.len() as int,
            ));
        }
        if depends_on(&v[k], sym) {
            return true;
        }
        k = k + 1;
    }
    proof {
        assert(cs.subrange(k as int, cs.len() as int) =~= Seq::<NodeV>::empty());
    }
    false
}

} // verus!
