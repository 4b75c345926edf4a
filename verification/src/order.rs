use vstd::prelude::*;
use vstd::multiset::Multiset;

use crate::big::{big_cmp, big_mul};
use crate::derivative::Derivative;
use crate::expr::{lemma_views_of, lemma_wf_all, views_of, Expr, Node, NodeV};
use crate::number::{lemma_reduced_unique, num_wf, Number, NumV, Sign};
use crate::plus::Plus;
use crate::symbol::{lemma_lex_equal, lex_cmp_chars, str_compare};
use crate::times::Times;

verus! {

/// A stable rank for each node variant; comparisons across variants fall back
/// to this rank, so all nodes are totally ordered.
pub open spec fn rank(v: NodeV) -> int {
    match v {
        NodeV::Num { .. } => 0,
        NodeV::Sym { .. } => 1,
        NodeV::Plus { .. } => 2,
        NodeV::Times { .. } => 3,
        NodeV::Deriv { .. } => 4,
        NodeV::Undef => 5,
    }
}

/// A stable rank for each number kind.
pub open spec fn num_rank(v: NumV) -> int {
    match v {
        NumV::Integer { .. } => 0,
        NumV::Rational { .. } => 1,
        NumV::Infinity { .. } => 2,
    }
}

pub open spec fn sign_rank(s: Sign) -> int {
    match s {
        Sign::Plus => 0,
        Sign::Minus => 1,
    }
}

pub open spec fn cmp_int(a: int, b: int) -> core::cmp::Ordering {
    if a < b {
        core::cmp::Ordering::Less
    } else if a == b {
        core::cmp::Ordering::Equal
    } else {
        core::cmp::Ordering::Greater
    }
}

/// Order on numbers: by kind rank first; integers by value; rationals by
/// value (cross multiplication); infinities by sign, plus before minus.
pub open spec fn cmp_num(a: NumV, b: NumV) -> core::cmp::Ordering {
    if num_rank(a) != num_rank(b) {
        cmp_int(num_rank(a), num_rank(b))
    } else {
        match (a, b) {
            (NumV::Integer { i }, NumV::Integer { i: j }) => cmp_int(i, j),
            (NumV::Rational { n: n1, d: d1 }, NumV::Rational { n: n2, d: d2 }) => cmp_int(
                n1 * d2,
                n2 * d1,
            ),
            (NumV::Infinity { sign: s1 }, NumV::Infinity { sign: s2 }) => cmp_int(
                sign_rank(s1),
                sign_rank(s2),
            ),
            _ => core::cmp::Ordering::Equal,
        }
    }
}

/// The total node order: variant rank first, then content; compound nodes
/// compare their children lexicographically, a shorter prefix coming first.
pub open spec fn cmp_node(a: NodeV, b: NodeV) -> core::cmp::Ordering
    decreases a,
{
    if rank(a) != rank(b) {
        cmp_int(rank(a), rank(b))
    } else {
        match (a, b) {
            (NodeV::Num { value: x }, NodeV::Num { value: y }) => cmp_num(x, y),
            (NodeV::Sym { name: x }, NodeV::Sym { name: y }) => lex_cmp_chars(x, y),
            (NodeV::Plus { terms: x }, NodeV::Plus { terms: y }) => cmp_seq(x, y),
            (NodeV::Times { factors: x }, NodeV::Times { factors: y }) => cmp_seq(x, y),
            (NodeV::Deriv { wrt: w1, inner: i1 }, NodeV::Deriv { wrt: w2, inner: i2 }) => {
                if lex_cmp_chars(w1, w2) == core::cmp::Ordering::Equal {
                    cmp_node(*i1, *i2)
                } else {
                    lex_cmp_chars(w1, w2)
                }
            },
            _ => core::cmp::Ordering::Equal,
        }
    }
}

/// Lexicographic order on child sequences.
pub open spec fn cmp_seq(a: Seq<NodeV>, b: Seq<NodeV>) -> core::cmp::Ordering
    decreases a,
{
    if a.len() == 0 && b.len() == 0 {
        core::cmp::Ordering::Equal
    } else if a.len() == 0 {
        core::cmp::Ordering::Less
    } else if b.len() == 0 {
        core::cmp::Ordering::Greater
    } else if cmp_node(a[0], b[0]) == core::cmp::Ordering::Equal {
        cmp_seq(a.subrange(1, a.len() as int), b.subrange(1, b.len() as int))
    } else {
        cmp_node(a[0], b[0])
    }
}

/// Not-greater, the ordering relation used for sorting children.
pub open spec fn leq(a: NodeV, b: NodeV) -> bool {
    cmp_node(a, b) != core::cmp::Ordering::Greater
}

/// Well-formedness of a tree value: every fraction in it is reduced.
pub open spec fn wfv(v: NodeV) -> bool
    decreases v,
{
    match v {
        NodeV::Num { value } => num_wf(value),
        NodeV::Sym { .. } => true,
        NodeV::Plus { terms } => wfv_all(terms),
        NodeV::Times { factors } => wfv_all(factors),
        NodeV::Deriv { inner, .. } => wfv(*inner),
        NodeV::Undef => true,
    }
}

pub open spec fn wfv_all(s: Seq<NodeV>) -> bool
    decreases s,
{
    if s.len() == 0 {
        true
    } else {
        wfv_all(s.subrange(0, s.len() - 1)) && wfv(s[s.len() - 1])
    }
}

/// `wfv_all` holds exactly when each element is well-formed.
pub broadcast proof fn lemma_wfv_all(s: Seq<NodeV>)
    ensures
        #[trigger] wfv_all(s) <==> (forall|i: int| 0 <= i < s.len() ==> wfv(#[trigger] s[i])),
    decreases s.len(),
{
    if s.len() > 0 {
        let head = s.subrange(0, s.len() - 1);
        lemma_wfv_all(head);
        assert(forall|i: int| 0 <= i < s.len() - 1 ==> #[trigger] s[i] == head[i]);
        if forall|i: int| 0 <= i < s.len() ==> wfv(#[trigger] s[i]) {
            assert forall|i: int| 0 <= i < head.len() implies wfv(#[trigger] head[i]) by {
                assert(head[i] == s[i]);
            }
        }
        if wfv_all(s) {
            assert forall|i: int| 0 <= i < s.len() implies wfv(#[trigger] s[i]) by {
                if i < s.len() - 1 {
                    assert(wfv(head[i]));
                }
            }
        }
    }
}

/// A well-formed executable tree has a well-formed view.
pub proof fn lemma_wf_view(n: &Node)
    requires
        n.wf(),
    ensures
        wfv(n.view_rec()),
    decreases *n,
{
    match n {
        Node::Plus(p) => {
            lemma_wf_all(p.terms@);
            lemma_views_of(p.terms@);
            let vs = views_of(p.terms@);
            assert forall|i: int| 0 <= i < vs.len() implies wfv(#[trigger] vs[i]) by {
                assert((*p.terms@[i].node).wf());
                lemma_wf_view(&p.terms@[i].node);
                assert(vs[i] == p.terms@[i]@);
            }
            lemma_wfv_all(vs);
        },
        Node::Times(t) => {
            lemma_wf_all(t.terms@);
            lemma_views_of(t.terms@);
            let vs = views_of(t.terms@);
            assert forall|i: int| 0 <= i < vs.len() implies wfv(#[trigger] vs[i]) by {
                assert((*t.terms@[i].node).wf());
                lemma_wf_view(&t.terms@[i].node);
                assert(vs[i] == t.terms@[i]@);
            }
            lemma_wfv_all(vs);
        },
        Node::Derivative(d) => {
            lemma_wf_view(&d.expr.node);
        },
        _ => {},
    }
}

/// Swapping the operands reverses the comparison.
pub proof fn lemma_lex_flip(a: Seq<char>, b: Seq<char>)
    ensures
        lex_cmp_chars(a, b) == flip(lex_cmp_chars(b, a)),
    decreases a.len(),
{
    if a.len() != 0 && b.len() != 0 && a[0] as u32 == b[0] as u32 {
        lemma_lex_flip(a.skip(1), b.skip(1));
    }
}

pub open spec fn flip(c: core::cmp::Ordering) -> core::cmp::Ordering {
    match c {
        core::cmp::Ordering::Less => core::cmp::Ordering::Greater,
        core::cmp::Ordering::Equal => core::cmp::Ordering::Equal,
        core::cmp::Ordering::Greater => core::cmp::Ordering::Less,
    }
}

/// Swapping the operands reverses the node comparison.
pub proof fn lemma_cmp_flip(a: NodeV, b: NodeV)
    ensures
        cmp_node(a, b) == flip(cmp_node(b, a)),
    decreases a,
{
    if rank(a) == rank(b) {
        match (a, b) {
            (NodeV::Sym { name: x }, NodeV::Sym { name: y }) => {
                lemma_lex_flip(x, y);
            },
            (NodeV::Plus { terms: x }, NodeV::Plus { terms: y }) => {
                lemma_cmp_seq_flip(x, y);
            },
            (NodeV::Times { factors: x }, NodeV::Times { factors: y }) => {
                lemma_cmp_seq_flip(x, y);
            },
            (NodeV::Deriv { wrt: w1, inner: i1 }, NodeV::Deriv { wrt: w2, inner: i2 }) => {
                lemma_lex_flip(w1, w2);
                lemma_cmp_flip(*i1, *i2);
            },
            _ => {},
        }
    }
}

pub proof fn lemma_cmp_seq_flip(a: Seq<NodeV>, b: Seq<NodeV>)
    ensures
        cmp_seq(a, b) == flip(cmp_seq(b, a)),
    decreases a,
{
    if a.len() != 0 && b.len() != 0 {
        lemma_cmp_flip(a[0], b[0]);
        if cmp_node(a[0], b[0]) == core::cmp::Ordering::Equal {
            lemma_cmp_seq_flip(a.subrange(1, a.len() as int), b.subrange(1, b.len() as int));
        }
    }
}

/// Nodes that compare equal are equal, for well-formed values.
pub proof fn lemma_cmp_equal_is_eq(a: NodeV, b: NodeV)
    requires
        wfv(a),
        wfv(b),
        cmp_node(a, b) == core::cmp::Ordering::Equal,
    ensures
        a == b,
    decreases a,
{
    broadcast use lemma_wfv_all;

    match (a, b) {
        (NodeV::Num { value: x }, NodeV::Num { value: y }) => {
            match (x, y) {
                (NumV::Rational { n: n1, d: d1 }, NumV::Rational { n: n2, d: d2 }) => {
                    lemma_reduced_unique(n1, d1, n2, d2);
                },
                _ => {},
            }
        },
        (NodeV::Sym { name: x }, NodeV::Sym { name: y }) => {
            lemma_lex_equal(x, y);
        },
        (NodeV::Plus { terms: x }, NodeV::Plus { terms: y }) => {
            lemma_cmp_seq_equal_is_eq(x, y);
        },
        (NodeV::Times { factors: x }, NodeV::Times { factors: y }) => {
            lemma_cmp_seq_equal_is_eq(x, y);
        },
        (NodeV::Deriv { wrt: w1, inner: i1 }, NodeV::Deriv { wrt: w2, inner: i2 }) => {
            lemma_lex_equal(w1, w2);
            lemma_cmp_equal_is_eq(*i1, *i2);
        },
        _ => {},
    }
}

pub proof fn lemma_cmp_seq_equal_is_eq(a: Seq<NodeV>, b: Seq<NodeV>)
    requires
        wfv_all(a),
        wfv_all(b),
        cmp_seq(a, b) == core::cmp::Ordering::Equal,
    ensures
        a == b,
    decreases a,
{
    broadcast use lemma_wfv_all;

    if a.len() != 0 && b.len() != 0 {
        lemma_cmp_equal_is_eq(a[0], b[0]);
        let at = a.subrange(1, a.len() as int);
        let bt = b.subrange(1, b.len() as int);
        lemma_cmp_seq_equal_is_eq(at, bt);
        assert(a =~= seq![a[0]] + at);
        assert(b =~= seq![b[0]] + bt);
    }
}

/// The node order is transitive on well-formed values.
pub proof fn lemma_cmp_trans(a: NodeV, b: NodeV, c: NodeV)
    requires
        wfv(a),
        wfv(b),
        wfv(c),
        cmp_node(a, b) != core::cmp::Ordering::Greater,
        cmp_node(b, c) != core::cmp::Ordering::Greater,
    ensures
        cmp_node(a, c) != core::cmp::Ordering::Greater,
        cmp_node(a, c) == core::cmp::Ordering::Equal ==> cmp_node(a, b)
            == core::cmp::Ordering::Equal && cmp_node(b, c) == core::cmp::Ordering::Equal,
    decreases a,
{
    if cmp_node(a, b) == core::cmp::Ordering::Equal {
        lemma_cmp_equal_is_eq(a, b);
    } else if cmp_node(b, c) == core::cmp::Ordering::Equal {
        lemma_cmp_equal_is_eq(b, c);
    } else {
        // both strictly less
        lemma_cmp_strict_trans(a, b, c);
    }
}

/// Strict transitivity on well-formed values.
proof fn lemma_cmp_strict_trans(a: NodeV, b: NodeV, c: NodeV)
    requires
        wfv(a),
        wfv(b),
        wfv(c),
        cmp_node(a, b) == core::cmp::Ordering::Less,
        cmp_node(b, c) == core::cmp::Ordering::Less,
    ensures
        cmp_node(a, c) == core::cmp::Ordering::Less,
    decreases a,
{
    broadcast use lemma_wfv_all;

    if rank(a) == rank(b) && rank(b) == rank(c) {
        match (a, b, c) {
            (
                NodeV::Num { value: x },
                NodeV::Num { value: y },
                NodeV::Num { value: z },
            ) => {
                lemma_cmp_num_strict_trans(x, y, z);
            },
            (
                NodeV::Sym { name: x },
                NodeV::Sym { name: y },
                NodeV::Sym { name: z },
            ) => {
                lemma_lex_strict_trans(x, y, z);
            },
            (
                NodeV::Plus { terms: x },
                NodeV::Plus { terms: y },
                NodeV::Plus { terms: z },
            ) => {
                lemma_cmp_seq_strict_trans(x, y, z);
            },
            (
                NodeV::Times { factors: x },
                NodeV::Times { factors: y },
                NodeV::Times { factors: z },
            ) => {
                lemma_cmp_seq_strict_trans(x, y, z);
            },
            (
                NodeV::Deriv { wrt: w1, inner: i1 },
                NodeV::Deriv { wrt: w2, inner: i2 },
                NodeV::Deriv { wrt: w3, inner: i3 },
            ) => {
                if lex_cmp_chars(w1, w2) == core::cmp::Ordering::Equal {
                    lemma_lex_equal(w1, w2);
                    if lex_cmp_chars(w2, w3) == core::cmp::Ordering::Equal {
                        lemma_lex_equal(w2, w3);
                        lemma_cmp_strict_trans(*i1, *i2, *i3);
                    }
                } else {
                    if lex_cmp_chars(w2, w3) == core::cmp::Ordering::Equal {
                        lemma_lex_equal(w2, w3);
                    } else {
                        lemma_lex_strict_trans(w1, w2, w3);
                    }
                }
            },
            _ => {},
        }
    }
}

proof fn lemma_cmp_num_strict_trans(x: NumV, y: NumV, z: NumV)
    requires
        num_wf(x),
        num_wf(y),
        num_wf(z),
        cmp_num(x, y) == core::cmp::Ordering::Less,
        cmp_num(y, z) == core::cmp::Ordering::Less,
    ensures
        cmp_num(x, z) == core::cmp::Ordering::Less,
{
    if num_rank(x) == num_rank(y) && num_rank(y) == num_rank(z) {
        match (x, y, z) {
            (
                NumV::Rational { n: n1, d: d1 },
                NumV::Rational { n: n2, d: d2 },
                NumV::Rational { n: n3, d: d3 },
            ) => {
                assert(n1 * d3 < n3 * d1) by (nonlinear_arith)
                    requires
                        n1 * d2 < n2 * d1,
                        n2 * d3 < n3 * d2,
                        d1 >= 1,
                        d2 >= 1,
                        d3 >= 1,
                ;
            },
            _ => {},
        }
    }
}

proof fn lemma_lex_strict_trans(a: Seq<char>, b: Seq<char>, c: Seq<char>)
    requires
        lex_cmp_chars(a, b) == core::cmp::Ordering::Less,
        lex_cmp_chars(b, c) == core::cmp::Ordering::Less,
    ensures
        lex_cmp_chars(a, c) == core::cmp::Ordering::Less,
    decreases a.len(),
{
    if a.len() != 0 && b.len() != 0 && c.len() != 0 {
        if a[0] as u32 == b[0] as u32 && b[0] as u32 == c[0] as u32 {
            lemma_lex_strict_trans(a.skip(1), b.skip(1), c.skip(1));
        }
    }
}

proof fn lemma_cmp_seq_strict_trans(a: Seq<NodeV>, b: Seq<NodeV>, c: Seq<NodeV>)
    requires
        wfv_all(a),
        wfv_all(b),
        wfv_all(c),
        cmp_seq(a, b) == core::cmp::Ordering::Less,
        cmp_seq(b, c) == core::cmp::Ordering::Less,
    ensures
        cmp_seq(a, c) == core::cmp::Ordering::Less,
    decreases a,
{
    broadcast use lemma_wfv_all;

    if a.len() != 0 && b.len() != 0 && c.len() != 0 {
        let eab = cmp_node(a[0], b[0]) == core::cmp::Ordering::Equal;
        let ebc = cmp_node(b[0], c[0]) == core::cmp::Ordering::Equal;
        if eab {
            lemma_cmp_equal_is_eq(a[0], b[0]);
        }
        if ebc {
            lemma_cmp_equal_is_eq(b[0], c[0]);
        }
        if eab && ebc {
            lemma_cmp_seq_strict_trans(
                a.subrange(1, a.len() as int),
                b.subrange(1, b.len() as int),
                c.subrange(1, c.len() as int),
            );
        } else if !eab && !ebc {
            lemma_cmp_strict_trans(a[0], b[0], c[0]);
        }
    }
}

/// The child sequences of a node are sorted by the node order.
pub open spec fn sorted(s: Seq<NodeV>) -> bool {
    forall|i: int, j: int| 0 <= i < j < s.len() ==> leq(#[trigger] s[i], #[trigger] s[j])
}

/// Inserts a value in front of the first strictly greater element.
pub open spec fn insert_sorted(x: NodeV, s: Seq<NodeV>) -> Seq<NodeV>
    decreases s,
{
    if s.len() == 0 {
        seq![x]
    } else if cmp_node(s[0], x) == core::cmp::Ordering::Greater {
        seq![x] + s
    } else {
        seq![s[0]] + insert_sorted(x, s.subrange(1, s.len() as int))
    }
}

/// Insertion sort of a child sequence.
pub open spec fn sort_seq(s: Seq<NodeV>) -> Seq<NodeV>
    decreases s,
{
    if s.len() == 0 {
        Seq::empty()
    } else {
        insert_sorted(s[s.len() - 1], sort_seq(s.subrange(0, s.len() - 1)))
    }
}

/// A lower bound of a sorted sequence also bounds the sequence with a value
/// inserted, provided it bounds that value.
proof fn lemma_insert_sorted_bound(z: NodeV, x: NodeV, s: Seq<NodeV>)
    requires
        leq(z, x),
        forall|i: int| 0 <= i < s.len() ==> leq(z, #[trigger] s[i]),
    ensures
        forall|i: int|
            0 <= i < insert_sorted(x, s).len() ==> leq(z, #[trigger] insert_sorted(x, s)[i]),
    decreases s,
{
    if s.len() == 0 {
    } else if cmp_node(s[0], x) == core::cmp::Ordering::Greater {
    } else {
        let t = s.subrange(1, s.len() as int);
        assert forall|i: int| 0 <= i < t.len() implies leq(z, #[trigger] t[i]) by {
            assert(t[i] == s[i + 1]);
        }
        lemma_insert_sorted_bound(z, x, t);
        let out = insert_sorted(x, s);
        assert(out =~= seq![s[0]] + insert_sorted(x, t));
        assert forall|i: int| 0 <= i < out.len() implies leq(z, #[trigger] out[i]) by {
            if i > 0 {
                assert(out[i] == insert_sorted(x, t)[i - 1]);
            }
        }
    }
}

/// Inserting into a sorted sequence of well-formed values keeps it sorted and
/// adds exactly the new value.
pub proof fn lemma_insert_sorted(x: NodeV, s: Seq<NodeV>)
    requires
        wfv(x),
        wfv_all(s),
        sorted(s),
    ensures
        sorted(insert_sorted(x, s)),
        insert_sorted(x, s).len() == s.len() + 1,
        insert_sorted(x, s).to_multiset() == s.to_multiset().insert(x),
        wfv_all(insert_sorted(x, s)),
    decreases s,
{
    broadcast use lemma_wfv_all;
    broadcast use vstd::seq_lib::group_to_multiset_ensures;
    broadcast use vstd::seq_lib::lemma_multiset_commutative;

    let out = insert_sorted(x, s);
    if s.len() == 0 {
        assert(out =~= Seq::empty().push(x));
        assert(out.to_multiset() =~= s.to_multiset().insert(x));
    } else if cmp_node(s[0], x) == core::cmp::Ordering::Greater {
        // x comes first: x is below every element of s
        lemma_cmp_flip(s[0], x);
        assert forall|i: int| 0 <= i < s.len() implies leq(x, #[trigger] s[i]) by {
            if i > 0 {
                lemma_cmp_trans(x, s[0], s[i]);
            }
        }
        assert(out =~= seq![x] + s);
        assert(seq![x] + s =~= (Seq::empty().push(x)) + s);
        assert((Seq::empty().push(x)).to_multiset() =~= Multiset::empty().insert(x));
        assert(out.to_multiset() =~= s.to_multiset().insert(x));
    } else {
        let t = s.subrange(1, s.len() as int);
        assert(s =~= seq![s[0]] + t);
        lemma_insert_sorted(x, t);
        let ins = insert_sorted(x, t);
        assert forall|i: int| 0 <= i < t.len() implies leq(s[0], #[trigger] t[i]) by {
            assert(t[i] == s[i + 1]);
        }
        lemma_insert_sorted_bound(s[0], x, t);
        assert(out =~= seq![s[0]] + ins);
        assert forall|i: int, j: int| 0 <= i < j < out.len() implies leq(
            #[trigger] out[i],
            #[trigger] out[j],
        ) by {
            if i == 0 {
                assert(out[j] == ins[j - 1]);
            } else {
                assert(out[i] == ins[i - 1] && out[j] == ins[j - 1]);
            }
        }
        assert((seq![s[0]] + ins).to_multiset() =~= ins.to_multiset().insert(s[0]));
        assert((seq![s[0]] + t).to_multiset() =~= t.to_multiset().insert(s[0]));
        assert(out.to_multiset() =~= s.to_multiset().insert(x));
    }
}

/// Sorting sorts: the result is ordered, has the same members, and keeps
/// well-formedness.
pub proof fn lemma_sort_seq(s: Seq<NodeV>)
    requires
        wfv_all(s),
    ensures
        sorted(sort_seq(s)),
        sort_seq(s).len() == s.len(),
        sort_seq(s).to_multiset() == s.to_multiset(),
        wfv_all(sort_seq(s)),
    decreases s,
{
    broadcast use lemma_wfv_all;
    broadcast use vstd::seq_lib::group_to_multiset_ensures;

    if s.len() > 0 {
        let head = s.subrange(0, s.len() - 1);
        lemma_sort_seq(head);
        lemma_insert_sorted(s[s.len() - 1], sort_seq(head));
        assert(s =~= head.push(s[s.len() - 1]));
        assert(s.to_multiset() =~= head.to_multiset().insert(s[s.len() - 1]));
    }
}

/// Every value compares equal to itself.
pub proof fn lemma_cmp_refl(a: NodeV)
    ensures
        cmp_node(a, a) == core::cmp::Ordering::Equal,
    decreases a,
{
    match a {
        NodeV::Sym { name } => {
            lemma_lex_refl(name);
        },
        NodeV::Plus { terms } => {
            lemma_cmp_seq_refl(terms);
        },
        NodeV::Times { factors } => {
            lemma_cmp_seq_refl(factors);
        },
        NodeV::Deriv { wrt, inner } => {
            lemma_lex_refl(wrt);
            lemma_cmp_refl(*inner);
        },
        _ => {},
    }
}

proof fn lemma_lex_refl(a: Seq<char>)
    ensures
        lex_cmp_chars(a, a) == core::cmp::Ordering::Equal,
    decreases a.len(),
{
    if a.len() > 0 {
        lemma_lex_refl(a.skip(1));
    }
}

proof fn lemma_cmp_seq_refl(s: Seq<NodeV>)
    ensures
        cmp_seq(s, s) == core::cmp::Ordering::Equal,
    decreases s,
{
    if s.len() > 0 {
        lemma_cmp_refl(s[0]);
        lemma_cmp_seq_refl(s.subrange(1, s.len() as int));
    }
}

/// Two sorted sequences of well-formed values with the same members are equal.
pub proof fn lemma_sorted_unique(x: Seq<NodeV>, y: Seq<NodeV>)
    requires
        sorted(x),
        sorted(y),
        wfv_all(x),
        wfv_all(y),
        x.to_multiset() == y.to_multiset(),
    ensures
        x == y,
    decreases x.len(),
{
    broadcast use lemma_wfv_all;
    broadcast use vstd::seq_lib::group_to_multiset_ensures;
    broadcast use vstd::multiset::group_multiset_axioms;

    if x.len() == 0 {
        assert(y.to_multiset().len() == 0);
        assert(x =~= y);
    } else if y.len() == 0 {
        assert(x.to_multiset().len() == 0);
    } else {
        assert(x.to_multiset().contains(x[0]));
        assert(x.to_multiset().contains(y[0]));
        assert(y.to_multiset().contains(x[0]));
        let i = choose|i: int| 0 <= i < x.len() && #[trigger] x[i] == y[0];
        let j = choose|j: int| 0 <= j < y.len() && #[trigger] y[j] == x[0];
        lemma_cmp_refl(x[0]);
        if i > 0 {
            assert(leq(x[0], x[i]));
        }
        if j > 0 {
            assert(leq(y[0], y[j]));
        }
        lemma_cmp_flip(x[0], y[0]);
        lemma_cmp_equal_is_eq(x[0], y[0]);
        assert(x.drop_first() =~= x.remove(0));
        assert(y.drop_first() =~= y.remove(0));
        assert(x.remove(0).to_multiset() =~= x.to_multiset().remove(x[0]));
        assert(y.remove(0).to_multiset() =~= y.to_multiset().remove(y[0]));
        assert(x.drop_first() =~= x.subrange(1, x.len() as int));
        assert(y.drop_first() =~= y.subrange(1, y.len() as int));
        lemma_sorted_unique(x.drop_first(), y.drop_first());
        assert(x =~= seq![x[0]] + x.drop_first());
        assert(y =~= seq![y[0]] + y.drop_first());
    }
}

/// Rank of a node variant, as executable code.
fn exec_rank(n: &Node) -> (r: u8)
    ensures
        r as int == rank(n.view_rec()),
{
    match n {
        Node::Number(_) => 0,
        Node::Symbol(_) => 1,
        Node::Plus(_) => 2,
        Node::Times(_) => 3,
        Node::Derivative(_) => 4,
        Node::Undefined(_) => 5,
    }
}

/// Compares two numbers in the number order.
fn num_compare(a: &Number, b: &Number) -> (r: core::cmp::Ordering)
    ensures
        r == cmp_num(a@, b@),
{
    match (a, b) {
        (Number::Integer(x), Number::Integer(y)) => big_cmp(x, y),
        (Number::Rational(x), Number::Rational(y)) => {
            big_cmp(&big_mul(&x.numer, &y.denom), &big_mul(&y.numer, &x.denom))
        },
        (Number::Infinity(s1), Number::Infinity(s2)) => {
            match (s1, s2) {
                (Sign::Plus, Sign::Minus) => core::cmp::Ordering::Less,
                (Sign::Minus, Sign::Plus) => core::cmp::Ordering::Greater,
                _ => core::cmp::Ordering::Equal,
            }
        },
        (Number::Integer(_), _) => core::cmp::Ordering::Less,
        (Number::Rational(_), Number::Infinity(_)) => core::cmp::Ordering::Less,
        (Number::Rational(_), Number::Integer(_)) => core::cmp::Ordering::Greater,
        (Number::Infinity(_), _) => core::cmp::Ordering::Greater,
    }
}

/// Compares two nodes in the total node order.
pub fn node_compare(a: &Node, b: &Node) -> (r: core::cmp::Ordering)
    ensures
        r == cmp_node(a.view_rec(), b.view_rec()),
    decreases a.view_rec(),
{
    let ra = exec_rank(a);
    let rb = exec_rank(b);
    if ra < rb {
        return core::cmp::Ordering::Less;
    }
    if ra > rb {
        return core::cmp::Ordering::Greater;
    }
    match (a, b) {
        (Node::Number(x), Node::Number(y)) => num_compare(x, y),
        (Node::Symbol(x), Node::Symbol(y)) => str_compare(x.as_str(), y.as_str()),
        (Node::Plus(p1), Node::Plus(p2)) => vec_compare(&p1.terms, &p2.terms),
        (Node::Times(t1), Node::Times(t2)) => vec_compare(&t1.terms, &t2.terms),
        (Node::Derivative(d1), Node::Derivative(d2)) => {
            let w = str_compare(d1.wrt.as_str(), d2.wrt.as_str());
            match w {
                core::cmp::Ordering::Equal => node_compare(&d1.expr.node, &d2.expr.node),
                _ => w,
            }
        },
        _ => core::cmp::Ordering::Equal,
    }
}

/// Compares two child lists lexicographically.
fn vec_compare(x: &Vec<Expr>, y: &Vec<Expr>) -> (r: core::cmp::Ordering)
    ensures
        r == cmp_seq(views_of(x@), views_of(y@)),
    decreases views_of(x@),
{
    proof {
        lemma_views_of(x@);
        lemma_views_of(y@);
        assert(views_of(x@).subrange(0, x@.len() as int) =~= views_of(x@));
        assert(views_of(y@).subrange(0, y@.len() as int) =~= views_of(y@));
    }
    let mut i: usize = 0;
    loop
        invariant
            0 <= i <= x.len(),
            i <= y.len(),
            views_of(x@).len() == x@.len(),
            views_of(y@).len() == y@.len(),
            forall|k: int| 0 <= k < x@.len() ==> #[trigger] views_of(x@)[k] == x@[k]@,
            forall|k: int| 0 <= k < y@.len() ==> #[trigger] views_of(y@)[k] == y@[k]@,
            cmp_seq(views_of(x@), views_of(y@)) == cmp_seq(
                views_of(x@).subrange(i as int, x@.len() as int),
                views_of(y@).subrange(i as int, y@.len() as int),
            ),
        decreases x@.len() - i,
    {
        let ghost xs = views_of(x@).subrange(i as int, x@.len() as int);
        let ghost ys = views_of(y@).subrange(i as int, y@.len() as int);
        if i == x.len() && i == y.len() {
            return core::cmp::Ordering::Equal;
        }
        if i == x.len() {
            return core::cmp::Ordering::Less;
        }
        if i == y.len() {
            return core::cmp::Ordering::Greater;
        }
        proof {
            assert(decreases_to!(views_of(x@) => views_of(x@)[i as int]));
        }
        let c = node_compare(&x[i].node, &y[i].node);
        proof {
            assert(xs[0] == x@[i as int]@ && ys[0] == y@[i as int]@);
        }
        match c {
            core::cmp::Ordering::Equal => {
                proof {
                    assert(xs.subrange(1, xs.len() as int) =~= views_of(x@).subrange(
                        i + 1,
                        x@.len() as int,
                    ));
                    assert(ys.subrange(1, ys.len() as int) =~= views_of(y@).subrange(
                        i + 1,
                        y@.len() as int,
                    ));
                }
                i = i + 1;
            },
            _ => {
                return c;
            },
        }
    }
}

/// Where the scan stopped is where the spec insertion puts the value.
proof fn lemma_insert_sorted_at(x: NodeV, s: Seq<NodeV>, idx: int)
    requires
        0 <= idx <= s.len(),
        forall|j: int| 0 <= j < idx ==> cmp_node(#[trigger] s[j], x) != core::cmp::Ordering::Greater,
        idx < s.len() ==> cmp_node(s[idx], x) == core::cmp::Ordering::Greater,
    ensures
        insert_sorted(x, s) == s.subrange(0, idx) + seq![x] + s.subrange(idx, s.len() as int),
    decreases s,
{
    if s.len() == 0 {
        assert(insert_sorted(x, s) =~= s.subrange(0, idx) + seq![x] + s.subrange(
            idx,
            s.len() as int,
        ));
    } else if idx == 0 {
        assert(insert_sorted(x, s) =~= s.subrange(0, 0) + seq![x] + s.subrange(0, s.len() as int));
    } else {
        let t = s.subrange(1, s.len() as int);
        assert forall|j: int| 0 <= j < idx - 1 implies cmp_node(#[trigger] t[j], x)
            != core::cmp::Ordering::Greater by {
            assert(t[j] == s[j + 1]);
        }
        assert(idx - 1 < t.len() ==> cmp_node(t[idx - 1], x) == core::cmp::Ordering::Greater);
        lemma_insert_sorted_at(x, t, idx - 1);
        assert(seq![s[0]] + (t.subrange(0, idx - 1) + seq![x] + t.subrange(idx - 1, t.len() as int))
            =~= s.subrange(0, idx) + seq![x] + s.subrange(idx, s.len() as int));
    }
}

/// The position of the first element strictly greater than the given one.
fn find_insert_pos(x: &Expr, v: &Vec<Expr>) -> (idx: usize)
    ensures
        0 <= idx <= v@.len(),
        forall|j: int|
            0 <= j < idx ==> cmp_node(#[trigger] views_of(v@)[j], x@)
                != core::cmp::Ordering::Greater,
        idx < v@.len() ==> cmp_node(views_of(v@)[idx as int], x@) == core::cmp::Ordering::Greater,
{
    proof {
        lemma_views_of(v@);
    }
    let mut idx: usize = 0;
    while idx < v.len()
        invariant
            0 <= idx <= v@.len(),
            views_of(v@).len() == v@.len(),
            forall|k: int| 0 <= k < v@.len() ==> #[trigger] views_of(v@)[k] == v@[k]@,
            forall|j: int|
                0 <= j < idx ==> cmp_node(#[trigger] views_of(v@)[j], x@)
                    != core::cmp::Ordering::Greater,
        decreases v@.len() - idx,
    {
        let c = node_compare(&v[idx].node, &x.node);
        match c {
            core::cmp::Ordering::Greater => {
                return idx;
            },
            _ => {
                idx = idx + 1;
            },
        }
    }
    idx
}

/// Inserts a handle into a list sorted by the node order, in front of the
/// first strictly greater element.
pub(crate) fn insert_expr(x: Expr, v: &mut Vec<Expr>)
    ensures
        views_of(final(v)@) == insert_sorted(x@, views_of(old(v)@)),
        final(v)@.to_multiset() == old(v)@.to_multiset().insert(x),
{
    proof {
        lemma_views_of(v@);
    }
    let ghost s = views_of(v@);
    let ghost v0 = v@;
    let idx = find_insert_pos(&x, v);
    proof {
        lemma_insert_sorted_at(x@, s, idx as int);
    }
    v.insert(idx, x);
    proof {
        broadcast use vstd::seq_lib::group_to_multiset_ensures;
        broadcast use vstd::seq_lib::lemma_multiset_commutative;
        broadcast use vstd::multiset::group_multiset_axioms;

        lemma_views_of(v@);
        assert(v@ =~= v0.subrange(0, idx as int) + seq![x] + v0.subrange(
            idx as int,
            v0.len() as int,
        ));
        let a = v0.subrange(0, idx as int);
        let b = v0.subrange(idx as int, v0.len() as int);
        assert forall|k: int| 0 <= k < v@.len() implies #[trigger] views_of(v@)[k]
            == (s.subrange(0, idx as int) + seq![x@] + s.subrange(idx as int, s.len() as int))[k] by {
            if k < idx {
                assert(v@[k] == v0[k]);
            } else if k == idx {
                assert(v@[k] == x);
            } else {
                assert(v@[k] == v0[k - 1]);
            }
        }
        assert(views_of(v@) =~= s.subrange(0, idx as int) + seq![x@] + s.subrange(
            idx as int,
            s.len() as int,
        ));
        // membership: the new list holds the old members and x
        assert(v0 =~= a + b);
        assert((a + seq![x] + b).to_multiset() =~= ((a + seq![x]) + b).to_multiset());
        assert(((a + seq![x]) + b).to_multiset() =~= (a + seq![x]).to_multiset().add(
            b.to_multiset(),
        ));
        assert((a + seq![x]).to_multiset() =~= a.to_multiset().insert(x));
        assert(v@.to_multiset() =~= v0.to_multiset().insert(x));
    }
}

/// Sorts a list of handles by the node order, by insertion.
pub(crate) fn sort_exprs(v: Vec<Expr>) -> (r: Vec<Expr>)
    ensures
        views_of(r@) == sort_seq(views_of(v@)),
        r@.to_multiset() == v@.to_multiset(),
{
    proof {
        lemma_views_of(v@);
    }
    let mut out: Vec<Expr> = Vec::new();
    proof {
        assert(out@ =~= v@.subrange(0, 0));
    }
    let mut k: usize = 0;
    while k < v.len()
        invariant
            0 <= k <= v.len(),
            views_of(v@).len() == v@.len(),
            forall|i: int| 0 <= i < v@.len() ==> #[trigger] views_of(v@)[i] == v@[i]@,
            views_of(out@) == sort_seq(views_of(v@).subrange(0, k as int)),
            out@.to_multiset() == v@.subrange(0, k as int).to_multiset(),
        decreases v@.len() - k,
    {
        let x = v[k].clone();
        insert_expr(x, &mut out);
        proof {
            broadcast use vstd::seq_lib::group_to_multiset_ensures;

            let p = views_of(v@).subrange(0, k as int);
            let q = views_of(v@).subrange(0, k as int + 1);
            assert(q =~= p.push(v@[k as int]@));
            assert(q.subrange(0, q.len() - 1) =~= p);
            assert(sort_seq(q) == insert_sorted(v@[k as int]@, sort_seq(p)));
            assert(v@.subrange(0, k as int + 1) =~= v@.subrange(0, k as int).push(v@[k as int]));
        }
        k = k + 1;
    }
    proof {
        assert(views_of(v@).subrange(0, v@.len() as int) =~= views_of(v@));
        assert(v@.subrange(0, v@.len() as int) =~= v@);
    }
    out
}

/// Lists with the same members are well-formed together.
pub proof fn lemma_wf_all_multiset(a: Seq<Expr>, b: Seq<Expr>)
    requires
        crate::expr::wf_all(a),
        a.to_multiset() == b.to_multiset(),
    ensures
        crate::expr::wf_all(b),
{
    broadcast use vstd::seq_lib::group_to_multiset_ensures;

    lemma_wf_all(a);
    lemma_wf_all(b);
    assert forall|i: int| 0 <= i < b.len() implies (*#[trigger] b[i].node).wf() by {
        assert(b.contains(b[i]));
        assert(b.to_multiset().count(b[i]) > 0);
        assert(a.to_multiset().count(b[i]) > 0);
        assert(a.contains(b[i]));
        let j = choose|j: int| 0 <= j < a.len() && a[j] == b[i];
        assert((*a[j].node).wf());
    }
}

impl Expr {
    /// Compares two expressions in the total node order.
    pub fn compare(&self, other: &Expr) -> (r: core::cmp::Ordering)
        ensures
            r == cmp_node(self@, other@),
    {
        node_compare(&self.node, &other.node)
    }

    /// Structural equality of the trees the two handles head.
    pub fn equals(&self, other: &Expr) -> (r: bool)
        requires
            self.wf(),
            other.wf(),
        ensures
            r == (self@ == other@),
    {
        let c = self.compare(other);
        proof {
            lemma_wf_view(&self.node);
            lemma_wf_view(&other.node);
            if c == core::cmp::Ordering::Equal {
                lemma_cmp_equal_is_eq(self@, other@);
            }
            if self@ == other@ {
                lemma_cmp_refl(self@);
            }
        }
        matches!(c, core::cmp::Ordering::Equal)
    }
}

} // verus!
