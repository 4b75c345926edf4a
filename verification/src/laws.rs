use vstd::prelude::*;

use crate::canonicalize::{
    canon, finish_plus, finish_times, fold_plus, fold_times, full_canon, normal_num, plus_splice,
    plus_step, times_splice, times_step, TimesFold,
};
use crate::expr::NodeV;
use crate::number::{
    lemma_reduce_frac, mk_rat, num_add, num_is_one, num_is_zero, num_mul, num_wf, reduced, NumV,
};
use crate::order::{
    lemma_sort_seq, lemma_sorted_unique, lemma_wfv_all, sort_seq, sorted, wfv, wfv_all,
};

verus! {

/// Canonical form (the normal shape the canonicalizer produces): numbers are
/// reduced and never a fraction with denominator one; sums and products have
/// at least two children, sorted by the node order, none of the same operator
/// (flattened), at most one number among them and that number never the
/// operator's identity (nor zero, for a product); derivatives wrap canonical
/// trees; the undefined sentinel never appears inside canonical output.
pub open spec fn is_canonical(v: NodeV) -> bool
    decreases v,
{
    match v {
        NodeV::Num { value } => num_wf(value) && !degenerate(value),
        NodeV::Sym { .. } => true,
        NodeV::Plus { terms } => {
            &&& terms.len() >= 2
            &&& sorted(terms)
            &&& canonical_all(terms)
            &&& num_count(terms) <= 1
            &&& forall|i: int| 0 <= i < terms.len() ==> !((#[trigger] terms[i]) is Plus)
            &&& forall|i: int|
                0 <= i < terms.len() ==> ((#[trigger] terms[i]) matches NodeV::Num { value }
                    ==> !num_is_zero(value))
        },
        NodeV::Times { factors } => {
            &&& factors.len() >= 2
            &&& sorted(factors)
            &&& canonical_all(factors)
            &&& num_count(factors) <= 1
            &&& forall|i: int| 0 <= i < factors.len() ==> !((#[trigger] factors[i]) is Times)
            &&& forall|i: int|
                0 <= i < factors.len() ==> ((#[trigger] factors[i]) matches NodeV::Num { value }
                    ==> !num_is_zero(value) && !num_is_one(value))
        },
        NodeV::Deriv { inner, .. } => is_canonical(*inner),
        NodeV::Undef => false,
    }
}

/// A fraction with denominator one, which canonical output writes as an
/// integer instead.
pub open spec fn degenerate(k: NumV) -> bool {
    k matches NumV::Rational { n, d } && d == 1
}

pub open spec fn canonical_all(s: Seq<NodeV>) -> bool
    decreases s,
{
    if s.len() == 0 {
        true
    } else {
        is_canonical(s[0]) && canonical_all(s.subrange(1, s.len() as int))
    }
}

/// `canonical_all` holds exactly when each element is canonical.
pub broadcast proof fn lemma_canonical_all(s: Seq<NodeV>)
    ensures
        #[trigger] canonical_all(s) <==> (forall|i: int|
            0 <= i < s.len() ==> is_canonical(#[trigger] s[i])),
    decreases s.len(),
{
    if s.len() > 0 {
        let tail = s.subrange(1, s.len() as int);
        lemma_canonical_all(tail);
        assert(forall|i: int| 0 <= i < tail.len() ==> #[trigger] tail[i] == s[i + 1]);
        if canonical_all(s) {
            assert forall|i: int| 0 <= i < s.len() implies is_canonical(#[trigger] s[i]) by {
                if i > 0 {
                    assert(is_canonical(tail[i - 1]));
                }
            }
        }
        if forall|i: int| 0 <= i < s.len() ==> is_canonical(#[trigger] s[i]) {
            assert forall|i: int| 0 <= i < tail.len() implies is_canonical(#[trigger] tail[i]) by {
                assert(tail[i] == s[i + 1]);
            }
        }
    }
}

/// How many number leaves stand among the children.
pub open spec fn num_count(s: Seq<NodeV>) -> int
    decreases s,
{
    if s.len() == 0 {
        0int
    } else {
        (if s[0] is Num {
            1int
        } else {
            0int
        }) + num_count(s.subrange(1, s.len() as int))
    }
}

/// The children that are not number leaves, in order.
pub open spec fn non_nums(s: Seq<NodeV>) -> Seq<NodeV>
    decreases s,
{
    if s.len() == 0 {
        Seq::empty()
    } else if s[0] is Num {
        non_nums(s.subrange(1, s.len() as int))
    } else {
        seq![s[0]] + non_nums(s.subrange(1, s.len() as int))
    }
}

/// The value of the first number leaf among the children, if any.
pub open spec fn first_num(s: Seq<NodeV>) -> Option<NumV>
    decreases s,
{
    if s.len() == 0 {
        None
    } else {
        match s[0] {
            NodeV::Num { value } => Some(value),
            _ => first_num(s.subrange(1, s.len() as int)),
        }
    }
}

/// A canonical tree is well-formed.
pub proof fn lemma_canonical_wfv(v: NodeV)
    requires
        is_canonical(v),
    ensures
        wfv(v),
    decreases v,
{
    broadcast use lemma_canonical_all, lemma_wfv_all;

    match v {
        NodeV::Plus { terms } => {
            assert forall|i: int| 0 <= i < terms.len() implies wfv(#[trigger] terms[i]) by {
                lemma_canonical_all(terms);
                assert(is_canonical(terms[i]));
                lemma_canonical_wfv(terms[i]);
            }
            lemma_wfv_all(terms);
        },
        NodeV::Times { factors } => {
            assert forall|i: int| 0 <= i < factors.len() implies wfv(#[trigger] factors[i]) by {
                lemma_canonical_all(factors);
                assert(is_canonical(factors[i]));
                lemma_canonical_wfv(factors[i]);
            }
            lemma_wfv_all(factors);
        },
        NodeV::Deriv { inner, .. } => {
            lemma_canonical_wfv(*inner);
        },
        _ => {},
    }
}

/// Addition of well-formed numbers yields a well-formed number.
pub proof fn lemma_num_add_wf(a: NumV, b: NumV)
    requires
        num_wf(a),
        num_wf(b),
    ensures
        (match num_add(a, b) {
            Some(v) => num_wf(v),
            None => true,
        }),
{
    match (a, b) {
        (NumV::Integer { i }, NumV::Rational { n, d }) => {
            lemma_reduce_frac(n + i * d, d);
        },
        (NumV::Rational { n, d }, NumV::Integer { i }) => {
            lemma_reduce_frac(n + i * d, d);
        },
        (NumV::Rational { n: n1, d: d1 }, NumV::Rational { n: n2, d: d2 }) => {
            assert(d1 * d2 >= 1) by (nonlinear_arith)
                requires
                    d1 >= 1,
                    d2 >= 1,
            ;
            lemma_reduce_frac(n1 * d2 + n2 * d1, d1 * d2);
        },
        _ => {},
    }
}

/// Multiplication of well-formed numbers yields a well-formed number.
pub proof fn lemma_num_mul_wf(a: NumV, b: NumV)
    requires
        num_wf(a),
        num_wf(b),
    ensures
        num_wf(num_mul(a, b)),
{
    match (a, b) {
        (NumV::Integer { i }, NumV::Rational { n, d }) => {
            lemma_reduce_frac(i * n, d);
        },
        (NumV::Rational { n, d }, NumV::Integer { i }) => {
            lemma_reduce_frac(i * n, d);
        },
        (NumV::Rational { n: n1, d: d1 }, NumV::Rational { n: n2, d: d2 }) => {
            assert(d1 * d2 >= 1) by (nonlinear_arith)
                requires
                    d1 >= 1,
                    d2 >= 1,
            ;
            lemma_reduce_frac(n1 * n2, d1 * d2);
        },
        _ => {},
    }
}

/// A product of nonzero well-formed numbers is nonzero.
pub proof fn lemma_num_mul_nonzero(a: NumV, b: NumV)
    requires
        num_wf(a),
        num_wf(b),
        !num_is_zero(a),
        !num_is_zero(b),
    ensures
        !num_is_zero(num_mul(a, b)),
{
    match (a, b) {
        (NumV::Integer { i }, NumV::Integer { i: j }) => {
            assert(i * j != 0) by (nonlinear_arith)
                requires
                    i != 0,
                    j != 0,
            ;
        },
        (NumV::Integer { i }, NumV::Rational { n, d }) => {
            assert(i * n != 0) by (nonlinear_arith)
                requires
                    i != 0,
                    n != 0,
            ;
            lemma_mk_rat_nonzero(i * n, d);
        },
        (NumV::Rational { n, d }, NumV::Integer { i }) => {
            assert(i * n != 0) by (nonlinear_arith)
                requires
                    i != 0,
                    n != 0,
            ;
            lemma_mk_rat_nonzero(i * n, d);
        },
        (NumV::Rational { n: n1, d: d1 }, NumV::Rational { n: n2, d: d2 }) => {
            assert(d1 * d2 >= 1 && n1 * n2 != 0) by (nonlinear_arith)
                requires
                    d1 >= 1,
                    d2 >= 1,
                    n1 != 0,
                    n2 != 0,
            ;
            lemma_mk_rat_nonzero(n1 * n2, d1 * d2);
        },
        _ => {},
    }
}

/// Reducing a fraction with a nonzero numerator keeps it nonzero.
proof fn lemma_mk_rat_nonzero(n: int, d: int)
    requires
        d >= 1,
        n != 0,
    ensures
        !num_is_zero(mk_rat(n, d)),
{
    lemma_reduce_frac(n, d);
    let p = crate::number::reduce_frac(n, d);
    assert(p.0 != 0) by (nonlinear_arith)
        requires
            n * p.1 == p.0 * d,
            n != 0,
            p.1 >= 1,
            d >= 1,
    ;
}

/// Transfers a pointwise property across lists with the same members.
proof fn lemma_all_pred_multiset(a: Seq<NodeV>, b: Seq<NodeV>, p: spec_fn(NodeV) -> bool)
    requires
        a.to_multiset() == b.to_multiset(),
        forall|i: int| 0 <= i < a.len() ==> p(#[trigger] a[i]),
    ensures
        forall|i: int| 0 <= i < b.len() ==> p(#[trigger] b[i]),
{
    broadcast use vstd::seq_lib::group_to_multiset_ensures;

    assert forall|i: int| 0 <= i < b.len() implies p(#[trigger] b[i]) by {
        assert(b.contains(b[i]));
        assert(b.to_multiset().count(b[i]) > 0);
        assert(a.to_multiset().count(b[i]) > 0);
        assert(a.contains(b[i]));
        let j = choose|j: int| 0 <= j < a.len() && a[j] == b[i];
        assert(p(a[j]));
    }
}

/// Removing one element removes its contribution to the number count.
proof fn lemma_num_count_remove(s: Seq<NodeV>, i: int)
    requires
        0 <= i < s.len(),
    ensures
        num_count(s.remove(i)) == num_count(s) - (if s[i] is Num {
            1int
        } else {
            0int
        }),
    decreases s.len(),
{
    if i == 0 {
        assert(s.remove(0) =~= s.subrange(1, s.len() as int));
    } else {
        let tail = s.subrange(1, s.len() as int);
        lemma_num_count_remove(tail, i - 1);
        assert(s.remove(i).subrange(1, s.remove(i).len() as int) =~= tail.remove(i - 1));
        assert(s.remove(i)[0] == s[0]);
    }
}

/// Appending one element adds its contribution to the number count.
proof fn lemma_num_count_push(s: Seq<NodeV>, x: NodeV)
    ensures
        num_count(s.push(x)) == num_count(s) + (if x is Num {
            1int
        } else {
            0int
        }),
{
    lemma_num_count_remove(s.push(x), s.len() as int);
    assert(s.push(x).remove(s.len() as int) =~= s);
    assert(s.push(x)[s.len() as int] == x);
}

/// Lists with the same members hold the same number of number leaves.
proof fn lemma_num_count_multiset(a: Seq<NodeV>, b: Seq<NodeV>)
    requires
        a.to_multiset() == b.to_multiset(),
    ensures
        num_count(a) == num_count(b),
    decreases a.len(),
{
    broadcast use vstd::seq_lib::group_to_multiset_ensures;
    broadcast use vstd::multiset::group_multiset_axioms;

    if a.len() == 0 {
        assert(b.to_multiset().len() == 0);
        assert(b =~= Seq::<NodeV>::empty());
    } else {
        assert(a.contains(a[0]));
        assert(b.to_multiset().count(a[0]) > 0);
        assert(b.contains(a[0]));
        let j = choose|j: int| 0 <= j < b.len() && b[j] == a[0];
        lemma_num_count_remove(b, j);
        lemma_num_count_remove(a, 0);
        assert(a.remove(0).to_multiset() =~= a.to_multiset().remove(a[0]));
        assert(b.remove(j).to_multiset() =~= b.to_multiset().remove(b[j]));
        lemma_num_count_multiset(a.remove(0), b.remove(j));
    }
}

/// A list without number leaves counts none.
proof fn lemma_num_count_zero(s: Seq<NodeV>)
    requires
        forall|i: int| 0 <= i < s.len() ==> !((#[trigger] s[i]) is Num),
    ensures
        num_count(s) == 0,
    decreases s.len(),
{
    if s.len() > 0 {
        let tail = s.subrange(1, s.len() as int);
        assert(forall|i: int| 0 <= i < tail.len() ==> #[trigger] tail[i] == s[i + 1]);
        lemma_num_count_zero(tail);
    }
}

/// The state a sum fold maintains: collected children are canonical, none is
/// a nested sum or a number, and the coefficient is well-formed.
pub open spec fn good_plus_state(kept: Seq<NodeV>, coef: Option<NumV>) -> bool {
    &&& forall|i: int|
        0 <= i < kept.len() ==> is_canonical(#[trigger] kept[i]) && !(kept[i] is Plus) && !(kept[i]
            is Num)
    &&& (match coef {
        Some(k) => num_wf(k),
        None => true,
    })
}

/// The state a product fold maintains: as for sums, and the coefficient is
/// never zero (a zero factor would have ended the product instead).
pub open spec fn good_times_state(kept: Seq<NodeV>, coef: Option<NumV>) -> bool {
    &&& forall|i: int|
        0 <= i < kept.len() ==> is_canonical(#[trigger] kept[i]) && !(kept[i] is Times) && !(
        kept[i] is Num)
    &&& (match coef {
        Some(k) => num_wf(k) && !num_is_zero(k),
        None => true,
    })
}

/// Splicing canonical children into a sum keeps the fold state good.
proof fn lemma_splice_plus_good(ts: Seq<NodeV>, kept: Seq<NodeV>, coef: Option<NumV>)
    requires
        canonical_all(ts),
        forall|i: int| 0 <= i < ts.len() ==> !((#[trigger] ts[i]) is Plus),
        good_plus_state(kept, coef),
    ensures
        (match plus_splice(ts, kept, coef) {
            Some((k2, c2)) => good_plus_state(k2, c2),
            None => true,
        }),
    decreases ts,
{
    broadcast use lemma_canonical_all;

    if ts.len() > 0 {
        let tail = ts.subrange(1, ts.len() as int);
        assert(forall|i: int| 0 <= i < tail.len() ==> #[trigger] tail[i] == ts[i + 1]);
        match plus_step(ts[0], kept, coef) {
            None => {},
            Some((k2, c2)) => {
                match ts[0] {
                    NodeV::Num { value } => {
                        match coef {
                            Some(k) => {
                                lemma_num_add_wf(k, value);
                            },
                            None => {},
                        }
                    },
                    _ => {
                        assert(forall|i: int|
                            0 <= i < kept.len() ==> #[trigger] kept.push(ts[0])[i] == kept[i]);
                        assert(kept.push(ts[0])[kept.len() as int] == ts[0]);
                    },
                }
                lemma_splice_plus_good(tail, k2, c2);
            },
        }
    }
}

/// Splicing canonical children into a product keeps the fold state good.
proof fn lemma_splice_times_good(ts: Seq<NodeV>, kept: Seq<NodeV>, coef: Option<NumV>)
    requires
        canonical_all(ts),
        forall|i: int| 0 <= i < ts.len() ==> !((#[trigger] ts[i]) is Times),
        good_times_state(kept, coef),
    ensures
        (match times_splice(ts, kept, coef) {
            TimesFold::Keep { kept: k2, coef: c2 } => good_times_state(k2, c2),
            _ => true,
        }),
    decreases ts,
{
    broadcast use lemma_canonical_all;

    if ts.len() > 0 {
        let tail = ts.subrange(1, ts.len() as int);
        assert(forall|i: int| 0 <= i < tail.len() ==> #[trigger] tail[i] == ts[i + 1]);
        match times_step(ts[0], kept, coef) {
            TimesFold::Keep { kept: k2, coef: c2 } => {
                match ts[0] {
                    NodeV::Num { value } => {
                        if !num_is_one(value) && !num_is_zero(value) {
                            match coef {
                                Some(k) => {
                                    lemma_num_mul_wf(k, value);
                                    lemma_num_mul_nonzero(k, value);
                                },
                                None => {},
                            }
                        }
                    },
                    _ => {
                        assert(forall|i: int|
                            0 <= i < kept.len() ==> #[trigger] kept.push(ts[0])[i] == kept[i]);
                        assert(kept.push(ts[0])[kept.len() as int] == ts[0]);
                    },
                }
                lemma_splice_times_good(tail, k2, c2);
            },
            _ => {},
        }
    }
}

/// Folding any well-formed children into a sum keeps the fold state good.
proof fn lemma_fold_plus_good(cs: Seq<NodeV>, kept: Seq<NodeV>, coef: Option<NumV>)
    requires
        wfv_all(cs),
        good_plus_state(kept, coef),
    ensures
        (match fold_plus(cs, kept, coef) {
            Some((k2, c2)) => good_plus_state(k2, c2),
            None => true,
        }),
    decreases cs, 1int,
{
    broadcast use lemma_wfv_all, lemma_canonical_all;

    if cs.len() > 0 {
        let tail = cs.subrange(1, cs.len() as int);
        assert(forall|i: int| 0 <= i < tail.len() ==> #[trigger] tail[i] == cs[i + 1]);
        match canon(cs[0]) {
            None => {},
            Some(c) => {
                lemma_canon_canonical(cs[0]);
                let stepped = if c is Plus {
                    plus_splice(c->terms, kept, coef)
                } else {
                    plus_step(c, kept, coef)
                };
                if c is Plus {
                    lemma_splice_plus_good(c->terms, kept, coef);
                } else {
                    match c {
                        NodeV::Num { value } => {
                            match coef {
                                Some(k) => {
                                    lemma_num_add_wf(k, value);
                                },
                                None => {},
                            }
                        },
                        _ => {
                            assert(forall|i: int|
                                0 <= i < kept.len() ==> #[trigger] kept.push(c)[i] == kept[i]);
                            assert(kept.push(c)[kept.len() as int] == c);
                        },
                    }
                }
                match stepped {
                    None => {},
                    Some((k2, c2)) => {
                        lemma_fold_plus_good(tail, k2, c2);
                    },
                }
            },
        }
    }
}

/// Folding any well-formed children into a product keeps the fold state good.
proof fn lemma_fold_times_good(cs: Seq<NodeV>, kept: Seq<NodeV>, coef: Option<NumV>)
    requires
        wfv_all(cs),
        good_times_state(kept, coef),
    ensures
        (match fold_times(cs, kept, coef) {
            TimesFold::Keep { kept: k2, coef: c2 } => good_times_state(k2, c2),
            _ => true,
        }),
    decreases cs, 1int,
{
    broadcast use lemma_wfv_all, lemma_canonical_all;

    if cs.len() > 0 {
        let tail = cs.subrange(1, cs.len() as int);
        assert(forall|i: int| 0 <= i < tail.len() ==> #[trigger] tail[i] == cs[i + 1]);
        match canon(cs[0]) {
            None => {},
            Some(c) => {
                lemma_canon_canonical(cs[0]);
                let stepped = if c is Times {
                    times_splice(c->factors, kept, coef)
                } else {
                    times_step(c, kept, coef)
                };
                if c is Times {
                    lemma_splice_times_good(c->factors, kept, coef);
                } else {
                    match c {
                        NodeV::Num { value } => {
                            if !num_is_one(value) && !num_is_zero(value) {
                                match coef {
                                    Some(k) => {
                                        lemma_num_mul_wf(k, value);
                                        lemma_num_mul_nonzero(k, value);
                                    },
                                    None => {},
                                }
                            }
                        },
                        _ => {
                            assert(forall|i: int|
                                0 <= i < kept.len() ==> #[trigger] kept.push(c)[i] == kept[i]);
                            assert(kept.push(c)[kept.len() as int] == c);
                        },
                    }
                }
                match stepped {
                    TimesFold::Keep { kept: k2, coef: c2 } => {
                        lemma_fold_times_good(tail, k2, c2);
                    },
                    _ => {},
                }
            },
        }
    }
}

/// A good final fold state assembles into a canonical sum.
proof fn lemma_finish_plus_canonical(kept: Seq<NodeV>, coef: Option<NumV>)
    requires
        good_plus_state(kept, coef),
    ensures
        is_canonical(finish_plus(kept, coef)),
{
    broadcast use lemma_canonical_all, lemma_wfv_all;

    let out = match coef {
        Some(k) => if num_is_zero(k) {
            kept
        } else {
            kept.push(normal_num(k))
        },
        None => kept,
    };
    // every element of `out` is canonical, not a sum, and not a zero number
    lemma_num_count_zero(kept);
    match coef {
        Some(k) => {
            if !num_is_zero(k) {
                assert(is_canonical(normal_num(k)) && !num_is_zero(normal_num(k)->value));
                assert(forall|i: int|
                    0 <= i < kept.len() ==> #[trigger] kept.push(normal_num(k))[i] == kept[i]);
                assert(kept.push(normal_num(k))[kept.len() as int] == normal_num(k));
                lemma_num_count_push(kept, normal_num(k));
            }
        },
        None => {},
    }
    if out.len() >= 2 {
        assert forall|i: int| 0 <= i < out.len() implies wfv(#[trigger] out[i]) by {
            lemma_canonical_wfv(out[i]);
        }
        lemma_wfv_all(out);
        lemma_sort_seq(out);
        let st = sort_seq(out);
        lemma_all_pred_multiset(
            out,
            st,
            |x: NodeV|
                is_canonical(x) && !(x is Plus) && (x matches NodeV::Num { value }
                    ==> !num_is_zero(value)),
        );
        lemma_num_count_multiset(out, st);
        lemma_canonical_all(st);
        assert(st.len() >= 2);
        assert(sorted(st));
        assert(canonical_all(st));
        assert(num_count(st) <= 1);
        assert(forall|i: int| 0 <= i < st.len() ==> !((#[trigger] st[i]) is Plus));
        assert(forall|i: int|
            0 <= i < st.len() ==> ((#[trigger] st[i]) matches NodeV::Num { value }
                ==> !num_is_zero(value)));
        assert(is_canonical(NodeV::Plus { terms: st }));
    }
}

/// A good final fold state assembles into a canonical product.
proof fn lemma_finish_times_canonical(kept: Seq<NodeV>, coef: Option<NumV>)
    requires
        good_times_state(kept, coef),
    ensures
        is_canonical(finish_times(kept, coef)),
{
    broadcast use lemma_canonical_all, lemma_wfv_all;

    let out = match coef {
        Some(k) => if num_is_one(k) {
            kept
        } else {
            kept.push(normal_num(k))
        },
        None => kept,
    };
    lemma_num_count_zero(kept);
    match coef {
        Some(k) => {
            if !num_is_one(k) {
                assert(is_canonical(normal_num(k)) && !num_is_zero(normal_num(k)->value)
                    && !num_is_one(normal_num(k)->value));
                assert(forall|i: int|
                    0 <= i < kept.len() ==> #[trigger] kept.push(normal_num(k))[i] == kept[i]);
                assert(kept.push(normal_num(k))[kept.len() as int] == normal_num(k));
                lemma_num_count_push(kept, normal_num(k));
            }
        },
        None => {},
    }
    if out.len() >= 2 {
        assert forall|i: int| 0 <= i < out.len() implies wfv(#[trigger] out[i]) by {
            lemma_canonical_wfv(out[i]);
        }
        lemma_wfv_all(out);
        lemma_sort_seq(out);
        let st = sort_seq(out);
        lemma_all_pred_multiset(
            out,
            st,
            |x: NodeV|
                is_canonical(x) && !(x is Times) && (x matches NodeV::Num { value }
                    ==> !num_is_zero(value) && !num_is_one(value)),
        );
        lemma_num_count_multiset(out, st);
        lemma_canonical_all(st);
        assert(st.len() >= 2);
        assert(sorted(st));
        assert(canonical_all(st));
        assert(num_count(st) <= 1);
        assert(forall|i: int| 0 <= i < st.len() ==> !((#[trigger] st[i]) is Times));
        assert(forall|i: int|
            0 <= i < st.len() ==> ((#[trigger] st[i]) matches NodeV::Num { value }
                ==> !num_is_zero(value) && !num_is_one(value)));
        assert(is_canonical(NodeV::Times { factors: st }));
    }
}

/// LAW (normalization): canonicalizing a well-formed tree yields a tree in
/// canonical form whenever the pass does not abort.
pub proof fn lemma_canon_canonical(v: NodeV)
    requires
        wfv(v),
    ensures
        (match canon(v) {
            Some(c) => is_canonical(c),
            None => true,
        }),
    decreases v, 2int,
{
    broadcast use lemma_wfv_all;

    match v {
        NodeV::Plus { terms } => {
            lemma_fold_plus_good(terms, Seq::empty(), None);
            match fold_plus(terms, Seq::empty(), None) {
                Some((kept, coef)) => {
                    lemma_finish_plus_canonical(kept, coef);
                },
                None => {},
            }
        },
        NodeV::Times { factors } => {
            lemma_fold_times_good(factors, Seq::empty(), None);
            match fold_times(factors, Seq::empty(), None) {
                TimesFold::Keep { kept, coef } => {
                    lemma_finish_times_canonical(kept, coef);
                },
                _ => {},
            }
        },
        NodeV::Deriv { inner, .. } => {
            lemma_canon_canonical(*inner);
        },
        _ => {},
    }
}

/// Facts about separating the number leaf from the other children: counts,
/// lengths, membership, and the multiset relation.
proof fn lemma_non_nums(s: Seq<NodeV>)
    ensures
        num_count(s) >= 0,
        (first_num(s) is None <==> num_count(s) == 0),
        num_count(s) == 0 ==> non_nums(s) == s,
        non_nums(s).len() == s.len() - num_count(s),
        num_count(s) == 1 ==> (match first_num(s) {
            Some(k) => s.to_multiset() == non_nums(s).to_multiset().insert(
                NodeV::Num { value: k },
            ),
            None => false,
        }),
        forall|i: int|
            0 <= i < non_nums(s).len() ==> s.contains(#[trigger] non_nums(s)[i]),
    decreases s,
{
    broadcast use vstd::seq_lib::group_to_multiset_ensures;
    broadcast use vstd::seq_lib::lemma_multiset_commutative;
    broadcast use vstd::multiset::group_multiset_axioms;

    if s.len() == 0 {
    } else {
        let tail = s.subrange(1, s.len() as int);
        lemma_non_nums(tail);
        assert(s =~= seq![s[0]] + tail);
        assert((seq![s[0]] + tail).to_multiset() =~= tail.to_multiset().insert(s[0]));
        assert(forall|i: int| 0 <= i < tail.len() ==> #[trigger] tail[i] == s[i + 1]);
        if s[0] is Num {
            if num_count(s) == 0 {
                assert(false);
            }
            if num_count(s) == 1 {
                assert(num_count(tail) == 0);
                assert(non_nums(s) == tail);
                let k = first_num(s)->Some_0;
                assert(s[0] == (NodeV::Num { value: k }));
            }
            assert forall|i: int| 0 <= i < non_nums(s).len() implies s.contains(
                #[trigger] non_nums(s)[i],
            ) by {
                assert(non_nums(s)[i] == non_nums(tail)[i]);
                assert(tail.contains(non_nums(tail)[i]));
                let j = choose|j: int| 0 <= j < tail.len() && tail[j] == non_nums(tail)[i];
                assert(s[j + 1] == non_nums(s)[i]);
            }
        } else {
            assert(non_nums(s) == seq![s[0]] + non_nums(tail));
            if num_count(s) == 1 {
                let k = first_num(s)->Some_0;
                assert(first_num(tail) == Some(k));
                assert(tail.to_multiset() =~= non_nums(tail).to_multiset().insert(
                    NodeV::Num { value: k },
                ));
                assert((seq![s[0]] + non_nums(tail)).to_multiset() =~= non_nums(
                    tail,
                ).to_multiset().insert(s[0]));
                assert(s.to_multiset() =~= non_nums(s).to_multiset().insert(
                    NodeV::Num { value: k },
                ));
            }
            assert forall|i: int| 0 <= i < non_nums(s).len() implies s.contains(
                #[trigger] non_nums(s)[i],
            ) by {
                if i == 0 {
                    assert(s[0] == non_nums(s)[0]);
                } else {
                    assert(non_nums(s)[i] == non_nums(tail)[i - 1]);
                    assert(tail.contains(non_nums(tail)[i - 1]));
                    let j = choose|j: int|
                        0 <= j < tail.len() && tail[j] == non_nums(tail)[i - 1];
                    assert(s[j + 1] == non_nums(s)[i]);
                }
            }
        }
    }
}

/// Splicing an already-canonical sum's children is exactly: keep the
/// non-number children in order and take the number (if any) as coefficient.
proof fn lemma_splice_plus_fix(ts: Seq<NodeV>, kept: Seq<NodeV>, coef: Option<NumV>)
    requires
        forall|i: int|
            0 <= i < ts.len() ==> !((#[trigger] ts[i]) is Plus) && (ts[i]
                matches NodeV::Num { value } ==> !num_is_zero(value)),
        num_count(ts) <= 1,
        coef is Some ==> num_count(ts) == 0,
    ensures
        plus_splice(ts, kept, coef) == Some(
            (
                kept + non_nums(ts),
                if coef is Some {
                    coef
                } else {
                    first_num(ts)
                },
            ),
        ),
    decreases ts,
{
    if ts.len() == 0 {
        assert(kept + non_nums(ts) =~= kept);
    } else {
        let tail = ts.subrange(1, ts.len() as int);
        assert(forall|i: int| 0 <= i < tail.len() ==> #[trigger] tail[i] == ts[i + 1]);
        lemma_non_nums(tail);
        match ts[0] {
            NodeV::Num { value } => {
                assert(num_count(ts) == 1 + num_count(tail));
                lemma_non_nums(ts);
                assert(coef is None);
                lemma_splice_plus_fix(tail, kept, Some(value));
            },
            _ => {
                lemma_splice_plus_fix(tail, kept.push(ts[0]), coef);
                assert(kept.push(ts[0]) + non_nums(tail) =~= kept + (seq![ts[0]] + non_nums(
                    tail,
                )));
            },
        }
    }
}

/// Splicing an already-canonical product's children, likewise.
proof fn lemma_splice_times_fix(ts: Seq<NodeV>, kept: Seq<NodeV>, coef: Option<NumV>)
    requires
        forall|i: int|
            0 <= i < ts.len() ==> !((#[trigger] ts[i]) is Times) && (ts[i]
                matches NodeV::Num { value } ==> !num_is_zero(value) && !num_is_one(value)),
        num_count(ts) <= 1,
        coef is Some ==> num_count(ts) == 0,
    ensures
        times_splice(ts, kept, coef) == (TimesFold::Keep {
            kept: kept + non_nums(ts),
            coef: if coef is Some {
                coef
            } else {
                first_num(ts)
            },
        }),
    decreases ts,
{
    if ts.len() == 0 {
        assert(kept + non_nums(ts) =~= kept);
    } else {
        let tail = ts.subrange(1, ts.len() as int);
        assert(forall|i: int| 0 <= i < tail.len() ==> #[trigger] tail[i] == ts[i + 1]);
        lemma_non_nums(tail);
        match ts[0] {
            NodeV::Num { value } => {
                assert(num_count(ts) == 1 + num_count(tail));
                lemma_non_nums(ts);
                assert(coef is None);
                lemma_splice_times_fix(tail, kept, Some(value));
            },
            _ => {
                lemma_splice_times_fix(tail, kept.push(ts[0]), coef);
                assert(kept.push(ts[0]) + non_nums(tail) =~= kept + (seq![ts[0]] + non_nums(
                    tail,
                )));
            },
        }
    }
}

/// Folding already-canonical, already-flattened children re-collects them.
proof fn lemma_fold_plus_fix(cs: Seq<NodeV>, kept: Seq<NodeV>, coef: Option<NumV>)
    requires
        canonical_all(cs),
        forall|i: int|
            0 <= i < cs.len() ==> !((#[trigger] cs[i]) is Plus) && (cs[i]
                matches NodeV::Num { value } ==> !num_is_zero(value)),
        num_count(cs) <= 1,
        coef is Some ==> num_count(cs) == 0,
    ensures
        fold_plus(cs, kept, coef) == Some(
            (
                kept + non_nums(cs),
                if coef is Some {
                    coef
                } else {
                    first_num(cs)
                },
            ),
        ),
    decreases cs, 1int,
{
    broadcast use lemma_canonical_all;

    if cs.len() == 0 {
        assert(kept + non_nums(cs) =~= kept);
    } else {
        let tail = cs.subrange(1, cs.len() as int);
        assert(forall|i: int| 0 <= i < tail.len() ==> #[trigger] tail[i] == cs[i + 1]);
        lemma_non_nums(tail);
        lemma_canon_fix(cs[0]);
        match cs[0] {
            NodeV::Num { value } => {
                assert(num_count(cs) == 1 + num_count(tail));
                lemma_non_nums(cs);
                assert(coef is None);
                lemma_fold_plus_fix(tail, kept, Some(value));
            },
            _ => {
                lemma_fold_plus_fix(tail, kept.push(cs[0]), coef);
                assert(kept.push(cs[0]) + non_nums(tail) =~= kept + (seq![cs[0]] + non_nums(
                    tail,
                )));
            },
        }
    }
}

/// Folding already-canonical, already-flattened factors re-collects them.
proof fn lemma_fold_times_fix(cs: Seq<NodeV>, kept: Seq<NodeV>, coef: Option<NumV>)
    requires
        canonical_all(cs),
        forall|i: int|
            0 <= i < cs.len() ==> !((#[trigger] cs[i]) is Times) && (cs[i]
                matches NodeV::Num { value } ==> !num_is_zero(value) && !num_is_one(value)),
        num_count(cs) <= 1,
        coef is Some ==> num_count(cs) == 0,
    ensures
        fold_times(cs, kept, coef) == (TimesFold::Keep {
            kept: kept + non_nums(cs),
            coef: if coef is Some {
                coef
            } else {
                first_num(cs)
            },
        }),
    decreases cs, 1int,
{
    broadcast use lemma_canonical_all;

    if cs.len() == 0 {
        assert(kept + non_nums(cs) =~= kept);
    } else {
        let tail = cs.subrange(1, cs.len() as int);
        assert(forall|i: int| 0 <= i < tail.len() ==> #[trigger] tail[i] == cs[i + 1]);
        lemma_non_nums(tail);
        lemma_canon_fix(cs[0]);
        match cs[0] {
            NodeV::Num { value } => {
                assert(num_count(cs) == 1 + num_count(tail));
                lemma_non_nums(cs);
                assert(coef is None);
                lemma_fold_times_fix(tail, kept, Some(value));
            },
            _ => {
                lemma_fold_times_fix(tail, kept.push(cs[0]), coef);
                assert(kept.push(cs[0]) + non_nums(tail) =~= kept + (seq![cs[0]] + non_nums(
                    tail,
                )));
            },
        }
    }
}

/// LAW (stability): a tree already in canonical form is a fixed point of
/// canonicalization.
pub proof fn lemma_canon_fix(c: NodeV)
    requires
        is_canonical(c),
    ensures
        canon(c) == Some(c),
    decreases c, 2int,
{
    broadcast use lemma_canonical_all, lemma_wfv_all;

    match c {
        NodeV::Plus { terms } => {
            lemma_fold_plus_fix(terms, Seq::empty(), None);
            lemma_non_nums(terms);
            let kept = Seq::<NodeV>::empty() + non_nums(terms);
            assert(kept =~= non_nums(terms));
            let coef = first_num(terms);
            assert forall|i: int| 0 <= i < terms.len() implies wfv(#[trigger] terms[i]) by {
                lemma_canonical_all(terms);
                assert(is_canonical(terms[i]));
                lemma_canonical_wfv(terms[i]);
            }
            lemma_wfv_all(terms);
            match coef {
                None => {
                    assert(num_count(terms) == 0);
                    assert(non_nums(terms) == terms);
                    assert(finish_plus(kept, None) == (NodeV::Plus { terms: sort_seq(terms) }));
                    lemma_sort_seq(terms);
                    lemma_sorted_unique(sort_seq(terms), terms);
                },
                Some(k) => {
                    assert(num_count(terms) == 1) by {
                        if num_count(terms) == 0 {
                            assert(false);
                        }
                    }
                    // the number child is canonical and nonzero, so the
                    // coefficient is written back unchanged
                    let knode = NodeV::Num { value: k };
                    assert(terms.to_multiset() == non_nums(terms).to_multiset().insert(knode));
                    assert(terms.to_multiset().count(knode) > 0) by {
                        broadcast use vstd::multiset::group_multiset_axioms;

                    }
                    assert(terms.contains(knode)) by {
                        broadcast use vstd::seq_lib::group_to_multiset_ensures;

                    }
                    let j = choose|j: int| 0 <= j < terms.len() && terms[j] == knode;
                    lemma_canonical_all(terms);
                    assert(is_canonical(terms[j]));
                    assert(is_canonical(knode) && !num_is_zero(k));
                    assert(normal_num(k) == knode);
                    let out = kept.push(knode);
                    assert(finish_plus(kept, Some(k)) == (NodeV::Plus { terms: sort_seq(out) }));
                    assert(out.to_multiset() =~= terms.to_multiset()) by {
                        broadcast use vstd::seq_lib::group_to_multiset_ensures;

                        assert(out.to_multiset() =~= kept.to_multiset().insert(knode));
                        assert(kept =~= non_nums(terms));
                    }
                    assert forall|i: int| 0 <= i < out.len() implies wfv(#[trigger] out[i]) by {
                        if i < kept.len() {
                            assert(terms.contains(non_nums(terms)[i]));
                            let j2 = choose|j2: int|
                                0 <= j2 < terms.len() && terms[j2] == non_nums(terms)[i];
                            assert(wfv(terms[j2]));
                        }
                    }
                    lemma_wfv_all(out);
                    lemma_sort_seq(out);
                    lemma_sorted_unique(sort_seq(out), terms);
                },
            }
        },
        NodeV::Times { factors } => {
            lemma_fold_times_fix(factors, Seq::empty(), None);
            lemma_non_nums(factors);
            let kept = Seq::<NodeV>::empty() + non_nums(factors);
            assert(kept =~= non_nums(factors));
            let coef = first_num(factors);
            assert forall|i: int| 0 <= i < factors.len() implies wfv(#[trigger] factors[i]) by {
                lemma_canonical_all(factors);
                assert(is_canonical(factors[i]));
                lemma_canonical_wfv(factors[i]);
            }
            lemma_wfv_all(factors);
            match coef {
                None => {
                    assert(num_count(factors) == 0);
                    assert(non_nums(factors) == factors);
                    assert(finish_times(kept, None) == (NodeV::Times {
                        factors: sort_seq(factors),
                    }));
                    lemma_sort_seq(factors);
                    lemma_sorted_unique(sort_seq(factors), factors);
                },
                Some(k) => {
                    assert(num_count(factors) == 1) by {
                        if num_count(factors) == 0 {
                            assert(false);
                        }
                    }
                    let knode = NodeV::Num { value: k };
                    assert(factors.to_multiset() == non_nums(factors).to_multiset().insert(
                        knode,
                    ));
                    assert(factors.to_multiset().count(knode) > 0) by {
                        broadcast use vstd::multiset::group_multiset_axioms;

                    }
                    assert(factors.contains(knode)) by {
                        broadcast use vstd::seq_lib::group_to_multiset_ensures;

                    }
                    let j = choose|j: int| 0 <= j < factors.len() && factors[j] == knode;
                    lemma_canonical_all(factors);
                    assert(is_canonical(factors[j]));
                    assert(is_canonical(knode) && !num_is_zero(k) && !num_is_one(k));
                    assert(normal_num(k) == knode);
                    let out = kept.push(knode);
                    assert(finish_times(kept, Some(k)) == (NodeV::Times {
                        factors: sort_seq(out),
                    }));
                    assert(out.to_multiset() =~= factors.to_multiset()) by {
                        broadcast use vstd::seq_lib::group_to_multiset_ensures;

                        assert(out.to_multiset() =~= kept.to_multiset().insert(knode));
                        assert(kept =~= non_nums(factors));
                    }
                    assert forall|i: int| 0 <= i < out.len() implies wfv(#[trigger] out[i]) by {
                        if i < kept.len() {
                            assert(factors.contains(non_nums(factors)[i]));
                            let j2 = choose|j2: int|
                                0 <= j2 < factors.len() && factors[j2] == non_nums(factors)[i];
                            assert(wfv(factors[j2]));
                        }
                    }
                    lemma_wfv_all(out);
                    lemma_sort_seq(out);
                    lemma_sorted_unique(sort_seq(out), factors);
                },
            }
        },
        NodeV::Deriv { inner, .. } => {
            lemma_canon_fix(*inner);
        },
        _ => {},
    }
}

/// LAW (idempotence): canonicalizing twice is canonicalizing once, for every
/// well-formed tree.
pub proof fn lemma_canonicalize_idempotent(v: NodeV)
    requires
        wfv(v),
    ensures
        full_canon(full_canon(v)) == full_canon(v),
{
    match canon(v) {
        None => {
        },
        Some(c) => {
            lemma_canon_canonical(v);
            lemma_canon_fix(c);
        },
    }
}

/// The only canonical zero is the integer zero.
proof fn lemma_canonical_zero(v: NodeV)
    requires
        is_canonical(v),
        v matches NodeV::Num { value } && num_is_zero(value),
    ensures
        v == (NodeV::Num { value: NumV::Integer { i: 0 } }),
{
    match v {
        NodeV::Num { value } => {
            match value {
                NumV::Rational { n, d } => {
                    // a reduced zero has denominator one, which canonical form excludes
                    assert(crate::number::same_ratio(n, d, 0, 1));
                    if d >= 2 {
                        assert(false);
                    }
                },
                _ => {},
            }
        },
        _ => {},
    }
}

/// The only canonical one is the integer one.
proof fn lemma_canonical_one(v: NodeV)
    requires
        is_canonical(v),
        v matches NodeV::Num { value } && num_is_one(value),
    ensures
        v == (NodeV::Num { value: NumV::Integer { i: 1 } }),
{
    match v {
        NodeV::Num { value } => {
            match value {
                NumV::Rational { n, d } => {
                    assert(crate::number::same_ratio(n, d, 1, 1));
                    if d >= 2 {
                        assert(false);
                    }
                },
                _ => {},
            }
        },
        _ => {},
    }
}

/// Re-assembling the separated children of a canonical sum gives it back.
proof fn lemma_rebuild_plus(terms: Seq<NodeV>)
    requires
        is_canonical(NodeV::Plus { terms }),
    ensures
        finish_plus(non_nums(terms), first_num(terms)) == (NodeV::Plus { terms }),
{
    broadcast use lemma_canonical_all, lemma_wfv_all;

    lemma_non_nums(terms);
    let kept = non_nums(terms);
    let coef = first_num(terms);
    assert forall|i: int| 0 <= i < terms.len() implies wfv(#[trigger] terms[i]) by {
        lemma_canonical_all(terms);
        assert(is_canonical(terms[i]));
        lemma_canonical_wfv(terms[i]);
    }
    lemma_wfv_all(terms);
    match coef {
        None => {
            assert(num_count(terms) == 0);
            assert(non_nums(terms) == terms);
            lemma_sort_seq(terms);
            lemma_sorted_unique(sort_seq(terms), terms);
        },
        Some(k) => {
            assert(num_count(terms) == 1) by {
                if num_count(terms) == 0 {
                    assert(false);
                }
            }
            let knode = NodeV::Num { value: k };
            assert(terms.to_multiset() == non_nums(terms).to_multiset().insert(knode));
            assert(terms.to_multiset().count(knode) > 0) by {
                broadcast use vstd::multiset::group_multiset_axioms;

            }
            assert(terms.contains(knode)) by {
                broadcast use vstd::seq_lib::group_to_multiset_ensures;

            }
            let j = choose|j: int| 0 <= j < terms.len() && terms[j] == knode;
            lemma_canonical_all(terms);
            assert(is_canonical(terms[j]));
            assert(is_canonical(knode) && !num_is_zero(k));
            assert(normal_num(k) == knode);
            let out = kept.push(knode);
            assert(out.to_multiset() =~= terms.to_multiset()) by {
                broadcast use vstd::seq_lib::group_to_multiset_ensures;

            }
            assert forall|i: int| 0 <= i < out.len() implies wfv(#[trigger] out[i]) by {
                if i < kept.len() {
                    assert(terms.contains(non_nums(terms)[i]));
                    let j2 = choose|j2: int|
                        0 <= j2 < terms.len() && terms[j2] == non_nums(terms)[i];
                    assert(wfv(terms[j2]));
                }
            }
            lemma_wfv_all(out);
            lemma_sort_seq(out);
            lemma_sorted_unique(sort_seq(out), terms);
        },
    }
}

/// Re-assembling the separated children of a canonical product gives it back.
proof fn lemma_rebuild_times(factors: Seq<NodeV>)
    requires
        is_canonical(NodeV::Times { factors }),
    ensures
        finish_times(non_nums(factors), first_num(factors)) == (NodeV::Times { factors }),
{
    broadcast use lemma_canonical_all, lemma_wfv_all;

    lemma_non_nums(factors);
    let kept = non_nums(factors);
    let coef = first_num(factors);
    assert forall|i: int| 0 <= i < factors.len() implies wfv(#[trigger] factors[i]) by {
        lemma_canonical_all(factors);
        assert(is_canonical(factors[i]));
        lemma_canonical_wfv(factors[i]);
    }
    lemma_wfv_all(factors);
    match coef {
        None => {
            assert(num_count(factors) == 0);
            assert(non_nums(factors) == factors);
            lemma_sort_seq(factors);
            lemma_sorted_unique(sort_seq(factors), factors);
        },
        Some(k) => {
            assert(num_count(factors) == 1) by {
                if num_count(factors) == 0 {
                    assert(false);
                }
            }
            let knode = NodeV::Num { value: k };
            assert(factors.to_multiset() == non_nums(factors).to_multiset().insert(knode));
            assert(factors.to_multiset().count(knode) > 0) by {
                broadcast use vstd::multiset::group_multiset_axioms;

            }
            assert(factors.contains(knode)) by {
                broadcast use vstd::seq_lib::group_to_multiset_ensures;

            }
            let j = choose|j: int| 0 <= j < factors.len() && factors[j] == knode;
            lemma_canonical_all(factors);
            assert(is_canonical(factors[j]));
            assert(is_canonical(knode) && !num_is_zero(k) && !num_is_one(k));
            assert(normal_num(k) == knode);
            let out = kept.push(knode);
            assert(out.to_multiset() =~= factors.to_multiset()) by {
                broadcast use vstd::seq_lib::group_to_multiset_ensures;

            }
            assert forall|i: int| 0 <= i < out.len() implies wfv(#[trigger] out[i]) by {
                if i < kept.len() {
                    assert(factors.contains(non_nums(factors)[i]));
                    let j2 = choose|j2: int|
                        0 <= j2 < factors.len() && factors[j2] == non_nums(factors)[i];
                    assert(wfv(factors[j2]));
                }
            }
            lemma_wfv_all(out);
            lemma_sort_seq(out);
            lemma_sorted_unique(sort_seq(out), factors);
        },
    }
}

/// The additive identity as a tree.
pub open spec fn zero_node() -> NodeV {
    NodeV::Num { value: NumV::Integer { i: 0 } }
}

/// The multiplicative identity as a tree.
pub open spec fn one_node() -> NodeV {
    NodeV::Num { value: NumV::Integer { i: 1 } }
}

/// Folding one canonical child into the empty sum state, then assembling,
/// gives that child back.
proof fn lemma_plus_one_child(cx: NodeV)
    requires
        is_canonical(cx),
    ensures
        (match (if cx is Plus {
            plus_splice(cx->terms, Seq::empty(), None)
        } else {
            plus_step(cx, Seq::empty(), None)
        }) {
            Some((kept, coef)) => finish_plus(kept, coef) == cx,
            None => false,
        }),
{
    broadcast use lemma_canonical_all;

    if cx is Plus {
        lemma_splice_plus_fix(cx->terms, Seq::empty(), None);
        lemma_non_nums(cx->terms);
        assert(Seq::empty() + non_nums(cx->terms) =~= non_nums(cx->terms));
        lemma_rebuild_plus(cx->terms);
    } else {
        match cx {
            NodeV::Num { value } => {
                if num_is_zero(value) {
                    lemma_canonical_zero(cx);
                } else {
                    assert(normal_num(value) == cx);
                    assert(Seq::empty().push(cx) =~= seq![cx]);
                }
            },
            _ => {
                assert(Seq::empty().push(cx) =~= seq![cx]);
            },
        }
    }
}

/// Folding one canonical child into the empty product state, then assembling,
/// gives that child back (unless it is zero, which ends the product).
proof fn lemma_times_one_child(cx: NodeV)
    requires
        is_canonical(cx),
    ensures
        (match (if cx is Times {
            times_splice(cx->factors, Seq::empty(), None)
        } else {
            times_step(cx, Seq::empty(), None)
        }) {
            TimesFold::Keep { kept, coef } => finish_times(kept, coef) == cx,
            TimesFold::Short => cx == zero_node(),
            TimesFold::Abort => false,
        }),
{
    broadcast use lemma_canonical_all;

    if cx is Times {
        lemma_splice_times_fix(cx->factors, Seq::empty(), None);
        lemma_non_nums(cx->factors);
        assert(Seq::empty() + non_nums(cx->factors) =~= non_nums(cx->factors));
        lemma_rebuild_times(cx->factors);
    } else {
        match cx {
            NodeV::Num { value } => {
                if num_is_one(value) {
                    lemma_canonical_one(cx);
                } else if num_is_zero(value) {
                    lemma_canonical_zero(cx);
                } else {
                    assert(normal_num(value) == cx);
                    assert(Seq::empty().push(cx) =~= seq![cx]);
                }
            },
            _ => {
                assert(Seq::empty().push(cx) =~= seq![cx]);
            },
        }
    }
}

/// LAW (identity elimination, sums): adding zero changes nothing, up to
/// canonical form.
pub proof fn lemma_plus_zero_identity(x: NodeV)
    requires
        wfv(x),
    ensures
        full_canon(NodeV::Plus { terms: seq![x, zero_node()] }) == full_canon(x),
{
    let cs = seq![x, zero_node()];
    assert(cs[0] == x);
    assert(cs.subrange(1, 2)[0] == zero_node());
    assert(cs.subrange(1, 2).subrange(1, 1) =~= Seq::<NodeV>::empty());
    match canon(x) {
        None => {},
        Some(cx) => {
            lemma_canon_canonical(x);
            lemma_plus_one_child(cx);
            match (if cx is Plus {
                plus_splice(cx->terms, Seq::empty(), None)
            } else {
                plus_step(cx, Seq::empty(), None)
            }) {
                Some((kept, coef)) => {
                    // the zero leaf is dropped, so the fold ends in the same state
                    assert(canon(zero_node()) == Some(zero_node()));
                    assert(fold_plus(Seq::<NodeV>::empty(), kept, coef) == Some((kept, coef)));
                    assert(plus_step(zero_node(), kept, coef) == Some((kept, coef)));
                    assert(fold_plus(cs.subrange(1, 2), kept, coef) == Some((kept, coef)));
                    assert(fold_plus(cs, Seq::empty(), None) == Some((kept, coef)));
                    assert(canon(NodeV::Plus { terms: cs }) == Some(finish_plus(kept, coef)));
                },
                None => {},
            }
        },
    }
}

/// LAW (identity elimination, products): multiplying by one changes nothing,
/// up to canonical form.
pub proof fn lemma_times_one_identity(x: NodeV)
    requires
        wfv(x),
    ensures
        full_canon(NodeV::Times { factors: seq![x, one_node()] }) == full_canon(x),
{
    let cs = seq![x, one_node()];
    assert(cs[0] == x);
    assert(cs.subrange(1, 2)[0] == one_node());
    assert(cs.subrange(1, 2).subrange(1, 1) =~= Seq::<NodeV>::empty());
    match canon(x) {
        None => {},
        Some(cx) => {
            lemma_canon_canonical(x);
            lemma_times_one_child(cx);
            match (if cx is Times {
                times_splice(cx->factors, Seq::empty(), None)
            } else {
                times_step(cx, Seq::empty(), None)
            }) {
                TimesFold::Keep { kept, coef } => {
                    assert(canon(one_node()) == Some(one_node()));
                    assert(fold_times(Seq::<NodeV>::empty(), kept, coef) == (TimesFold::Keep {
                        kept,
                        coef,
                    }));
                    assert(times_step(one_node(), kept, coef) == (TimesFold::Keep {
                        kept,
                        coef,
                    }));
                    assert(fold_times(cs.subrange(1, 2), kept, coef) == (TimesFold::Keep {
                        kept,
                        coef,
                    }));
                    assert(fold_times(cs, Seq::empty(), None) == (TimesFold::Keep {
                        kept,
                        coef,
                    }));
                    assert(canon(NodeV::Times { factors: cs }) == Some(
                        finish_times(kept, coef),
                    ));
                },
                TimesFold::Short => {
                    assert(fold_times(cs, Seq::empty(), None) == TimesFold::Short);
                    assert(canon(NodeV::Times { factors: cs }) == Some(zero_node()));
                },
                TimesFold::Abort => {},
            }
        },
    }
}

/// LAW (absorption): a zero factor collapses the whole product to zero — for
/// any tree whose own canonicalization does not abort; a leading undefined
/// part is reached first and still aborts the pass.
pub proof fn lemma_times_zero_absorbs(x: NodeV)
    requires
        wfv(x),
        canon(x) is Some,
    ensures
        full_canon(NodeV::Times { factors: seq![x, zero_node()] }) == zero_node(),
{
    let cs = seq![x, zero_node()];
    assert(cs[0] == x);
    assert(cs.subrange(1, 2)[0] == zero_node());
    let cx = canon(x)->Some_0;
    lemma_canon_canonical(x);
    lemma_times_one_child(cx);
    match (if cx is Times {
        times_splice(cx->factors, Seq::empty(), None)
    } else {
        times_step(cx, Seq::empty(), None)
    }) {
        TimesFold::Keep { kept, coef } => {
            assert(canon(zero_node()) == Some(zero_node()));
            assert(times_step(zero_node(), kept, coef) == TimesFold::Short);
            assert(fold_times(cs.subrange(1, 2), kept, coef) == TimesFold::Short);
            assert(fold_times(cs, Seq::empty(), None) == TimesFold::Short);
            assert(canon(NodeV::Times { factors: cs }) == Some(zero_node()));
        },
        TimesFold::Short => {
            assert(fold_times(cs, Seq::empty(), None) == TimesFold::Short);
            assert(canon(NodeV::Times { factors: cs }) == Some(zero_node()));
        },
        TimesFold::Abort => {},
    }
}

/// LAW (abort precedence): an undefined part standing before the zero factor
/// is reached first, and the whole result is undefined.
pub proof fn lemma_times_undefined_before_zero(x: NodeV)
    ensures
        full_canon(NodeV::Times { factors: seq![NodeV::Undef, x] }) == NodeV::Undef,
{
    let cs = seq![NodeV::Undef, x];
    assert(cs[0] == NodeV::Undef);
    assert(canon(NodeV::Undef) is None);
    assert(fold_times(cs, Seq::empty(), None) == TimesFold::Abort);
    assert(canon(NodeV::Times { factors: cs }) is None);
}

/// LAW (coefficient folding): numeric terms fold into one coefficient; two
/// and three fold to five whatever else is in the sum.
pub proof fn lemma_plus_fold_coefficients(x: NodeV)
    requires
        wfv(x),
    ensures
        full_canon(
            NodeV::Plus {
                terms: seq![
                    NodeV::Num { value: NumV::Integer { i: 2 } },
                    NodeV::Num { value: NumV::Integer { i: 3 } },
                    x,
                ],
            },
        ) == full_canon(
            NodeV::Plus { terms: seq![NodeV::Num { value: NumV::Integer { i: 5 } }, x] },
        ),
{
    let two = NodeV::Num { value: NumV::Integer { i: 2 } };
    let three = NodeV::Num { value: NumV::Integer { i: 3 } };
    let five = NodeV::Num { value: NumV::Integer { i: 5 } };
    let a = seq![two, three, x];
    let b = seq![five, x];
    assert(canon(two) == Some(two));
    assert(canon(three) == Some(three));
    assert(canon(five) == Some(five));
    assert(a[0] == two);
    assert(a.subrange(1, 3)[0] == three);
    assert(a.subrange(1, 3).subrange(1, 2) =~= a.subrange(2, 3));
    assert(a.subrange(2, 3)[0] == x);
    assert(b[0] == five);
    assert(b.subrange(1, 2)[0] == x);
    assert(a.subrange(2, 3).subrange(1, 1) =~= Seq::<NodeV>::empty());
    assert(b.subrange(1, 2).subrange(1, 1) =~= Seq::<NodeV>::empty());
    // after the numeric prefix, both folds stand in the same state
    assert(num_add(NumV::Integer { i: 2 }, NumV::Integer { i: 3 }) == Some(
        NumV::Integer { i: 5 },
    ));
    assert(plus_step(two, Seq::empty(), None) == Some(
        (Seq::<NodeV>::empty(), Some(NumV::Integer { i: 2 })),
    ));
    assert(plus_step(three, Seq::empty(), Some(NumV::Integer { i: 2 })) == Some(
        (Seq::<NodeV>::empty(), Some(NumV::Integer { i: 5 })),
    ));
    assert(fold_plus(a, Seq::empty(), None) == fold_plus(
        a.subrange(1, 3),
        Seq::empty(),
        Some(NumV::Integer { i: 2 }),
    ));
    assert(fold_plus(a.subrange(1, 3), Seq::empty(), Some(NumV::Integer { i: 2 }))
        == fold_plus(a.subrange(2, 3), Seq::empty(), Some(NumV::Integer { i: 5 })));
    assert(plus_step(five, Seq::empty(), None) == Some(
        (Seq::<NodeV>::empty(), Some(NumV::Integer { i: 5 })),
    ));
    assert(fold_plus(b, Seq::empty(), None) == fold_plus(
        b.subrange(1, 2),
        Seq::empty(),
        Some(NumV::Integer { i: 5 }),
    ));
    assert(a.subrange(2, 3) =~= b.subrange(1, 2));
}

/// LAW (no like-term merging): a sum of one symbol with itself stays exactly
/// that sum; only numeric coefficients fold.
pub proof fn lemma_plus_keeps_like_terms(name: Seq<char>)
    ensures
        full_canon(
            NodeV::Plus { terms: seq![NodeV::Sym { name }, NodeV::Sym { name }] },
        ) == (NodeV::Plus { terms: seq![NodeV::Sym { name }, NodeV::Sym { name }] }),
{
    broadcast use lemma_canonical_all;

    let s = NodeV::Sym { name };
    let terms = seq![s, s];
    assert(terms.subrange(1, 2)[0] == s);
    assert(terms.subrange(1, 2).subrange(1, 1) =~= Seq::<NodeV>::empty());
    crate::order::lemma_cmp_refl(s);
    assert(sorted(terms));
    assert(num_count(Seq::<NodeV>::empty()) == 0);
    assert(num_count(terms.subrange(1, 2)) == 0);
    assert(num_count(terms) == 0);
    lemma_canonical_all(terms);
    assert(canonical_all(terms));
    assert(is_canonical(NodeV::Plus { terms }));
    lemma_canon_fix(NodeV::Plus { terms });
}

/// A finite number as a fraction: an integer over one, a rational as itself.
pub open spec fn as_frac(v: NumV) -> (int, int) {
    match v {
        NumV::Integer { i } => (i, 1),
        NumV::Rational { n, d } => (n, d),
        NumV::Infinity { .. } => (0, 0),
    }
}

pub open spec fn finite(v: NumV) -> bool {
    !(v is Infinity)
}

/// Option-lifted addition, propagating the indeterminate case.
pub open spec fn add_opt(a: Option<NumV>, b: NumV) -> Option<NumV> {
    match a {
        None => None,
        Some(v) => num_add(v, b),
    }
}

/// The fraction of any reduced pair is itself under `mk_rat`.
proof fn lemma_mk_rat_of_reduced(n: int, d: int)
    requires
        reduced(n, d),
    ensures
        mk_rat(n, d) == (NumV::Rational { n, d }),
{
    crate::number::lemma_reduce_frac(n, d);
    crate::number::lemma_reduced_unique(
        n,
        d,
        crate::number::reduce_frac(n, d).0,
        crate::number::reduce_frac(n, d).1,
    );
}

/// The sum of two finite well-formed numbers: finite, well-formed, the same
/// variant whichever way the inputs associate (integer exactly when both
/// inputs are integers), and its fraction denotes the numeric sum.
proof fn lemma_add_frac(a: NumV, b: NumV)
    requires
        num_wf(a),
        num_wf(b),
        finite(a),
        finite(b),
    ensures
        (match num_add(a, b) {
            Some(w) => {
                &&& finite(w)
                &&& num_wf(w)
                &&& (w is Integer <==> a is Integer && b is Integer)
                &&& as_frac(w).1 >= 1
                &&& reduced(as_frac(w).0, as_frac(w).1)
                &&& crate::number::same_ratio(
                    as_frac(a).0 * as_frac(b).1 + as_frac(b).0 * as_frac(a).1,
                    as_frac(a).1 * as_frac(b).1,
                    as_frac(w).0,
                    as_frac(w).1,
                )
            },
            None => false,
        }),
{
    lemma_num_add_wf(a, b);
    match (a, b) {
        (NumV::Integer { i }, NumV::Integer { i: j }) => {
            assert(crate::number::same_ratio(i * 1 + j * 1, 1int * 1, i + j, 1));
        },
        (NumV::Integer { i }, NumV::Rational { n, d }) => {
            crate::number::lemma_reduce_frac(n + i * d, d);
            let p = crate::number::reduce_frac(n + i * d, d);
            assert(crate::number::same_ratio(i * d + n * 1, 1 * d, p.0, p.1)) by (nonlinear_arith)
                requires
                    crate::number::same_ratio(n + i * d, d, p.0, p.1),
            ;
        },
        (NumV::Rational { n, d }, NumV::Integer { i }) => {
            crate::number::lemma_reduce_frac(n + i * d, d);
            let p = crate::number::reduce_frac(n + i * d, d);
            assert(crate::number::same_ratio(n * 1 + i * d, d * 1, p.0, p.1)) by (nonlinear_arith)
                requires
                    crate::number::same_ratio(n + i * d, d, p.0, p.1),
            ;
        },
        (NumV::Rational { n: n1, d: d1 }, NumV::Rational { n: n2, d: d2 }) => {
            assert(d1 * d2 >= 1) by (nonlinear_arith)
                requires
                    d1 >= 1,
                    d2 >= 1,
            ;
            crate::number::lemma_reduce_frac(n1 * d2 + n2 * d1, d1 * d2);
        },
        _ => {},
    }
}

/// Addition of well-formed numbers is commutative.
pub proof fn lemma_add_comm(a: NumV, b: NumV)
    requires
        num_wf(a),
        num_wf(b),
    ensures
        num_add(a, b) == num_add(b, a),
{
    match (a, b) {
        (NumV::Integer { i }, NumV::Rational { n, d }) => {},
        (NumV::Rational { n: n1, d: d1 }, NumV::Rational { n: n2, d: d2 }) => {
            assert(n1 * d2 + n2 * d1 == n2 * d1 + n1 * d2);
            assert(d1 * d2 == d2 * d1) by (nonlinear_arith);
        },
        _ => {},
    }
}

/// Addition of well-formed numbers is associative, indeterminacy included.
pub proof fn lemma_add_assoc(a: NumV, b: NumV, c: NumV)
    requires
        num_wf(a),
        num_wf(b),
        num_wf(c),
    ensures
        (match num_add(a, b) {
            Some(ab) => add_opt(Some(ab), c),
            None => None,
        }) == (match num_add(b, c) {
            Some(bc) => add_opt(Some(a), bc),
            None => None,
        }),
{
    if finite(a) && finite(b) && finite(c) {
        lemma_add_frac(a, b);
        let ab = num_add(a, b)->Some_0;
        lemma_add_frac(ab, c);
        let w1 = num_add(ab, c)->Some_0;
        lemma_add_frac(b, c);
        let bc = num_add(b, c)->Some_0;
        lemma_add_frac(a, bc);
        let w2 = num_add(a, bc)->Some_0;
        let (na, da) = as_frac(a);
        let (nb, db) = as_frac(b);
        let (nc, dc) = as_frac(c);
        let (nab, dab) = as_frac(ab);
        let (nbc, dbc) = as_frac(bc);
        let (nw1, dw1) = as_frac(w1);
        let (nw2, dw2) = as_frac(w2);
        let sum = na * db * dc + nb * da * dc + nc * da * db;
        let den = da * (db * dc);
        assert(den >= 1) by (nonlinear_arith)
            requires
                den == da * (db * dc),
                da >= 1,
                db >= 1,
                dc >= 1,
        ;
        // the left association denotes `sum / den`
        let u = na * db + nb * da;
        let t = nab * dc + nc * dab;
        assert(u * dab == nab * (da * db));
        assert(t * dw1 == nw1 * (dab * dc));
        assert(sum == u * dc + nc * (da * db)) by (nonlinear_arith)
            requires
                sum == na * db * dc + nb * da * dc + nc * da * db,
                u == na * db + nb * da,
        ;
        assert(t * (da * db) == dab * sum) by (nonlinear_arith)
            requires
                t == nab * dc + nc * dab,
                u * dab == nab * (da * db),
                sum == u * dc + nc * (da * db),
        ;
        assert((t * dw1) * (da * db) == dab * (sum * dw1)) by (nonlinear_arith)
            requires
                t * (da * db) == dab * sum,
        ;
        assert((nw1 * (dab * dc)) * (da * db) == dab * (nw1 * den)) by (nonlinear_arith)
            requires
                den == da * (db * dc),
        ;
        assert((t * dw1) * (da * db) == (nw1 * (dab * dc)) * (da * db));
        assert(dab * (sum * dw1) == dab * (nw1 * den));
        assert(sum * dw1 == nw1 * den) by (nonlinear_arith)
            requires
                dab * (sum * dw1) == dab * (nw1 * den),
                dab >= 1,
        ;
        // the right association denotes `sum / den` as well
        let p = nb * dc + nc * db;
        let q = na * dbc + nbc * da;
        assert(p * dbc == nbc * (db * dc));
        assert(q * dw2 == nw2 * (da * dbc));
        assert(sum == na * (db * dc) + p * da) by (nonlinear_arith)
            requires
                sum == na * db * dc + nb * da * dc + nc * da * db,
                p == nb * dc + nc * db,
        ;
        assert(q * (db * dc) == dbc * sum) by (nonlinear_arith)
            requires
                q == na * dbc + nbc * da,
                p * dbc == nbc * (db * dc),
                sum == na * (db * dc) + p * da,
        ;
        assert((q * dw2) * (db * dc) == dbc * (sum * dw2)) by (nonlinear_arith)
            requires
                q * (db * dc) == dbc * sum,
        ;
        assert((nw2 * (da * dbc)) * (db * dc) == dbc * (nw2 * den)) by (nonlinear_arith)
            requires
                den == da * (db * dc),
        ;
        assert((q * dw2) * (db * dc) == (nw2 * (da * dbc)) * (db * dc));
        assert(dbc * (sum * dw2) == dbc * (nw2 * den));
        assert(sum * dw2 == nw2 * den) by (nonlinear_arith)
            requires
                dbc * (sum * dw2) == dbc * (nw2 * den),
                dbc >= 1,
        ;
        // two reduced fractions of one ratio are equal
        assert(crate::number::same_ratio(nw1, dw1, nw2, dw2)) by (nonlinear_arith)
            requires
                sum * dw1 == nw1 * den,
                sum * dw2 == nw2 * den,
                den >= 1,
        ;
        crate::number::lemma_reduced_unique(nw1, dw1, nw2, dw2);
        assert(w1 == w2);
    }
}

/// A number with its degenerate fraction written as an integer.
pub open spec fn num_norm(v: NumV) -> NumV {
    match v {
        NumV::Rational { n, d } => if d == 1 {
            NumV::Integer { i: n }
        } else {
            v
        },
        _ => v,
    }
}

/// Coefficients up to representation: zero and the empty coefficient behave
/// alike, and a degenerate fraction behaves like its integer.
pub open spec fn cnorm(c: Option<NumV>) -> Option<NumV> {
    match c {
        None => None,
        Some(v) => if num_is_zero(v) {
            None
        } else {
            Some(num_norm(v))
        },
    }
}

/// A well-formed zero is the integer zero or the fraction zero over one.
proof fn lemma_wf_zero(v: NumV)
    requires
        num_wf(v),
        num_is_zero(v),
    ensures
        v == (NumV::Integer { i: 0 }) || v == (NumV::Rational { n: 0, d: 1 }),
{
    match v {
        NumV::Rational { n, d } => {
            assert(crate::number::same_ratio(0, d, 0, 1));
            if d >= 2 {
                assert(false);
            }
        },
        _ => {},
    }
}

/// Adding a zero-valued number leaves a coefficient unchanged up to
/// representation.
proof fn lemma_add_zero(k: NumV, w: NumV)
    requires
        num_wf(k),
        num_wf(w),
        num_is_zero(w),
    ensures
        (match num_add(k, w) {
            Some(k2) => cnorm(Some(k2)) == cnorm(Some(k)) && num_wf(k2),
            None => false,
        }),
{
    lemma_wf_zero(w);
    lemma_num_add_wf(k, w);
    match k {
        NumV::Integer { i } => {
            if w == (NumV::Rational { n: 0, d: 1 }) {
                lemma_mk_rat_of_reduced(0 + i * 1, 1);
            }
        },
        NumV::Rational { n, d } => {
            if w == (NumV::Integer { i: 0 }) {
                lemma_mk_rat_of_reduced(n + 0 * d, d);
            } else {
                assert(n * 1 + 0 * d == n && d * 1 == d) by (nonlinear_arith);
                lemma_mk_rat_of_reduced(n * 1 + 0 * d, d * 1);
            }
        },
        NumV::Infinity { .. } => {},
    }
}

/// Folding a number into a coefficient respects representation: normalizing
/// the number first changes neither the abort behaviour nor the class of the
/// result.
proof fn lemma_coef_norm(c: Option<NumV>, v: NumV)
    requires
        (c matches Some(k) ==> num_wf(k)),
        num_wf(v),
        !num_is_zero(v),
    ensures
        (crate::canonicalize::plus_coef_spec(c, num_norm(v)) is None
            <==> crate::canonicalize::plus_coef_spec(c, v) is None),
        (match (
            crate::canonicalize::plus_coef_spec(c, num_norm(v)),
            crate::canonicalize::plus_coef_spec(c, v),
        ) {
            (Some(c1), Some(c2)) => cnorm(c1) == cnorm(c2) && (c1 matches Some(k1) ==> num_wf(k1))
                && (c2 matches Some(k2) ==> num_wf(k2)),
            _ => true,
        }),
{
    let vn = num_norm(v);
    match c {
        None => {},
        Some(k) => {
            lemma_num_add_wf(k, v);
            lemma_num_add_wf(k, vn);
            match v {
                NumV::Rational { n, d } => {
                    if d == 1 {
                        match k {
                            NumV::Integer { i } => {
                                lemma_mk_rat_of_reduced(n + i * 1, 1);
                            },
                            NumV::Rational { n: m, d: e } => {
                                assert(m * 1 + n * e == n * e + m && e * 1 == e)
                                    by (nonlinear_arith);
                            },
                            NumV::Infinity { .. } => {},
                        }
                    }
                },
                _ => {},
            }
        },
    }
}

/// One canonicalized child folded into a sum state (splicing a nested sum,
/// otherwise stepping).
pub open spec fn plus_child(c: NodeV, kept: Seq<NodeV>, coef: Option<NumV>) -> Option<
    (Seq<NodeV>, Option<NumV>),
> {
    if c is Plus {
        plus_splice(c->terms, kept, coef)
    } else {
        plus_step(c, kept, coef)
    }
}

/// Splicing flattened children: the non-numbers are appended and the single
/// number (if any) folds into the coefficient, aborting exactly when that
/// fold is indeterminate.
proof fn lemma_splice_plus_general(ts: Seq<NodeV>, kept: Seq<NodeV>, coef: Option<NumV>)
    requires
        forall|i: int|
            0 <= i < ts.len() ==> !((#[trigger] ts[i]) is Plus) && (ts[i]
                matches NodeV::Num { value } ==> !num_is_zero(value)),
        num_count(ts) <= 1,
    ensures
        (match first_num(ts) {
            None => plus_splice(ts, kept, coef) == Some((kept + non_nums(ts), coef)),
            Some(v) => (match crate::canonicalize::plus_coef_spec(coef, v) {
                None => plus_splice(ts, kept, coef) is None,
                Some(c2) => plus_splice(ts, kept, coef) == Some((kept + non_nums(ts), c2)),
            }),
        }),
    decreases ts,
{
    if ts.len() == 0 {
        assert(kept + non_nums(ts) =~= kept);
    } else {
        let tail = ts.subrange(1, ts.len() as int);
        assert(forall|i: int| 0 <= i < tail.len() ==> #[trigger] tail[i] == ts[i + 1]);
        lemma_non_nums(tail);
        lemma_non_nums(ts);
        match ts[0] {
            NodeV::Num { value } => {
                assert(num_count(ts) == 1 + num_count(tail));
                assert(first_num(tail) is None);
                match crate::canonicalize::plus_coef_spec(coef, value) {
                    None => {},
                    Some(c2) => {
                        lemma_splice_plus_general(tail, kept, c2);
                    },
                }
            },
            _ => {
                lemma_splice_plus_general(tail, kept.push(ts[0]), coef);
                assert(kept.push(ts[0]) + non_nums(tail) =~= kept + (seq![ts[0]] + non_nums(
                    tail,
                )));
            },
        }
    }
}

/// Folding one canonicalized child from any state is folding it from the
/// empty state and then merging: the collected children are appended and the
/// collected number (if any, always nonzero and well-formed) folds into the
/// coefficient.
proof fn lemma_plus_child_compose(cx: NodeV, kept: Seq<NodeV>, coef: Option<NumV>)
    requires
        is_canonical(cx),
    ensures
        (match plus_child(cx, Seq::empty(), None) {
            Some((k0, c0)) => {
                &&& (forall|i: int|
                    0 <= i < k0.len() ==> is_canonical(#[trigger] k0[i]) && !(k0[i] is Plus) && !(
                    k0[i] is Num))
                &&& (match c0 {
                    None => plus_child(cx, kept, coef) == Some((kept + k0, coef)),
                    Some(v) => !num_is_zero(v) && num_wf(v) && (match
                        crate::canonicalize::plus_coef_spec(coef, v) {
                        None => plus_child(cx, kept, coef) is None,
                        Some(c2) => plus_child(cx, kept, coef) == Some((kept + k0, c2)),
                    }),
                })
            },
            None => false,
        }),
{
    broadcast use lemma_canonical_all;

    if cx is Plus {
        let ts = cx->terms;
        assert(canonical_all(ts));
        lemma_canonical_all(ts);
        lemma_splice_plus_general(ts, Seq::empty(), None);
        lemma_splice_plus_general(ts, kept, coef);
        lemma_non_nums(ts);
        assert(Seq::empty() + non_nums(ts) =~= non_nums(ts));
        assert forall|i: int| 0 <= i < non_nums(ts).len() implies is_canonical(
            #[trigger] non_nums(ts)[i],
        ) && !(non_nums(ts)[i] is Plus) && !(non_nums(ts)[i] is Num) by {
            assert(ts.contains(non_nums(ts)[i]));
            let j = choose|j: int| 0 <= j < ts.len() && ts[j] == non_nums(ts)[i];
            assert(is_canonical(ts[j]));
            lemma_non_nums_not_num(ts, i);
        }
        match first_num(ts) {
            None => {},
            Some(v) => {
                // the number child of a canonical sum is nonzero and well-formed
                assert(num_count(ts) == 1) by {
                    if num_count(ts) == 0 {
                        assert(false);
                    }
                }
                let knode = NodeV::Num { value: v };
                assert(ts.to_multiset().count(knode) > 0) by {
                    broadcast use vstd::multiset::group_multiset_axioms;

                }
                assert(ts.contains(knode)) by {
                    broadcast use vstd::seq_lib::group_to_multiset_ensures;

                }
                let j = choose|j: int| 0 <= j < ts.len() && ts[j] == knode;
                assert(is_canonical(ts[j]));
            },
        }
    } else {
        match cx {
            NodeV::Num { value } => {
                if num_is_zero(value) {
                    assert(Seq::empty() + Seq::<NodeV>::empty() =~= Seq::<NodeV>::empty());
                    assert(kept + Seq::<NodeV>::empty() =~= kept);
                } else {
                    assert(kept + Seq::<NodeV>::empty() =~= kept);
                    assert(Seq::empty() + Seq::<NodeV>::empty() =~= Seq::<NodeV>::empty());
                }
            },
            _ => {
                assert(Seq::empty().push(cx) =~= seq![cx]);
                assert(kept.push(cx) =~= kept + seq![cx]);
            },
        }
    }
}

/// The non-number children are not numbers.
proof fn lemma_non_nums_not_num(s: Seq<NodeV>, i: int)
    requires
        0 <= i < non_nums(s).len(),
    ensures
        !(non_nums(s)[i] is Num),
    decreases s,
{
    if s.len() > 0 {
        let tail = s.subrange(1, s.len() as int);
        if s[0] is Num {
            lemma_non_nums_not_num(tail, i);
        } else {
            if i > 0 {
                lemma_non_nums_not_num(tail, i - 1);
            }
        }
    }
}

/// Two good fold states with the same collected children and coefficients of
/// one class assemble into the same canonicalized sum.
proof fn lemma_finish_plus_sim(
    k1: Seq<NodeV>,
    c1: Option<NumV>,
    k2: Seq<NodeV>,
    c2: Option<NumV>,
)
    requires
        good_plus_state(k1, c1),
        good_plus_state(k2, c2),
        k1.to_multiset() == k2.to_multiset(),
        cnorm(c1) == cnorm(c2),
    ensures
        finish_plus(k1, c1) == finish_plus(k2, c2),
{
    broadcast use vstd::seq_lib::group_to_multiset_ensures;
    broadcast use vstd::multiset::group_multiset_axioms;

    assert(k1.len() == k2.len()) by {
        assert(k1.to_multiset().len() == k1.len());
        assert(k2.to_multiset().len() == k2.len());
    }
    let push1 = match c1 {
        Some(k) => !num_is_zero(k),
        None => false,
    };
    let push2 = match c2 {
        Some(k) => !num_is_zero(k),
        None => false,
    };
    assert(push1 == push2);
    let out1 = if push1 {
        k1.push(normal_num(c1->Some_0))
    } else {
        k1
    };
    let out2 = if push2 {
        k2.push(normal_num(c2->Some_0))
    } else {
        k2
    };
    if push1 {
        assert(normal_num(c1->Some_0) == normal_num(c2->Some_0));
    }
    assert(out1.len() == out2.len());
    if out1.len() == 0 {
    } else if out1.len() == 1 {
        if push1 {
            assert(k1.len() == 0 && k2.len() == 0);
            assert(out1[0] == out2[0]);
        } else {
            assert(k1.to_multiset().count(k1[0]) > 0);
            assert(k2.to_multiset().count(k1[0]) > 0);
            assert(k2.contains(k1[0]));
            let j = choose|j: int| 0 <= j < k2.len() && k2[j] == k1[0];
            assert(out1[0] == out2[0]);
        }
    } else {
        let leaf1 = normal_num(c1->Some_0);
        assert(out1.to_multiset() == out2.to_multiset()) by {
            if push1 {
                assert(out1.to_multiset() =~= k1.to_multiset().insert(leaf1));
                assert(out2.to_multiset() =~= k2.to_multiset().insert(leaf1));
            }
        }
        assert forall|i: int| 0 <= i < out1.len() implies wfv(#[trigger] out1[i]) by {
            if i < k1.len() {
                lemma_canonical_wfv(k1[i]);
            } else {
                assert(num_wf(c1->Some_0));
            }
        }
        assert forall|i: int| 0 <= i < out2.len() implies wfv(#[trigger] out2[i]) by {
            if i < k2.len() {
                lemma_canonical_wfv(k2[i]);
            } else {
                assert(num_wf(c2->Some_0));
            }
        }
        lemma_wfv_all(out1);
        lemma_wfv_all(out2);
        lemma_sort_seq(out1);
        lemma_sort_seq(out2);
        lemma_sorted_unique(sort_seq(out1), sort_seq(out2));
    }
}

/// Option-lifted addition of optional coefficients; the outer `None` is the
/// indeterminate sum.
pub open spec fn osum(a: Option<NumV>, b: Option<NumV>) -> Option<Option<NumV>> {
    match (a, b) {
        (None, _) => Some(b),
        (_, None) => Some(a),
        (Some(x), Some(y)) => match num_add(x, y) {
            None => None,
            Some(z) => Some(Some(z)),
        },
    }
}

/// Folding a fold state packed into one tree back into another state appends
/// the collected children and adds the coefficients, up to representation.
proof fn lemma_pack_unpack(
    kin: Seq<NodeV>,
    cin: Option<NumV>,
    ka: Seq<NodeV>,
    va: Option<NumV>,
)
    requires
        good_plus_state(kin, cin),
        (va matches Some(x) ==> num_wf(x)),
    ensures
        (match plus_child(finish_plus(kin, cin), ka, va) {
            Some((k2, c2)) => {
                &&& osum(va, cin) is Some
                &&& k2.to_multiset() == (ka + kin).to_multiset()
                &&& cnorm(c2) == cnorm(osum(va, cin)->Some_0)
                &&& (c2 matches Some(x) ==> num_wf(x))
            },
            None => osum(va, cin) is None,
        }),
{
    broadcast use vstd::seq_lib::group_to_multiset_ensures;
    broadcast use vstd::seq_lib::lemma_multiset_commutative;
    broadcast use vstd::multiset::group_multiset_axioms;

    lemma_finish_plus_canonical(kin, cin);
    let cxp = finish_plus(kin, cin);
    let dropped = match cin {
        Some(w) => num_is_zero(w),
        None => true,
    };
    let out = if dropped {
        kin
    } else {
        kin.push(normal_num(cin->Some_0))
    };
    lemma_num_count_zero(kin);
    if dropped {
        match (va, cin) {
            (Some(x), Some(w)) => {
                lemma_add_zero(x, w);
            },
            _ => {},
        }
        // the packed tree carries no number; unpacking appends the children
        if out.len() == 0 {
            assert(cxp == zero_node());
            assert(plus_child(cxp, ka, va) == Some((ka, va)));
            assert(ka + kin =~= ka);
        } else if out.len() == 1 {
            assert(cxp == kin[0]);
            assert(plus_child(cxp, ka, va) == Some((ka.push(kin[0]), va)));
            assert(ka.push(kin[0]) =~= ka + kin);
        } else {
            lemma_plus_child_compose(cxp, ka, va);
            lemma_splice_plus_general(sort_seq(out), Seq::empty(), None);
            let st = cxp->terms;
            assert(st == sort_seq(out));
            assert forall|i: int| 0 <= i < out.len() implies wfv(#[trigger] out[i]) by {
                lemma_canonical_wfv(out[i]);
            }
            lemma_wfv_all(out);
            lemma_sort_seq(out);
            lemma_num_count_multiset(out, st);
            lemma_non_nums(st);
            assert(first_num(st) is None);
            assert(non_nums(st) == st);
            match plus_child(cxp, Seq::empty(), None) {
                Some((k0, c0)) => {
                    assert(k0 == Seq::empty() + st);
                    assert(Seq::empty() + st =~= st);
                    assert(c0 is None);
                    lemma_plus_child_compose(cxp, ka, va);
                    assert(plus_child(cxp, ka, va) == Some((ka + st, va)));
                    assert((ka + st).to_multiset() =~= (ka + kin).to_multiset());
                },
                None => {
                    assert(false);
                },
            }
        }
    } else {
        let w = cin->Some_0;
        let leaf = normal_num(w);
        assert(is_canonical(leaf) && !num_is_zero(leaf->value) && leaf->value == num_norm(w));
        assert(num_wf(num_norm(w)));
        match va {
            Some(x) => {
                lemma_coef_norm(va, w);
                lemma_num_add_wf(x, w);
                lemma_num_add_wf(x, num_norm(w));
            },
            None => {},
        }
        lemma_num_count_push(kin, leaf);
        if out.len() == 1 {
            assert(cxp == leaf);
            assert(ka + kin =~= ka);
        } else {
            let st = cxp->terms;
            assert(st == sort_seq(out));
            assert forall|i: int| 0 <= i < out.len() implies wfv(#[trigger] out[i]) by {
                lemma_canonical_wfv(out[i]);
            }
            lemma_wfv_all(out);
            lemma_sort_seq(out);
            lemma_num_count_multiset(out, st);
            lemma_non_nums(st);
            assert(num_count(st) == 1);
            let f = first_num(st)->Some_0;
            let fnode = NodeV::Num { value: f };
            assert(st.to_multiset() == non_nums(st).to_multiset().insert(fnode));
            assert(st.to_multiset().count(fnode) > 0);
            assert(out.to_multiset().count(fnode) > 0);
            assert(out.contains(fnode));
            let j = choose|j: int| 0 <= j < out.len() && out[j] == fnode;
            assert(out[j] is Num);
            assert(j == kin.len()) by {
                if j < kin.len() {
                    assert(!(kin[j] is Num));
                }
            }
            assert(fnode == leaf);
            // the non-number children of the sorted list are the collected ones
            assert(out.to_multiset() =~= kin.to_multiset().insert(leaf));
            assert(non_nums(st).to_multiset() == kin.to_multiset()) by {
                assert(non_nums(st).to_multiset().insert(fnode) == kin.to_multiset().insert(
                    leaf,
                ));
                assert forall|m: NodeV|
                    #[trigger] non_nums(st).to_multiset().count(m) == kin.to_multiset().count(
                    m,
                ) by {
                    assert(non_nums(st).to_multiset().insert(fnode).count(m) == non_nums(
                        st,
                    ).to_multiset().count(m) + (if m == fnode {
                        1int
                    } else {
                        0int
                    }));
                    assert(kin.to_multiset().insert(leaf).count(m) == kin.to_multiset().count(m)
                        + (if m == leaf {
                        1int
                    } else {
                        0int
                    }));
                }
                assert(non_nums(st).to_multiset() =~= kin.to_multiset());
            }
            lemma_plus_child_compose(cxp, ka, va);
            lemma_splice_plus_general(st, Seq::empty(), None);
            match plus_child(cxp, Seq::empty(), None) {
                Some((k0, c0)) => {
                    assert(k0 == Seq::empty() + non_nums(st));
                    assert(Seq::empty() + non_nums(st) =~= non_nums(st));
                    assert(c0 == Some(num_norm(w)));
                    match crate::canonicalize::plus_coef_spec(va, num_norm(w)) {
                        None => {},
                        Some(c2) => {
                            assert(plus_child(cxp, ka, va) == Some((ka + non_nums(st), c2)));
                            assert((ka + non_nums(st)).to_multiset() =~= ka.to_multiset().add(
                                non_nums(st).to_multiset(),
                            ));
                            assert((ka + kin).to_multiset() =~= ka.to_multiset().add(
                                kin.to_multiset(),
                            ));
                        },
                    }
                },
                None => {
                    assert(false);
                },
            }
        }
    }
}

/// LAW (commutative flattening): a sum with a nested sum among its children
/// canonicalizes exactly as the flattened sum of all the children.
#[verifier::rlimit(100)]
pub proof fn lemma_plus_flattening(a: NodeV, b: NodeV, c: NodeV)
    requires
        wfv(a),
        wfv(b),
        wfv(c),
    ensures
        full_canon(NodeV::Plus { terms: seq![a, NodeV::Plus { terms: seq![b, c] }] })
            == full_canon(NodeV::Plus { terms: seq![a, b, c] }),
{
    broadcast use lemma_wfv_all;

    let bc = seq![b, c];
    let inner = NodeV::Plus { terms: bc };
    let lt = seq![a, inner];
    let rt = seq![a, b, c];
    let lt1 = lt.subrange(1, 2);
    let rt1 = rt.subrange(1, 3);
    let rt2 = rt.subrange(2, 3);
    let bc1 = bc.subrange(1, 2);
    assert(lt[0] == a && rt[0] == a && lt1[0] == inner && rt1[0] == b && rt2[0] == c
        && bc[0] == b && bc1[0] == c);
    assert(rt1.subrange(1, 2) =~= rt2);
    assert forall|i: int| 0 <= i < bc.len() implies wfv(#[trigger] bc[i]) by {}
    lemma_wfv_all(bc);
    assert(wfv(inner));
    assert forall|i: int| 0 <= i < lt.len() implies wfv(#[trigger] lt[i]) by {}
    lemma_wfv_all(lt);
    assert forall|i: int| 0 <= i < rt.len() implies wfv(#[trigger] rt[i]) by {}
    lemma_wfv_all(rt);
    assert(lt1.subrange(1, 1) =~= Seq::<NodeV>::empty());
    assert(rt2.subrange(1, 1) =~= Seq::<NodeV>::empty());
    assert(bc1.subrange(1, 1) =~= Seq::<NodeV>::empty());
    match canon(a) {
        None => {
            assert(fold_plus(lt, Seq::empty(), None) is None);
            assert(fold_plus(rt, Seq::empty(), None) is None);
        },
        Some(ca) => {
            lemma_canon_canonical(a);
            lemma_plus_child_compose(ca, Seq::empty(), None);
            let (ka, va) = plus_child(ca, Seq::empty(), None)->Some_0;
            assert(fold_plus(lt, Seq::empty(), None) == fold_plus(lt1, ka, va));
            assert(fold_plus(rt, Seq::empty(), None) == fold_plus(rt1, ka, va));
            match canon(b) {
                None => {
                    assert(fold_plus(bc, Seq::empty(), None) is None);
                    assert(canon(inner) is None);
                    assert(fold_plus(lt1, ka, va) is None);
                    assert(fold_plus(rt1, ka, va) is None);
                },
                Some(cb) => {
                    lemma_canon_canonical(b);
                    lemma_plus_child_compose(cb, Seq::empty(), None);
                    let (kb, vb) = plus_child(cb, Seq::empty(), None)->Some_0;
                    lemma_plus_child_compose(cb, ka, va);
                    assert(fold_plus(bc, Seq::empty(), None) == fold_plus(bc1, kb, vb));
                    match canon(c) {
                        None => {
                            assert(fold_plus(bc1, kb, vb) is None);
                            assert(canon(inner) is None);
                            assert(fold_plus(lt1, ka, va) is None);
                            // the right side aborts at c whatever happened at b
                            match plus_child(cb, ka, va) {
                                Some((kab, vab)) => {
                                    assert(fold_plus(rt1, ka, va) == fold_plus(rt2, kab, vab));
                                    assert(fold_plus(rt2, kab, vab) is None);
                                },
                                None => {
                                    assert(fold_plus(rt1, ka, va) is None);
                                },
                            }
                        },
                        Some(cc) => {
                            lemma_canon_canonical(c);
                            lemma_plus_child_compose(cc, Seq::empty(), None);
                            let (kc, vc) = plus_child(cc, Seq::empty(), None)->Some_0;
                            lemma_plus_child_compose(cc, kb, vb);
                            // the inner fold's outcome
                            let istate = plus_child(cc, kb, vb);
                            // the right side's outcome after b
                            let rstate_b = plus_child(cb, ka, va);
                            // associativity ties every coefficient path together
                            match (va, vb, vc) {
                                (Some(wa), Some(x), Some(y)) => {
                                    lemma_add_assoc(wa, x, y);
                                },
                                _ => {},
                            }
                            match istate {
                                None => {
                                    // indeterminate inside the nested sum
                                    assert(vb is Some && vc is Some);
                                    let x = vb->Some_0;
                                    let y = vc->Some_0;
                                    assert(num_add(x, y) is None);
                                    assert(fold_plus(bc1, kb, vb) is None);
                                    assert(canon(inner) is None);
                                    assert(fold_plus(lt1, ka, va) is None);
                                    match rstate_b {
                                        Some((kab, vab)) => {
                                            assert(fold_plus(rt1, ka, va) == fold_plus(
                                                rt2,
                                                kab,
                                                vab,
                                            ));
                                            lemma_plus_child_compose(cc, kab, vab);
                                            assert(plus_child(cc, kab, vab) is None);
                                            assert(fold_plus(rt2, kab, vab) is None);
                                        },
                                        None => {
                                            assert(fold_plus(rt1, ka, va) is None);
                                        },
                                    }
                                },
                                Some((kin, cin)) => {
                                    assert(kin == kb + kc);
                                    assert(fold_plus(Seq::<NodeV>::empty(), kin, cin) == Some(
                                        (kin, cin),
                                    ));
                                    assert(fold_plus(bc1, kb, vb) == Some((kin, cin)));
                                    assert(fold_plus(bc, Seq::empty(), None) == Some(
                                        (kin, cin),
                                    ));
                                    assert(canon(inner) == Some(finish_plus(kin, cin)));
                                    lemma_fold_plus_good(bc, Seq::empty(), None);
                                    assert(good_plus_state(kin, cin));
                                    lemma_pack_unpack(kin, cin, ka, va);
                                    let lres = plus_child(finish_plus(kin, cin), ka, va);
                                    match rstate_b {
                                        None => {
                                            assert(va is Some && vb is Some);
                                            let wa = va->Some_0;
                                            let x = vb->Some_0;
                                            assert(num_add(wa, x) is None);
                                            assert(osum(va, cin) is None);
                                            assert(lres is None);
                                            assert(fold_plus(lt1, ka, va) is None);
                                            assert(fold_plus(rt1, ka, va) is None);
                                        },
                                        Some((kab, vab)) => {
                                            assert(kab == ka + kb);
                                            assert(fold_plus(rt1, ka, va) == fold_plus(
                                                rt2,
                                                kab,
                                                vab,
                                            ));
                                            lemma_plus_child_compose(cc, kab, vab);
                                            let rres = plus_child(cc, kab, vab);
                                            assert(osum(va, cin) is None <==> rres is None);
                                            match (lres, rres) {
                                                (Some((k2, c2)), Some((k3, c3))) => {
                                                    assert(fold_plus(
                                                        Seq::<NodeV>::empty(),
                                                        k2,
                                                        c2,
                                                    ) == Some((k2, c2)));
                                                    assert(fold_plus(lt1, ka, va) == Some(
                                                        (k2, c2),
                                                    ));
                                                    assert(fold_plus(
                                                        Seq::<NodeV>::empty(),
                                                        k3,
                                                        c3,
                                                    ) == Some((k3, c3)));
                                                    assert(fold_plus(rt2, kab, vab) == Some(
                                                        (k3, c3),
                                                    ));
                                                    assert(k3 == kab + kc);
                                                    assert(((ka + kb) + kc).to_multiset() =~= (
                                                    ka + (kb + kc)).to_multiset()) by {
                                                        assert((ka + kb) + kc =~= ka + (kb
                                                            + kc));
                                                    }
                                                    assert(c3 == osum(va, cin)->Some_0);
                                                    assert(cnorm(c2) == cnorm(c3));
                                                    lemma_fold_plus_good(
                                                        rt,
                                                        Seq::empty(),
                                                        None,
                                                    );
                                                    assert(good_plus_state(k3, c3));
                                                    lemma_fold_plus_good(
                                                        lt,
                                                        Seq::empty(),
                                                        None,
                                                    );
                                                    assert(good_plus_state(k2, c2));
                                                    lemma_finish_plus_sim(k2, c2, k3, c3);
                                                },
                                                (None, None) => {
                                                    assert(fold_plus(lt1, ka, va) is None);
                                                    assert(fold_plus(rt2, kab, vab) is None);
                                                },
                                                _ => {
                                                    assert(false);
                                                },
                                            }
                                        },
                                    }
                                },
                            }
                        },
                    }
                },
            }
        },
    }
}

/// LAW (order independence): a two-child sum canonicalizes the same whichever
/// order its children are given in.
#[verifier::rlimit(50)]
pub proof fn lemma_plus_swap(u: NodeV, v: NodeV)
    requires
        wfv(u),
        wfv(v),
    ensures
        full_canon(NodeV::Plus { terms: seq![u, v] }) == full_canon(
            NodeV::Plus { terms: seq![v, u] },
        ),
{
    broadcast use lemma_wfv_all;

    let uv = seq![u, v];
    let vu = seq![v, u];
    let uv1 = uv.subrange(1, 2);
    let vu1 = vu.subrange(1, 2);
    assert(uv[0] == u && uv1[0] == v && vu[0] == v && vu1[0] == u);
    assert(uv1.subrange(1, 1) =~= Seq::<NodeV>::empty());
    assert(vu1.subrange(1, 1) =~= Seq::<NodeV>::empty());
    assert forall|i: int| 0 <= i < uv.len() implies wfv(#[trigger] uv[i]) by {}
    lemma_wfv_all(uv);
    assert forall|i: int| 0 <= i < vu.len() implies wfv(#[trigger] vu[i]) by {}
    lemma_wfv_all(vu);
    match (canon(u), canon(v)) {
        (None, _) => {
            assert(fold_plus(uv, Seq::empty(), None) is None);
            match canon(v) {
                None => {
                    assert(fold_plus(vu, Seq::empty(), None) is None);
                },
                Some(cv) => {
                    lemma_canon_canonical(v);
                    lemma_plus_child_compose(cv, Seq::empty(), None);
                    match plus_child(cv, Seq::empty(), None) {
                        Some((kv, vv)) => {
                            assert(fold_plus(vu, Seq::empty(), None) == fold_plus(
                                vu1,
                                kv,
                                vv,
                            ));
                            assert(fold_plus(vu1, kv, vv) is None);
                        },
                        None => {},
                    }
                },
            }
        },
        (Some(cu), None) => {
            lemma_canon_canonical(u);
            lemma_plus_child_compose(cu, Seq::empty(), None);
            match plus_child(cu, Seq::empty(), None) {
                Some((ku, vu0)) => {
                    assert(fold_plus(uv, Seq::empty(), None) == fold_plus(uv1, ku, vu0));
                    assert(fold_plus(uv1, ku, vu0) is None);
                },
                None => {},
            }
            assert(fold_plus(vu, Seq::empty(), None) is None);
        },
        (Some(cu), Some(cv)) => {
            lemma_canon_canonical(u);
            lemma_canon_canonical(v);
            lemma_plus_child_compose(cu, Seq::empty(), None);
            lemma_plus_child_compose(cv, Seq::empty(), None);
            let (ku, xu) = plus_child(cu, Seq::empty(), None)->Some_0;
            let (kv, xv) = plus_child(cv, Seq::empty(), None)->Some_0;
            lemma_plus_child_compose(cv, ku, xu);
            lemma_plus_child_compose(cu, kv, xv);
            match (xu, xv) {
                (Some(wu), Some(wv)) => {
                    lemma_add_comm(wu, wv);
                },
                _ => {},
            }
            let one_way = plus_child(cv, ku, xu);
            let other_way = plus_child(cu, kv, xv);
            assert(one_way is None <==> other_way is None);
            match (one_way, other_way) {
                (Some((k1, c1)), Some((k2, c2))) => {
                    assert(fold_plus(Seq::<NodeV>::empty(), k1, c1) == Some((k1, c1)));
                    assert(fold_plus(uv1, ku, xu) == Some((k1, c1)));
                    assert(fold_plus(uv, Seq::empty(), None) == Some((k1, c1)));
                    assert(fold_plus(Seq::<NodeV>::empty(), k2, c2) == Some((k2, c2)));
                    assert(fold_plus(vu1, kv, xv) == Some((k2, c2)));
                    assert(fold_plus(vu, Seq::empty(), None) == Some((k2, c2)));
                    assert(k1 == ku + kv && k2 == kv + ku);
                    assert((ku + kv).to_multiset() == (kv + ku).to_multiset()) by {
                        broadcast use vstd::seq_lib::lemma_multiset_commutative;
                        broadcast use vstd::multiset::group_multiset_axioms;

                        assert((ku + kv).to_multiset() =~= (kv + ku).to_multiset());
                    }
                    assert(c1 == c2);
                    lemma_fold_plus_good(uv, Seq::empty(), None);
                    lemma_fold_plus_good(vu, Seq::empty(), None);
                    lemma_finish_plus_sim(k1, c1, k2, c2);
                },
                (None, None) => {
                    assert(fold_plus(uv1, ku, xu) is None);
                    assert(fold_plus(vu1, kv, xv) is None);
                },
                _ => {
                    assert(false);
                },
            }
        },
    }
}

} // verus!
