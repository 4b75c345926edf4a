use vstd::prelude::*;

use crate::big::{big_add, big_cmp, big_mul, BigInteger};

verus! {

/// Sign of an infinite quantity.
#[derive(Clone, Copy, PartialEq, Eq, Structural, Debug)]
pub enum Sign {
    Plus,
    Minus,
}

/// Mathematical model of a number: an integer, a fraction, or a signed
/// infinity. A fraction is modelled by its numerator and denominator so that
/// the Integer and Rational variants stay distinguishable, as they are in the
/// executable type.
pub enum NumV {
    Integer { i: int },
    Rational { n: int, d: int },
    Infinity { sign: Sign },
}

/// The two fractions n1/d1 and n2/d2 denote the same ratio.
pub open spec fn same_ratio(n1: int, d1: int, n2: int, d2: int) -> bool {
    n1 * d2 == n2 * d1
}

/// A fraction is reduced when no fraction with a smaller positive denominator
/// denotes the same ratio. For fractions in lowest terms this is exactly the
/// classical gcd condition, stated without a gcd.
pub open spec fn reduced(n: int, d: int) -> bool {
    &&& d >= 1
    &&& forall|n2: int, d2: int| 1 <= d2 < d ==> !#[trigger] same_ratio(n, d, n2, d2)
}

/// Two reduced fractions with the same ratio are equal componentwise.
pub proof fn lemma_reduced_unique(n1: int, d1: int, n2: int, d2: int)
    requires
        reduced(n1, d1),
        reduced(n2, d2),
        same_ratio(n1, d1, n2, d2),
    ensures
        n1 == n2,
        d1 == d2,
{
    if d2 < d1 {
        assert(same_ratio(n1, d1, n2, d2));
        assert(false);
    }
    if d1 < d2 {
        assert(same_ratio(n2, d2, n1, d1)) by (nonlinear_arith)
            requires
                n1 * d2 == n2 * d1,
        ;
        assert(false);
    }
    assert(n1 == n2) by (nonlinear_arith)
        requires
            n1 * d2 == n2 * d1,
            d1 == d2,
            d1 >= 1,
    ;
}

/// Every fraction with a positive denominator has a reduced form with a
/// denominator no larger than its own.
pub proof fn lemma_reduced_exists(n: int, d: int)
    requires
        d >= 1,
    ensures
        exists|n2: int, d2: int|
            {
                &&& reduced(n2, d2)
                &&& #[trigger] same_ratio(n, d, n2, d2)
                &&& 1 <= d2 <= d
            },
    decreases d,
{
    if reduced(n, d) {
        assert(same_ratio(n, d, n, d));
    } else {
        let (n3, d3) = choose|n3: int, d3: int| 1 <= d3 < d && #[trigger] same_ratio(n, d, n3, d3);
        lemma_reduced_exists(n3, d3);
        let (rn, rd) = choose|rn: int, rd: int|
            {
                &&& reduced(rn, rd)
                &&& #[trigger] same_ratio(n3, d3, rn, rd)
                &&& 1 <= rd <= d3
            };
        assert(same_ratio(n, d, rn, rd)) by (nonlinear_arith)
            requires
                n * d3 == n3 * d,
                n3 * rd == rn * d3,
                d3 >= 1,
        ;
    }
}

/// The reduced form of the fraction n/d (meaningful when d >= 1).
pub open spec fn reduce_frac(n: int, d: int) -> (int, int) {
    choose|rn: int, rd: int|
        {
            &&& reduced(rn, rd)
            &&& #[trigger] same_ratio(n, d, rn, rd)
            &&& 1 <= rd <= d
        }
}

/// What `reduce_frac` picks is a reduced fraction with the same ratio.
pub proof fn lemma_reduce_frac(n: int, d: int)
    requires
        d >= 1,
    ensures
        reduced(reduce_frac(n, d).0, reduce_frac(n, d).1),
        same_ratio(n, d, reduce_frac(n, d).0, reduce_frac(n, d).1),
        1 <= reduce_frac(n, d).1 <= d,
{
    lemma_reduced_exists(n, d);
}

/// An arbitrary-precision rational; well-formed values are reduced with a
/// positive denominator, so equal ratios have equal representations.
pub struct Rational {
    pub numer: BigInteger,
    pub denom: BigInteger,
}

impl Rational {
    pub open spec fn wf(&self) -> bool {
        &&& self.numer.wf()
        &&& self.denom.wf()
        &&& !self.denom.neg
        &&& self.denom@ >= 1
        &&& reduced(self.numer@, self.denom@)
    }
}

impl Clone for Rational {
    fn clone(&self) -> (r: Self)
        ensures
            r.numer@ == self.numer@,
            r.denom@ == self.denom@,
            r.wf() == self.wf(),
    {
        Rational { numer: self.numer.clone(), denom: self.denom.clone() }
    }
}

/// An exact number: arbitrary-precision integer, rational in lowest terms, or
/// a signed infinity.
pub enum Number {
    Integer(BigInteger),
    Rational(Rational),
    Infinity(Sign),
}

impl Number {
    pub open spec fn wf(&self) -> bool {
        match self {
            Number::Integer(i) => i.wf(),
            Number::Rational(r) => r.wf(),
            Number::Infinity(_) => true,
        }
    }
}

impl View for Number {
    type V = NumV;

    open spec fn view(&self) -> NumV {
        match self {
            Number::Integer(i) => NumV::Integer { i: i@ },
            Number::Rational(r) => NumV::Rational { n: r.numer@, d: r.denom@ },
            Number::Infinity(sign) => NumV::Infinity { sign: *sign },
        }
    }
}

impl Clone for Number {
    fn clone(&self) -> (r: Self)
        ensures
            r@ == self@,
            r.wf() == self.wf(),
    {
        match self {
            Number::Integer(i) => Number::Integer(i.clone()),
            Number::Rational(r) => Number::Rational(r.clone()),
            Number::Infinity(sign) => Number::Infinity(*sign),
        }
    }
}

/// View-level well-formedness: fractions are reduced.
pub open spec fn num_wf(v: NumV) -> bool {
    match v {
        NumV::Integer { .. } => true,
        NumV::Rational { n, d } => reduced(n, d),
        NumV::Infinity { .. } => true,
    }
}

/// The number is zero.
pub open spec fn num_is_zero(v: NumV) -> bool {
    match v {
        NumV::Integer { i } => i == 0,
        NumV::Rational { n, d } => n == 0,
        NumV::Infinity { .. } => false,
    }
}

/// The number is one.
pub open spec fn num_is_one(v: NumV) -> bool {
    match v {
        NumV::Integer { i } => i == 1,
        NumV::Rational { n, d } => n == d,
        NumV::Infinity { .. } => false,
    }
}

/// The number is minus one.
pub open spec fn num_is_minus_one(v: NumV) -> bool {
    match v {
        NumV::Integer { i } => i == -1,
        NumV::Rational { n, d } => n == -d,
        NumV::Infinity { .. } => false,
    }
}

/// The number is strictly positive.
pub open spec fn num_is_positive(v: NumV) -> bool {
    match v {
        NumV::Integer { i } => i > 0,
        NumV::Rational { n, d } => n > 0,
        NumV::Infinity { sign } => sign == Sign::Plus,
    }
}

/// The number is strictly negative.
pub open spec fn num_is_negative(v: NumV) -> bool {
    match v {
        NumV::Integer { i } => i < 0,
        NumV::Rational { n, d } => n < 0,
        NumV::Infinity { sign } => sign == Sign::Minus,
    }
}

/// The reduced fraction n/d as a number value (meaningful when d >= 1).
pub open spec fn mk_rat(n: int, d: int) -> NumV {
    NumV::Rational { n: reduce_frac(n, d).0, d: reduce_frac(n, d).1 }
}

/// Addition. Infinities of one sign absorb finite values; the sum of two
/// infinities of opposite signs is indeterminate, so there is no result.
pub open spec fn num_add(a: NumV, b: NumV) -> Option<NumV> {
    match (a, b) {
        (NumV::Infinity { sign: s1 }, NumV::Infinity { sign: s2 }) => if s1 == s2 {
            Some(NumV::Infinity { sign: s1 })
        } else {
            None
        },
        (NumV::Infinity { sign }, _) => Some(NumV::Infinity { sign }),
        (_, NumV::Infinity { sign }) => Some(NumV::Infinity { sign }),
        (NumV::Integer { i }, NumV::Integer { i: j }) => Some(NumV::Integer { i: i + j }),
        (NumV::Integer { i }, NumV::Rational { n, d }) => Some(mk_rat(n + i * d, d)),
        (NumV::Rational { n, d }, NumV::Integer { i }) => Some(mk_rat(n + i * d, d)),
        (NumV::Rational { n: n1, d: d1 }, NumV::Rational { n: n2, d: d2 }) => Some(
            mk_rat(n1 * d2 + n2 * d1, d1 * d2),
        ),
    }
}

/// Multiplication. Two infinities multiply signs; an infinity absorbs any
/// finite value keeping its own sign.
pub open spec fn num_mul(a: NumV, b: NumV) -> NumV {
    match (a, b) {
        (NumV::Infinity { sign: s1 }, NumV::Infinity { sign: s2 }) => NumV::Infinity {
            sign: if s1 == s2 {
                Sign::Plus
            } else {
                Sign::Minus
            },
        },
        (NumV::Infinity { sign }, _) => NumV::Infinity { sign },
        (_, NumV::Infinity { sign }) => NumV::Infinity { sign },
        (NumV::Integer { i }, NumV::Integer { i: j }) => NumV::Integer { i: i * j },
        (NumV::Integer { i }, NumV::Rational { n, d }) => mk_rat(i * n, d),
        (NumV::Rational { n, d }, NumV::Integer { i }) => mk_rat(i * n, d),
        (NumV::Rational { n: n1, d: d1 }, NumV::Rational { n: n2, d: d2 }) => mk_rat(
            n1 * n2,
            d1 * d2,
        ),
    }
}

/// Relies on `num::BigRational::new`, which puts a fraction into lowest terms
/// with a positive denominator. Lowest terms is stated here as: no fraction
/// with a smaller positive denominator has the same ratio.
#[verifier::external_body]
fn rat_reduce(n: &BigInteger, d: &BigInteger) -> (r: Rational)
    requires
        d@ != 0,
    ensures
        r.wf(),
        same_ratio(n@, d@, r.numer@, r.denom@),
{
    let sn = if n.neg { num::bigint::Sign::Minus } else { num::bigint::Sign::Plus };
    let sd = if d.neg { num::bigint::Sign::Minus } else { num::bigint::Sign::Plus };
    let q = num::BigRational::new(
        num::BigInt::from_slice(sn, &n.mag),
        num::BigInt::from_slice(sd, &d.mag),
    );
    let (s, nm) = q.numer().to_u32_digits();
    let (_, dm) = q.denom().to_u32_digits();
    Rational {
        numer: BigInteger { neg: s == num::bigint::Sign::Minus, mag: nm },
        denom: BigInteger { neg: false, mag: dm },
    }
}

/// A well-formed rational produced by reduction is the reduced form of the
/// fraction it came from.
proof fn lemma_is_reduce_frac(n: int, d: int, rn: int, rd: int)
    requires
        d >= 1,
        rd >= 1,
        reduced(rn, rd),
        same_ratio(n, d, rn, rd),
    ensures
        mk_rat(n, d) == (NumV::Rational { n: rn, d: rd }),
{
    lemma_reduce_frac(n, d);
    let p = reduce_frac(n, d);
    assert(same_ratio(rn, rd, p.0, p.1)) by (nonlinear_arith)
        requires
            n * rd == rn * d,
            n * p.1 == p.0 * d,
            d >= 1,
    ;
    lemma_reduced_unique(rn, rd, p.0, p.1);
}

impl Number {
    /// Tests for zero; exact per kind.
    pub fn is_zero(&self) -> (r: bool)
        requires
            self.wf(),
        ensures
            r == num_is_zero(self@),
    {
        match self {
            Number::Integer(i) => i.is_zero_val(),
            Number::Rational(q) => q.numer.is_zero_val(),
            Number::Infinity(_) => false,
        }
    }

    /// Tests for one; exact per kind.
    pub fn is_one(&self) -> (r: bool)
        requires
            self.wf(),
        ensures
            r == num_is_one(self@),
    {
        match self {
            Number::Integer(i) => i.is_one_val(),
            Number::Rational(q) => matches!(big_cmp(&q.numer, &q.denom), core::cmp::Ordering::Equal),
            Number::Infinity(_) => false,
        }
    }

    /// Tests for minus one; exact per kind.
    pub fn is_minus_one(&self) -> (r: bool)
        requires
            self.wf(),
        ensures
            r == num_is_minus_one(self@),
    {
        match self {
            Number::Integer(i) => i.is_minus_one_val(),
            Number::Rational(q) => {
                let s = big_add(&q.numer, &q.denom);
                s.is_zero_val()
            },
            Number::Infinity(_) => false,
        }
    }

    /// Strictly positive; exact per kind.
    pub fn is_positive(&self) -> (r: bool)
        requires
            self.wf(),
        ensures
            r == num_is_positive(self@),
    {
        match self {
            Number::Integer(i) => i.is_positive_val(),
            Number::Rational(q) => q.numer.is_positive_val(),
            Number::Infinity(sign) => *sign == Sign::Plus,
        }
    }

    /// Strictly negative; exact per kind.
    pub fn is_negative(&self) -> (r: bool)
        requires
            self.wf(),
        ensures
            r == num_is_negative(self@),
    {
        match self {
            Number::Integer(i) => i.is_negative_val(),
            Number::Rational(q) => q.numer.is_negative_val(),
            Number::Infinity(sign) => *sign == Sign::Minus,
        }
    }

    /// Addition with the combination rules per kind. `None` exactly for the
    /// indeterminate sum of two infinities of opposite signs.
    pub fn checked_add(&self, other: &Number) -> (r: Option<Number>)
        requires
            self.wf(),
            other.wf(),
        ensures
            (match r {
                Some(v) => {
                    &&& v.wf()
                    &&& num_add(self@, other@) == Some(v@)
                },
                None => num_add(self@, other@) is None,
            }),
    {
        match (self, other) {
            (Number::Infinity(s1), Number::Infinity(s2)) => {
                if *s1 == *s2 {
                    Some(Number::Infinity(*s1))
                } else {
                    None
                }
            },
            (Number::Infinity(sign), _) => Some(Number::Infinity(*sign)),
            (_, Number::Infinity(sign)) => Some(Number::Infinity(*sign)),
            (Number::Integer(a), Number::Integer(b)) => Some(Number::Integer(big_add(a, b))),
            (Number::Integer(i), Number::Rational(q)) => Some(Number::int_plus_rat(i, q)),
            (Number::Rational(q), Number::Integer(i)) => Some(Number::int_plus_rat(i, q)),
            (Number::Rational(a), Number::Rational(b)) => {
                let n = big_add(&big_mul(&a.numer, &b.denom), &big_mul(&b.numer, &a.denom));
                let d = big_mul(&a.denom, &b.denom);
                proof {
                    assert(d@ >= 1) by (nonlinear_arith)
                        requires
                            d@ == a.denom@ * b.denom@,
                            a.denom@ >= 1,
                            b.denom@ >= 1,
                    ;
                }
                let q = rat_reduce(&n, &d);
                proof {
                    lemma_is_reduce_frac(n@, d@, q.numer@, q.denom@);
                }
                Some(Number::Rational(q))
            },
        }
    }

    /// The sum of an integer and a rational, always a rational.
    fn int_plus_rat(i: &BigInteger, q: &Rational) -> (r: Number)
        requires
            i.wf(),
            q.wf(),
        ensures
            r.wf(),
            Some(r@) == num_add(NumV::Integer { i: i@ }, NumV::Rational {
                n: q.numer@,
                d: q.denom@,
            }),
    {
        let n = big_add(&q.numer, &big_mul(i, &q.denom));
        let out = rat_reduce(&n, &q.denom);
        proof {
            lemma_is_reduce_frac(n@, q.denom@, out.numer@, out.denom@);
        }
        Number::Rational(out)
    }

    /// The product of an integer and a rational, always a rational.
    fn int_times_rat(i: &BigInteger, q: &Rational) -> (r: Number)
        requires
            i.wf(),
            q.wf(),
        ensures
            r.wf(),
            r@ == num_mul(NumV::Integer { i: i@ }, NumV::Rational { n: q.numer@, d: q.denom@ }),
    {
        let n = big_mul(i, &q.numer);
        let out = rat_reduce(&n, &q.denom);
        proof {
            lemma_is_reduce_frac(n@, q.denom@, out.numer@, out.denom@);
        }
        Number::Rational(out)
    }

    /// Multiplication with the combination rules per kind; total.
    pub fn mul_num(&self, other: &Number) -> (r: Number)
        requires
            self.wf(),
            other.wf(),
        ensures
            r.wf(),
            r@ == num_mul(self@, other@),
    {
        match (self, other) {
            (Number::Infinity(s1), Number::Infinity(s2)) => {
                Number::Infinity(
                    if *s1 == *s2 {
                        Sign::Plus
                    } else {
                        Sign::Minus
                    },
                )
            },
            (Number::Infinity(sign), _) => Number::Infinity(*sign),
            (_, Number::Infinity(sign)) => Number::Infinity(*sign),
            (Number::Integer(a), Number::Integer(b)) => Number::Integer(big_mul(a, b)),
            (Number::Integer(i), Number::Rational(q)) => Number::int_times_rat(i, q),
            (Number::Rational(q), Number::Integer(i)) => Number::int_times_rat(i, q),
            (Number::Rational(a), Number::Rational(b)) => {
                let n = big_mul(&a.numer, &b.numer);
                let d = big_mul(&a.denom, &b.denom);
                proof {
                    assert(d@ >= 1) by (nonlinear_arith)
                        requires
                            d@ == a.denom@ * b.denom@,
                            a.denom@ >= 1,
                            b.denom@ >= 1,
                    ;
                }
                let q = rat_reduce(&n, &d);
                proof {
                    lemma_is_reduce_frac(n@, d@, q.numer@, q.denom@);
                }
                Number::Rational(q)
            },
        }
    }
}

impl Number {
    /// A rational from a numerator and a denominator, put into lowest terms
    /// with a positive denominator; `None` exactly when the denominator is
    /// zero. The inputs need not be in canonical digit form.
    pub fn rational(n: BigInteger, d: BigInteger) -> (r: Option<Number>)
        ensures
            (r is Some <==> d@ != 0),
            (match r {
                Some(q) => {
                    &&& q.wf()
                    &&& (d@ > 0 ==> q@ == (NumV::Rational {
                        n: reduce_frac(n@, d@).0,
                        d: reduce_frac(n@, d@).1,
                    }))
                    &&& (d@ < 0 ==> q@ == (NumV::Rational {
                        n: reduce_frac(-n@, -d@).0,
                        d: reduce_frac(-n@, -d@).1,
                    }))
                },
                None => true,
            }),
    {
        let n = n.normalized();
        let d = d.normalized();
        if d.is_zero_val() {
            None
        } else {
            let q = rat_reduce(&n, &d);
            proof {
                if d@ > 0 {
                    lemma_is_reduce_frac(n@, d@, q.numer@, q.denom@);
                } else {
                    assert(same_ratio(-n@, -d@, q.numer@, q.denom@)) by (nonlinear_arith)
                        requires
                            same_ratio(n@, d@, q.numer@, q.denom@),
                    ;
                    lemma_is_reduce_frac(-n@, -d@, q.numer@, q.denom@);
                }
            }
            Some(Number::Rational(q))
        }
    }
}

} // verus!
