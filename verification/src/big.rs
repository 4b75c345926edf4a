use vstd::prelude::*;

verus! {

/// Value of a little-endian sequence of base-2^32 digits.
pub open spec fn nat_of(digits: Seq<u32>) -> nat
    decreases digits.len(),
{
    if digits.len() == 0 {
        0
    } else {
        (digits[0] + 0x1_0000_0000nat * nat_of(digits.skip(1))) as nat
    }
}

/// An arbitrary-precision integer: a sign and little-endian base-2^32 digits.
/// Well-formed values carry no leading zero digit, and zero is never negative,
/// so equal values have equal representations.
pub struct BigInteger {
    pub neg: bool,
    pub mag: Vec<u32>,
}

impl BigInteger {
    pub open spec fn wf(&self) -> bool {
        &&& self.mag@.len() > 0 ==> self.mag@.last() != 0
        &&& self.mag@.len() == 0 ==> self.neg == false
    }
}

impl View for BigInteger {
    type V = int;

    open spec fn view(&self) -> int {
        if self.neg {
            -(nat_of(self.mag@) as int)
        } else {
            nat_of(self.mag@) as int
        }
    }
}

impl Clone for BigInteger {
    fn clone(&self) -> (r: Self)
        ensures
            r.neg == self.neg,
            r.mag@ == self.mag@,
            r@ == self@,
            r.wf() == self.wf(),
    {
        let mut mag: Vec<u32> = Vec::new();
        for k in 0..self.mag.len()
            invariant
                mag@ == self.mag@.take(k as int),
        {
            mag.push(self.mag[k]);
        }
        proof {
            assert(mag@ =~= self.mag@);
        }
        BigInteger { neg: self.neg, mag }
    }
}

/// A well-formed nonempty digit sequence denotes a strictly positive value.
pub proof fn lemma_nat_of_pos(digits: Seq<u32>)
    requires
        digits.len() > 0,
        digits.last() != 0,
    ensures
        nat_of(digits) >= 1,
    decreases digits.len(),
{
    if digits.len() == 1 {
        assert(digits[0] != 0);
    } else {
        assert(digits.skip(1).last() == digits.last());
        lemma_nat_of_pos(digits.skip(1));
    }
}

/// With two or more well-formed digits the value is at least the base.
pub proof fn lemma_nat_of_wide(digits: Seq<u32>)
    requires
        digits.len() >= 2,
        digits.last() != 0,
    ensures
        nat_of(digits) >= 0x1_0000_0000,
{
    assert(digits.skip(1).last() == digits.last());
    lemma_nat_of_pos(digits.skip(1));
}

pub proof fn lemma_nat_of_single(digits: Seq<u32>)
    requires
        digits.len() == 1,
    ensures
        nat_of(digits) == digits[0],
{
    assert(nat_of(digits.skip(1)) == 0);
}

impl BigInteger {
    /// The canonical zero.
    pub fn zero() -> (r: Self)
        ensures
            r.wf(),
            r@ == 0,
    {
        BigInteger { neg: false, mag: Vec::new() }
    }

    /// Tests for zero.
    pub fn is_zero_val(&self) -> (r: bool)
        requires
            self.wf(),
        ensures
            r == (self@ == 0),
    {
        proof {
            if self.mag@.len() > 0 {
                lemma_nat_of_pos(self.mag@);
            }
        }
        self.mag.len() == 0
    }

    /// Tests for one.
    pub fn is_one_val(&self) -> (r: bool)
        requires
            self.wf(),
        ensures
            r == (self@ == 1),
    {
        proof {
            if self.mag@.len() == 1 {
                lemma_nat_of_single(self.mag@);
            } else if self.mag@.len() >= 2 {
                lemma_nat_of_wide(self.mag@);
            }
        }
        !self.neg && self.mag.len() == 1 && self.mag[0] == 1
    }

    /// Tests for minus one.
    pub fn is_minus_one_val(&self) -> (r: bool)
        requires
            self.wf(),
        ensures
            r == (self@ == -1),
    {
        proof {
            if self.mag@.len() == 1 {
                lemma_nat_of_single(self.mag@);
            } else if self.mag@.len() >= 2 {
                lemma_nat_of_wide(self.mag@);
            }
        }
        self.neg && self.mag.len() == 1 && self.mag[0] == 1
    }

    /// Strictly positive.
    pub fn is_positive_val(&self) -> (r: bool)
        requires
            self.wf(),
        ensures
            r == (self@ > 0),
    {
        proof {
            if self.mag@.len() > 0 {
                lemma_nat_of_pos(self.mag@);
            }
        }
        !self.neg && self.mag.len() > 0
    }

    /// Strictly negative.
    pub fn is_negative_val(&self) -> (r: bool)
        requires
            self.wf(),
        ensures
            r == (self@ < 0),
    {
        proof {
            if self.mag@.len() > 0 {
                lemma_nat_of_pos(self.mag@);
            }
        }
        self.neg
    }

    /// Builds the integer denoting the given machine word.
    pub fn from_u64(n: u64) -> (r: Self)
        ensures
            r.wf(),
            r@ == n as int,
    {
        let lo: u32 = (n & 0xFFFF_FFFF) as u32;
        let hi: u32 = (n >> 32) as u32;
        let mut mag: Vec<u32> = Vec::new();
        if hi != 0 {
            mag.push(lo);
            mag.push(hi);
        } else if lo != 0 {
            mag.push(lo);
        }
        proof {
            assert(lo == n as nat % 0x1_0000_0000 && hi == n as nat / 0x1_0000_0000
                && n == lo + 0x1_0000_0000 * hi) by (bit_vector)
                requires
                    lo == (n & 0xFFFF_FFFF) as u32 && hi == (n >> 32) as u32,
            ;
            if hi != 0 {
                assert(mag@ =~= seq![lo, hi]);
                lemma_nat_of_single(seq![hi]);
                assert(mag@.skip(1) =~= seq![hi]);
                assert(nat_of(mag@) == lo + 0x1_0000_0000nat * nat_of(seq![hi]));
            } else if lo != 0 {
                assert(mag@ =~= seq![lo]);
                lemma_nat_of_single(mag@);
            }
        }
        BigInteger { neg: false, mag }
    }

    /// Negation: flips the sign of a nonzero value.
    pub fn negate(self) -> (r: Self)
        requires
            self.wf(),
        ensures
            r.wf(),
            r@ == -self@,
    {
        if self.mag.len() == 0 {
            self
        } else {
            BigInteger { neg: !self.neg, mag: self.mag }
        }
    }

    /// Builds the integer denoting the given signed machine word.
    pub fn from_i64(n: i64) -> (r: Self)
        ensures
            r.wf(),
            r@ == n as int,
    {
        if n < 0 {
            let a: u64 = if n == i64::MIN {
                0x8000_0000_0000_0000u64
            } else {
                (-n) as u64
            };
            let m = BigInteger::from_u64(a);
            m.negate()
        } else {
            BigInteger::from_u64(n as u64)
        }
    }
}

/// Dropping a leading zero digit leaves the value unchanged.
pub proof fn lemma_nat_of_drop_zero(s: Seq<u32>)
    requires
        s.len() > 0,
        s.last() == 0,
    ensures
        nat_of(s) == nat_of(s.subrange(0, s.len() - 1)),
    decreases s.len(),
{
    if s.len() == 1 {
        assert(s.subrange(0, 0) =~= Seq::<u32>::empty());
        assert(nat_of(s) == s[0] + 0x1_0000_0000nat * nat_of(s.skip(1)));
        assert(s.skip(1) =~= Seq::<u32>::empty());
    } else {
        let t = s.skip(1);
        assert(t.last() == s.last());
        lemma_nat_of_drop_zero(t);
        assert(s.subrange(0, s.len() - 1).skip(1) =~= t.subrange(0, t.len() - 1));
        assert(s.subrange(0, s.len() - 1)[0] == s[0]);
        assert(s.subrange(0, s.len() - 1).len() > 0);
    }
}

impl BigInteger {
    /// The canonical representation of the same value: leading zero digits
    /// stripped, and zero never negative.
    pub fn normalized(self) -> (r: Self)
        ensures
            r.wf(),
            r@ == self@,
    {
        let mut mag = self.mag;
        while mag.len() > 0 && mag[mag.len() - 1] == 0
            invariant
                nat_of(mag@) == nat_of(self.mag@),
            decreases mag@.len(),
        {
            proof {
                lemma_nat_of_drop_zero(mag@);
            }
            let _ = mag.pop();
        }
        let neg = if mag.len() == 0 {
            false
        } else {
            self.neg
        };
        BigInteger { neg, mag }
    }
}


/// Relies on `num::BigInt` addition (`from_slice`/`to_u32_digits` exchange
/// little-endian base-2^32 digits; the result carries no leading zero digit and
/// `NoSign` exactly for zero).
#[verifier::external_body]
pub(crate) fn big_add(a: &BigInteger, b: &BigInteger) -> (r: BigInteger)
    ensures
        r.wf(),
        r@ == a@ + b@,
{
    let sa = if a.neg { num::bigint::Sign::Minus } else { num::bigint::Sign::Plus };
    let sb = if b.neg { num::bigint::Sign::Minus } else { num::bigint::Sign::Plus };
    let x = num::BigInt::from_slice(sa, &a.mag) + num::BigInt::from_slice(sb, &b.mag);
    let (s, mag) = x.to_u32_digits();
    BigInteger { neg: s == num::bigint::Sign::Minus, mag }
}

/// Relies on `num::BigInt` multiplication, exchanging digits as in `big_add`.
#[verifier::external_body]
pub(crate) fn big_mul(a: &BigInteger, b: &BigInteger) -> (r: BigInteger)
    ensures
        r.wf(),
        r@ == a@ * b@,
{
    let sa = if a.neg { num::bigint::Sign::Minus } else { num::bigint::Sign::Plus };
    let sb = if b.neg { num::bigint::Sign::Minus } else { num::bigint::Sign::Plus };
    let x = num::BigInt::from_slice(sa, &a.mag) * num::BigInt::from_slice(sb, &b.mag);
    let (s, mag) = x.to_u32_digits();
    BigInteger { neg: s == num::bigint::Sign::Minus, mag }
}

/// Relies on `num::BigInt`'s total order, which orders by numeric value.
#[verifier::external_body]
pub(crate) fn big_cmp(a: &BigInteger, b: &BigInteger) -> (r: core::cmp::Ordering)
    ensures
        (r == core::cmp::Ordering::Less <==> a@ < b@),
        (r == core::cmp::Ordering::Equal <==> a@ == b@),
        (r == core::cmp::Ordering::Greater <==> a@ > b@),
{
    let sa = if a.neg { num::bigint::Sign::Minus } else { num::bigint::Sign::Plus };
    let sb = if b.neg { num::bigint::Sign::Minus } else { num::bigint::Sign::Plus };
    num::BigInt::from_slice(sa, &a.mag).cmp(&num::BigInt::from_slice(sb, &b.mag))
}

} // verus!
