//! Exact rational arithmetic: a signed numerator over a positive
//! denominator, kept as a plain (not necessarily reduced) fraction. The
//! spec-level counterpart is `RatPair`, a pair of unbounded integers, and
//! every operation states exactly which pair it produces.
use vstd::prelude::*;

use crate::bigint::BigInt;
use crate::bignat::BigNat;

verus! {

/// The mathematical content of a rational value: numerator and (positive)
/// denominator as unbounded integers.
pub struct RatPair {
    pub num: int,
    pub den: int,
}

pub open spec fn int_abs(x: int) -> int {
    if x < 0 {
        -x
    } else {
        x
    }
}

pub open spec fn rat_add(a: RatPair, b: RatPair) -> RatPair {
    RatPair { num: a.num * b.den + b.num * a.den, den: a.den * b.den }
}

pub open spec fn rat_sub(a: RatPair, b: RatPair) -> RatPair {
    RatPair { num: a.num * b.den - b.num * a.den, den: a.den * b.den }
}

pub open spec fn rat_mul(a: RatPair, b: RatPair) -> RatPair {
    RatPair { num: a.num * b.num, den: a.den * b.den }
}

pub open spec fn rat_div(a: RatPair, b: RatPair) -> RatPair {
    RatPair {
        num: if b.num < 0 {
            -(a.num * b.den)
        } else {
            a.num * b.den
        },
        den: a.den * int_abs(b.num),
    }
}

/// Digit concatenation as the evaluator applies it: ten times the left
/// value plus the right value, as exact rationals.
pub open spec fn rat_concat(a: RatPair, b: RatPair) -> RatPair {
    RatPair { num: a.num * 10 * b.den + b.num * a.den, den: a.den * b.den }
}

/// An exact rational number backed by arbitrary-precision integers.
#[derive(Debug, PartialEq, Eq)]
pub struct BigRational {
    pub numerator: BigInt,
    pub denominator: BigNat,
}

impl BigRational {
    /// The representation invariant: well-formed parts and a strictly
    /// positive denominator.
    pub open spec fn wf(&self) -> bool {
        &&& self.numerator.wf()
        &&& self.denominator.wf()
        &&& self.denominator.value() > 0
    }

    pub open spec fn num(&self) -> int {
        self.numerator.value()
    }

    pub open spec fn den(&self) -> int {
        self.denominator.value() as int
    }

    /// The fraction as a spec-level pair.
    pub open spec fn pair(&self) -> RatPair {
        RatPair { num: self.num(), den: self.den() }
    }

    pub fn from_usize(n: usize) -> (r: BigRational)
        ensures
            r.wf(),
            r.num() == n,
            r.den() == 1,
    {
        let one = BigNat::from_usize(1);
        BigRational { numerator: BigInt::from_usize(n), denominator: one }
    }

    /// A fresh copy of the same fraction.
    pub fn duplicate(&self) -> (r: BigRational)
        ensures
            r.wf() == self.wf(),
            r.num() == self.num(),
            r.den() == self.den(),
    {
        BigRational {
            numerator: self.numerator.duplicate(),
            denominator: self.denominator.duplicate(),
        }
    }

    pub fn is_zero(&self) -> (r: bool)
        requires
            self.wf(),
        ensures
            r == (self.num() == 0),
    {
        self.numerator.is_zero()
    }

    pub fn add(&self, other: &BigRational) -> (r: BigRational)
        requires
            self.wf(),
            other.wf(),
        ensures
            r.wf(),
            r.pair() == rat_add(self.pair(), other.pair()),
    {
        let lscaled = self.numerator.mul(&BigInt::from_nat(other.denominator.duplicate()));
        let rscaled = other.numerator.mul(&BigInt::from_nat(self.denominator.duplicate()));
        let numerator = lscaled.add(&rscaled);
        let denominator = self.denominator.mul(&other.denominator);
        proof {
            lemma_pos_mul_pos(self.den(), other.den());
        }
        BigRational { numerator, denominator }
    }

    pub fn sub(&self, other: &BigRational) -> (r: BigRational)
        requires
            self.wf(),
            other.wf(),
        ensures
            r.wf(),
            r.pair() == rat_sub(self.pair(), other.pair()),
    {
        let lscaled = self.numerator.mul(&BigInt::from_nat(other.denominator.duplicate()));
        let rscaled = other.numerator.mul(&BigInt::from_nat(self.denominator.duplicate()));
        let numerator = lscaled.sub(&rscaled);
        let denominator = self.denominator.mul(&other.denominator);
        proof {
            lemma_pos_mul_pos(self.den(), other.den());
        }
        BigRational { numerator, denominator }
    }

    pub fn mul(&self, other: &BigRational) -> (r: BigRational)
        requires
            self.wf(),
            other.wf(),
        ensures
            r.wf(),
            r.pair() == rat_mul(self.pair(), other.pair()),
    {
        let numerator = self.numerator.mul(&other.numerator);
        let denominator = self.denominator.mul(&other.denominator);
        proof {
            lemma_pos_mul_pos(self.den(), other.den());
        }
        BigRational { numerator, denominator }
    }

    pub fn div(&self, other: &BigRational) -> (r: BigRational)
        requires
            self.wf(),
            other.wf(),
            other.num() != 0,
        ensures
            r.wf(),
            r.pair() == rat_div(self.pair(), other.pair()),
    {
        let scaled = self.numerator.mul(&BigInt::from_nat(other.denominator.duplicate()));
        let numerator = if other.numerator.negative {
            scaled.neg()
        } else {
            scaled
        };
        let denominator = self.denominator.mul(&other.numerator.magnitude);
        proof {
            assert(other.numerator.magnitude.value() > 0);
            lemma_pos_mul_pos(self.den(), other.numerator.magnitude.value() as int);
            assert(int_abs(other.num()) == other.numerator.magnitude.value());
        }
        BigRational { numerator, denominator }
    }

    /// Ten times this fraction plus `other`: the arithmetic meaning of
    /// decimal concatenation.
    pub fn concat_decimal(&self, other: &BigRational) -> (r: BigRational)
        requires
            self.wf(),
            other.wf(),
        ensures
            r.wf(),
            r.pair() == rat_concat(self.pair(), other.pair()),
    {
        let ten = BigRational::from_usize(10);
        let shifted = self.mul(&ten);
        shifted.add(other)
    }

    /// The exact integer this fraction denotes, if it denotes one.
    pub fn to_integer(&self) -> (r: Option<BigInt>)
        requires
            self.wf(),
        ensures
            r is Some <==> (exists|k: int| self.num() == #[trigger] (k * self.den())),
            r matches Some(v) ==> v.wf() && v.value() * self.den() == self.num(),
    {
        let (quotient, remainder) = self.numerator.magnitude.div_rem(&self.denominator);
        let exact = remainder.is_zero();
        proof {
            let m = self.numerator.magnitude.value() as int;
            let d = self.den();
            let q = quotient.value() as int;
            let rem = remainder.value() as int;
            if rem == 0 {
                assert(m == q * d);
                assert(-m == (-q) * d) by (nonlinear_arith)
                    requires
                        m == q * d,
                ;
            } else {
                assert forall|k: int| self.num() != #[trigger] (k * self.den()) by {
                    if self.numerator.negative {
                        lemma_no_exact_multiple(m, d, q, rem, -k);
                        assert((-k) * d == -(k * d)) by (nonlinear_arith);
                    } else {
                        lemma_no_exact_multiple(m, d, q, rem, k);
                    }
                }
            }
        }
        if exact {
            if quotient.is_zero() {
                Some(BigInt::from_usize(0))
            } else {
                Some(BigInt { negative: self.numerator.negative, magnitude: quotient })
            }
        } else {
            None
        }
    }
}

pub proof fn lemma_pos_mul_pos(a: int, b: int)
    requires
        a > 0,
        b > 0,
    ensures
        a * b > 0,
{
    assert(a * b > 0) by (nonlinear_arith)
        requires
            a > 0,
            b > 0,
    ;
}

/// A division that leaves a non-zero remainder below the divisor admits no
/// exact multiple: `m == q*d + rem` with `0 < rem < d` gives `m != k*d`.
proof fn lemma_no_exact_multiple(m: int, d: int, q: int, rem: int, k: int)
    requires
        d > 0,
        0 < rem < d,
        m == q * d + rem,
    ensures
        m != k * d,
{
    if k >= q + 1 {
        assert(k * d - q * d >= d) by (nonlinear_arith)
            requires
                k >= q + 1,
                d > 0,
        ;
    } else {
        assert(k * d - q * d <= 0) by (nonlinear_arith)
            requires
                k <= q,
                d > 0,
        ;
    }
}

} // verus!
