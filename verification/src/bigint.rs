//! Signed arbitrary-precision integers: a sign and a `BigNat` magnitude.
//! All the sign logic is verified; only the magnitude arithmetic underneath
//! is delegated to dashu.
use vstd::prelude::*;

use vstd::string::StringExecFns;

use crate::decimal::spec_decimal;
use crate::decimal::spec_int_decimal;

use crate::bignat::BigNat;

verus! {

/// A signed arbitrary-precision integer.
#[derive(Debug, Clone, PartialEq, Eq)]
pub struct BigInt {
    pub negative: bool,
    pub magnitude: BigNat,
}

impl BigInt {
    /// The representation invariant: canonical magnitude, and zero is never
    /// marked negative.
    pub open spec fn wf(&self) -> bool {
        &&& self.magnitude.wf()
        &&& (self.negative ==> self.magnitude.value() > 0)
    }

    /// The integer this value stands for.
    pub open spec fn value(&self) -> int {
        if self.negative {
            -(self.magnitude.value() as int)
        } else {
            self.magnitude.value() as int
        }
    }

    pub fn from_usize(n: usize) -> (r: BigInt)
        ensures
            r.wf(),
            r.value() == n,
    {
        BigInt { negative: false, magnitude: BigNat::from_usize(n) }
    }

    pub fn from_nat(magnitude: BigNat) -> (r: BigInt)
        requires
            magnitude.wf(),
        ensures
            r.wf(),
            r.value() == magnitude.value(),
    {
        BigInt { negative: false, magnitude }
    }

    pub fn is_zero(&self) -> (r: bool)
        requires
            self.wf(),
        ensures
            r == (self.value() == 0),
    {
        self.magnitude.is_zero()
    }

    /// A fresh copy with the same sign and magnitude.
    pub fn duplicate(&self) -> (r: BigInt)
        ensures
            r.negative == self.negative,
            r.magnitude.bytes@ == self.magnitude.bytes@,
            r.wf() == self.wf(),
            r.value() == self.value(),
    {
        BigInt { negative: self.negative, magnitude: self.magnitude.duplicate() }
    }

    /// The decimal text of this integer, with a leading minus sign when
    /// negative.
    pub fn to_decimal(&self) -> (r: String)
        requires
            self.wf(),
        ensures
            r@ == spec_int_decimal(self.value()),
    {
        let digits = self.magnitude.to_decimal();
        if self.negative {
            let mut w = String::new();
            proof {
                reveal_strlit("-");
            }
            w.append("-");
            w.append(digits.as_str());
            proof {
                assert(w@ =~= seq!['-'] + spec_decimal(self.magnitude.value() as int));
            }
            w
        } else {
            digits
        }
    }

    pub fn neg(&self) -> (r: BigInt)
        requires
            self.wf(),
        ensures
            r.wf(),
            r.value() == -self.value(),
    {
        if self.magnitude.is_zero() {
            BigInt { negative: false, magnitude: self.magnitude.duplicate() }
        } else {
            BigInt { negative: !self.negative, magnitude: self.magnitude.duplicate() }
        }
    }

    pub fn add(&self, other: &BigInt) -> (r: BigInt)
        requires
            self.wf(),
            other.wf(),
        ensures
            r.wf(),
            r.value() == self.value() + other.value(),
    {
        if self.negative == other.negative {
            let magnitude = self.magnitude.add(&other.magnitude);
            BigInt { negative: self.negative, magnitude }
        } else if self.magnitude.le(&other.magnitude) {
            if other.magnitude.le(&self.magnitude) {
                BigInt { negative: false, magnitude: BigNat::from_usize(0) }
            } else {
                let magnitude = other.magnitude.sub(&self.magnitude);
                BigInt { negative: other.negative, magnitude }
            }
        } else {
            let magnitude = self.magnitude.sub(&other.magnitude);
            BigInt { negative: self.negative, magnitude }
        }
    }

    pub fn sub(&self, other: &BigInt) -> (r: BigInt)
        requires
            self.wf(),
            other.wf(),
        ensures
            r.wf(),
            r.value() == self.value() - other.value(),
    {
        let flipped = other.neg();
        self.add(&flipped)
    }

    pub fn mul(&self, other: &BigInt) -> (r: BigInt)
        requires
            self.wf(),
            other.wf(),
        ensures
            r.wf(),
            r.value() == self.value() * other.value(),
    {
        let magnitude = self.magnitude.mul(&other.magnitude);
        let zero = magnitude.is_zero();
        let negative = if zero {
            false
        } else {
            self.negative != other.negative
        };
        let r = BigInt { negative, magnitude };
        proof {
            let a = self.magnitude.value() as int;
            let b = other.magnitude.value() as int;
            assert((-a) * b == -(a * b)) by (nonlinear_arith);
            assert(a * (-b) == -(a * b)) by (nonlinear_arith);
            assert((-a) * (-b) == a * b) by (nonlinear_arith);
            assert(a * b == 0 ==> a == 0 || b == 0) by (nonlinear_arith);
            assert(a > 0 && b > 0 ==> a * b > 0) by (nonlinear_arith);
        }
        r
    }
}

} // verus!
