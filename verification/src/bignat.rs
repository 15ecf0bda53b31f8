//! Arbitrary-precision natural numbers, stored as minimal little-endian
//! byte strings. The arithmetic itself is done by the `dashu` crate through
//! a small set of trusted wrappers; everything else here is verified against
//! the byte-string value function `le_val`.
use vstd::prelude::*;

use vstd::arithmetic::div_mod::lemma_fundamental_div_mod_converse;
use vstd::string::StringExecFns;

use crate::decimal::append_digit;
use crate::decimal::digit_char;
use crate::decimal::lemma_rev_chars_index;
use crate::decimal::rev_chars;
use crate::decimal::spec_decimal;

verus! {

/// The numeric value of a little-endian byte string:
/// `s[0] + 256*s[1] + 256^2*s[2] + ...`; the empty string is zero.
pub open spec fn le_val(s: Seq<u8>) -> nat
    decreases s.len(),
{
    if s.len() == 0 {
        0
    } else {
        (s[0] + 256 * le_val(s.drop_first())) as nat
    }
}

/// A byte string is canonical when it carries no superfluous high zero
/// byte; dashu's `to_le_bytes` always produces this form.
pub open spec fn canonical(s: Seq<u8>) -> bool {
    s.len() == 0 || s[s.len() - 1] != 0
}

/// 256 raised to `n`, the place value of byte `n`.
pub open spec fn pow256(n: nat) -> nat
    decreases n,
{
    if n == 0 {
        1
    } else {
        256 * pow256((n - 1) as nat)
    }
}

pub proof fn lemma_pow256_positive(n: nat)
    ensures
        pow256(n) >= 1,
    decreases n,
{
    if n > 0 {
        lemma_pow256_positive((n - 1) as nat);
    }
}

/// Appending a byte adds its place value.
pub proof fn lemma_le_val_push(s: Seq<u8>, b: u8)
    ensures
        le_val(s.push(b)) == le_val(s) + b * pow256(s.len()),
    decreases s.len(),
{
    if s.len() == 0 {
        assert(s.push(b).drop_first() =~= Seq::<u8>::empty());
        assert(le_val(Seq::<u8>::empty()) == 0);
        assert(s.push(b)[0] == b);
        assert(le_val(s.push(b)) == b + 256 * le_val(s.push(b).drop_first()));
        assert(le_val(s) == 0);
        assert(pow256(0) == 1);
    } else {
        assert(s.push(b).drop_first() =~= s.drop_first().push(b));
        lemma_le_val_push(s.drop_first(), b);
        assert(le_val(s.push(b)) == s[0] + 256 * (le_val(s.drop_first()) + b * pow256(
            (s.len() - 1) as nat,
        )));
        assert(256 * (le_val(s.drop_first()) + b * pow256((s.len() - 1) as nat)) == 256 * le_val(
            s.drop_first(),
        ) + b * (256 * pow256((s.len() - 1) as nat))) by (nonlinear_arith);
    }
}

/// A canonical, non-empty byte string has a strictly positive value.
pub proof fn lemma_canonical_positive(s: Seq<u8>)
    requires
        canonical(s),
        s.len() > 0,
    ensures
        le_val(s) > 0,
    decreases s.len(),
{
    if s.len() == 1 {
        assert(le_val(s) == s[0] + 256 * le_val(s.drop_first()));
    } else {
        assert(canonical(s.drop_first()));
        lemma_canonical_positive(s.drop_first());
    }
}

/// A canonical byte string of two or more bytes stands for at least 256.
pub proof fn lemma_two_bytes_large(s: Seq<u8>)
    requires
        canonical(s),
        s.len() >= 2,
    ensures
        le_val(s) >= 256,
{
    assert(canonical(s.drop_first()));
    lemma_canonical_positive(s.drop_first());
}

/// An arbitrary-precision natural number: a canonical little-endian byte
/// string. The heavy arithmetic is delegated to `dashu::integer::UBig`.
#[derive(Debug, Clone, PartialEq, Eq)]
pub struct BigNat {
    pub bytes: Vec<u8>,
}

impl BigNat {
    /// The representation invariant: no superfluous high zero byte.
    pub open spec fn wf(&self) -> bool {
        canonical(self.bytes@)
    }

    /// The natural number this value stands for.
    pub open spec fn value(&self) -> nat {
        le_val(self.bytes@)
    }

    pub fn from_usize(n: usize) -> (r: BigNat)
        ensures
            r.wf(),
            r.value() == n,
    {
        let mut bytes: Vec<u8> = Vec::new();
        let mut m: usize = n;
        proof {
            assert(le_val(bytes@) == 0);
            assert(pow256(0) == 1);
        }
        while m > 0
            invariant
                le_val(bytes@) + m * pow256(bytes@.len()) == n,
                m == 0 ==> canonical(bytes@),
            decreases m,
        {
            let b: u8 = (m % 256) as u8;
            let ghost prev = bytes@;
            let ghost prev_m = m as nat;
            bytes.push(b);
            m = m / 256;
            proof {
                lemma_le_val_push(prev, b);
                lemma_pow256_positive(prev.len());
                assert(prev_m == 256 * (prev_m / 256) + prev_m % 256);
                assert(le_val(prev) + (b + 256 * (prev_m / 256)) * pow256(prev.len()) == le_val(
                    prev,
                ) + b * pow256(prev.len()) + (prev_m / 256) * (256 * pow256(prev.len())))
                    by (nonlinear_arith);
                if m == 0 {
                    assert(b == prev_m % 256);
                    assert(prev_m % 256 != 0) by {
                        assert(prev_m == 256 * (prev_m / 256) + prev_m % 256);
                    }
                    assert(bytes@[bytes@.len() - 1] == b);
                }
            }
        }
        proof {
            lemma_pow256_positive(bytes@.len());
        }
        BigNat { bytes }
    }

    pub fn is_zero(&self) -> (r: bool)
        requires
            self.wf(),
        ensures
            r == (self.value() == 0),
    {
        proof {
            if self.bytes@.len() > 0 {
                lemma_canonical_positive(self.bytes@);
            }
        }
        self.bytes.len() == 0
    }

    /// A fresh copy with the same bytes.
    pub fn duplicate(&self) -> (r: BigNat)
        ensures
            r.bytes@ == self.bytes@,
            r.wf() == self.wf(),
            r.value() == self.value(),
    {
        let mut bytes: Vec<u8> = Vec::new();
        let mut i: usize = 0;
        while i < self.bytes.len()
            invariant
                i <= self.bytes@.len(),
                bytes@ =~= self.bytes@.subrange(0, i as int),
            decreases self.bytes@.len() - i,
        {
            bytes.push(self.bytes[i]);
            i = i + 1;
        }
        proof {
            assert(bytes@ =~= self.bytes@);
        }
        BigNat { bytes }
    }

    /// This value as a machine integer, for values below 256.
    pub fn to_small(&self) -> (r: usize)
        requires
            self.wf(),
            self.value() < 256,
        ensures
            r == self.value(),
    {
        proof {
            if self.bytes@.len() >= 2 {
                lemma_two_bytes_large(self.bytes@);
            }
            if self.bytes@.len() == 1 {
                assert(self.bytes@.drop_first() =~= Seq::<u8>::empty());
                assert(le_val(self.bytes@) == self.bytes@[0] + 256 * le_val(
                    self.bytes@.drop_first(),
                ));
            }
        }
        if self.bytes.len() == 0 {
            0
        } else {
            self.bytes[0] as usize
        }
    }

    /// The decimal digits of this natural number, most significant first.
    pub fn to_decimal(&self) -> (r: String)
        requires
            self.wf(),
        ensures
            r@ == spec_decimal(self.value() as int),
    {
        let ten = BigNat::from_usize(10);
        let mut digits: Vec<u8> = Vec::new();
        let mut m = self.duplicate();
        let ghost v = self.value();
        while !m.is_zero()
            invariant
                m.wf(),
                ten.wf(),
                ten.value() == 10,
                m.value() > 0 ==> spec_decimal(v as int) == spec_decimal(m.value() as int)
                    + rev_chars(digits@),
                m.value() == 0 ==> ((digits@.len() == 0 && v == 0) || (digits@.len() > 0
                    && spec_decimal(v as int) == rev_chars(digits@))),
                forall|i: int| 0 <= i < digits@.len() ==> digits@[i] < 10,
            decreases m.value(),
        {
            let (q, rem) = m.div_rem(&ten);
            let d = rem.to_small();
            let ghost before = digits@;
            let ghost mv = m.value() as int;
            let ghost qv = q.value() as int;
            digits.push(d as u8);
            proof {
                lemma_fundamental_div_mod_converse(mv, 10, qv, rem.value() as int);
                assert(digits@.drop_last() =~= before);
                assert(digits@.last() == d as u8);
                assert(rev_chars(digits@) == seq![digit_char(d as int)] + rev_chars(before));
                if qv > 0 {
                    assert(mv >= 10);
                    assert(spec_decimal(mv) == spec_decimal(mv / 10).push(digit_char(mv % 10)));
                    assert(spec_decimal(v as int) =~= spec_decimal(qv) + (seq![
                        digit_char(d as int),
                    ] + rev_chars(before)));
                } else {
                    assert(mv < 10);
                    assert(spec_decimal(mv) == seq![digit_char(mv)]);
                    assert(spec_decimal(v as int) =~= rev_chars(digits@));
                }
            }
            m = q;
        }
        let mut w = String::new();
        if digits.len() == 0 {
            append_digit(0, &mut w);
            proof {
                assert(w@ =~= spec_decimal(0));
            }
            return w;
        }
        let ghost ds = digits@;
        let len = digits.len();
        let mut t: usize = 0;
        while t < len
            invariant
                len == ds.len(),
                digits@ == ds,
                t <= len,
                w@.len() == t,
                forall|i: int| 0 <= i < ds.len() ==> ds[i] < 10,
                forall|i: int| 0 <= i < t ==> w@[i] == digit_char(ds[len - 1 - i] as int),
            decreases len - t,
        {
            append_digit(digits[len - 1 - t] as usize, &mut w);
            t = t + 1;
        }
        proof {
            lemma_rev_chars_index(ds);
            assert(w@ =~= rev_chars(ds));
        }
        w
    }

    /// Relies on dashu's `UBig`: `from_le_bytes` and `to_le_bytes` convert
    /// minimal little-endian bytes, and `Add` computes the exact sum.
    #[verifier::external_body]
    pub fn add(&self, other: &BigNat) -> (r: BigNat)
        ensures
            r.wf(),
            r.value() == self.value() + other.value(),
    {
        let s = dashu::integer::UBig::from_le_bytes(&self.bytes) + dashu::integer::UBig::from_le_bytes(
            &other.bytes,
        );
        BigNat { bytes: s.to_le_bytes().into_vec() }
    }

    /// Relies on dashu's `UBig`: `Mul` computes the exact product.
    #[verifier::external_body]
    pub fn mul(&self, other: &BigNat) -> (r: BigNat)
        ensures
            r.wf(),
            r.value() == self.value() * other.value(),
    {
        let p = dashu::integer::UBig::from_le_bytes(&self.bytes) * dashu::integer::UBig::from_le_bytes(
            &other.bytes,
        );
        BigNat { bytes: p.to_le_bytes().into_vec() }
    }

    /// Relies on dashu's `UBig`: `Sub` computes the exact difference and
    /// panics only when the subtrahend is larger, which the precondition
    /// rules out.
    #[verifier::external_body]
    pub fn sub(&self, other: &BigNat) -> (r: BigNat)
        requires
            other.value() <= self.value(),
        ensures
            r.wf(),
            r.value() == self.value() - other.value(),
    {
        let d = dashu::integer::UBig::from_le_bytes(&self.bytes) - dashu::integer::UBig::from_le_bytes(
            &other.bytes,
        );
        BigNat { bytes: d.to_le_bytes().into_vec() }
    }

    /// Relies on dashu's `UBig`: its `Ord` implementation compares by
    /// numeric value.
    #[verifier::external_body]
    pub fn le(&self, other: &BigNat) -> (r: bool)
        ensures
            r == (self.value() <= other.value()),
    {
        dashu::integer::UBig::from_le_bytes(&self.bytes) <= dashu::integer::UBig::from_le_bytes(
            &other.bytes,
        )
    }

    /// Relies on dashu's `UBig::div_rem` (the `DivRem` trait of dashu-base):
    /// Euclidean quotient and remainder, panicking only on a zero divisor,
    /// which the precondition rules out.
    #[verifier::external_body]
    pub fn div_rem(&self, other: &BigNat) -> (r: (BigNat, BigNat))
        requires
            other.value() > 0,
        ensures
            r.0.wf(),
            r.1.wf(),
            self.value() == r.0.value() * other.value() + r.1.value(),
            r.1.value() < other.value(),
    {
        let (q, rem) = dashu::base::DivRem::div_rem(
            dashu::integer::UBig::from_le_bytes(&self.bytes),
            dashu::integer::UBig::from_le_bytes(&other.bytes),
        );
        (BigNat { bytes: q.to_le_bytes().into_vec() }, BigNat { bytes: rem.to_le_bytes().into_vec() })
    }
}

} // verus!
