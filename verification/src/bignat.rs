//! Natural numbers of any size, held as digits and multiplied and divided by `num`.

use num::BigUint;
use vstd::prelude::*;

verus! {

/// The base of a digit: two to the power of 32.
pub open spec fn digit_base() -> nat {
    0x1_0000_0000
}

/// The number that a sequence of base-2^32 digits stands for, least significant digit first.
pub open spec fn digits_value(digits: Seq<u32>) -> nat
    decreases digits.len(),
{
    if digits.len() == 0 {
        0
    } else {
        digits[0] as nat + digit_base() * digits_value(digits.skip(1))
    }
}

/// A natural number of any size.
///
/// The digits are in base 2^32, least significant first. Zeros at the upper end
/// are allowed and do not change the number.
#[derive(Debug)]
pub struct BigNat {
    pub digits: Vec<u32>,
}

impl View for BigNat {
    type V = nat;

    open spec fn view(&self) -> nat {
        digits_value(self.digits@)
    }
}

/// Digits that are all zero stand for zero.
pub proof fn lemma_zero_digits(digits: Seq<u32>)
    requires
        forall|j: int| 0 <= j < digits.len() ==> digits[j] == 0,
    ensures
        digits_value(digits) == 0,
    decreases digits.len(),
{
    if digits.len() > 0 {
        let rest = digits.skip(1);
        assert forall|j: int| 0 <= j < rest.len() implies rest[j] == 0 by {
            assert(rest[j] == digits[j + 1]);
        }
        lemma_zero_digits(rest);
    }
}

/// One digit that is not zero makes the number at least one.
pub proof fn lemma_nonzero_digit(digits: Seq<u32>, at: int)
    requires
        0 <= at < digits.len(),
        digits[at] != 0,
    ensures
        digits_value(digits) >= 1,
    decreases digits.len(),
{
    let rest = digits.skip(1);
    if at > 0 {
        assert(rest[at - 1] == digits[at]);
        lemma_nonzero_digit(rest, at - 1);
        assert(digit_base() * digits_value(rest) >= 1) by (nonlinear_arith)
            requires
                digits_value(rest) >= 1,
                digit_base() >= 1,
        ;
    }
}

/// The two lowest digits and the rest, written out.
pub proof fn lemma_two_digits(digits: Seq<u32>)
    requires
        digits.len() >= 2,
    ensures
        digits_value(digits) == digits[0] as nat + digit_base() * digits[1] as nat + digit_base()
            * digit_base() * digits_value(digits.skip(2)),
{
    let rest = digits.skip(1);
    assert(rest[0] == digits[1]);
    assert(rest.skip(1) =~= digits.skip(2));
    let upper = digits_value(digits.skip(2));
    assert(digits_value(rest) == digits[1] as nat + digit_base() * upper);
    assert(digit_base() * (digits[1] as nat + digit_base() * upper) == digit_base() * digits[1] as nat
        + digit_base() * digit_base() * upper) by (nonlinear_arith);
}

impl BigNat {
    /// The number one.
    pub fn one() -> (r: BigNat)
        ensures
            r@ == 1,
    {
        let mut digits: Vec<u32> = Vec::new();
        digits.push(1u32);
        proof {
            assert(digits@.skip(1) =~= Seq::<u32>::empty());
            assert(digits_value(digits@.skip(1)) == 0);
        }
        BigNat { digits }
    }

    /// The number as a `u64`, where it fits.
    pub fn to_u64(&self) -> (r: Option<u64>)
        ensures
            match r {
                Some(v) => v == self@,
                None => self@ > u64::MAX,
            },
    {
        let len: usize = self.digits.len();
        if len == 0 {
            return Some(0u64);
        }
        let low: u64 = self.digits[0] as u64;
        if len == 1 {
            proof {
                assert(self.digits@.skip(1) =~= Seq::<u32>::empty());
                assert(digits_value(self.digits@.skip(1)) == 0);
            }
            return Some(low);
        }
        let mut at: usize = len;
        while at > 2
            invariant
                2 <= at <= len,
                len == self.digits.len(),
                forall|j: int| at <= j < len ==> self.digits[j] == 0,
            decreases at,
        {
            at = at - 1;
            if self.digits[at] != 0 {
                proof {
                    let upper = self.digits@.skip(2);
                    assert(upper[at - 2] == self.digits@[at as int]);
                    lemma_nonzero_digit(upper, at - 2);
                    lemma_two_digits(self.digits@);
                    assert(digit_base() * digit_base() * digits_value(upper) >= digit_base()
                        * digit_base()) by (nonlinear_arith)
                        requires
                            digits_value(upper) >= 1,
                    ;
                }
                return None;
            }
        }
        let high: u64 = self.digits[1] as u64;
        proof {
            let upper = self.digits@.skip(2);
            assert forall|j: int| 0 <= j < upper.len() implies upper[j] == 0 by {
                assert(upper[j] == self.digits@[j + 2]);
            }
            lemma_zero_digits(upper);
            lemma_two_digits(self.digits@);
            assert(digit_base() * digit_base() * 0 == 0);
        }
        Some(low + high * 0x1_0000_0000u64)
    }

    /// A copy of the number.
    pub fn duplicate(&self) -> (r: BigNat)
        ensures
            r@ == self@,
            r.digits@ == self.digits@,
    {
        let digits = self.digits.clone();
        assert(digits@ =~= self.digits@);
        BigNat { digits }
    }
}

/// The product of a number and a machine integer.
///
/// Calls `BigUint::new`, the multiplication of a `BigUint` by a `u64`, and
/// `BigUint::to_u32_digits`. Taken on trust: `new` reads its digits in base 2^32
/// with the least significant first, the product is the mathematical one, and
/// `to_u32_digits` writes the result in the same base and order.
#[verifier::external_body]
pub(crate) fn scale(a: &BigNat, factor: u64) -> (r: BigNat)
    ensures
        r@ == a@ * factor,
{
    BigNat { digits: (BigUint::new(a.digits.clone()) * factor).to_u32_digits() }
}

/// The quotient of two numbers, rounded down.
///
/// Calls `BigUint::new`, the division of a `BigUint` by a `BigUint`, and
/// `BigUint::to_u32_digits`. Taken on trust: the digits are read and written as
/// in `scale`, and the division is the mathematical one, rounded down. The
/// division panics on a zero divisor, which the precondition rules out.
#[verifier::external_body]
pub(crate) fn quotient(a: &BigNat, b: &BigNat) -> (r: BigNat)
    requires
        b@ > 0,
    ensures
        r@ == a@ / b@,
{
    BigNat { digits: (BigUint::new(a.digits.clone()) / BigUint::new(b.digits.clone())).to_u32_digits() }
}

} // verus!
