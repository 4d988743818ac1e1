//! Exact binomial coefficients by a product and one exact division.

use crate::bignat::{quotient, scale, BigNat};
use crate::binomial::{
    binomial, interval_product, lemma_binomial_as_quotient, lemma_binomial_symmetric,
    lemma_common_factors_cancel, lemma_interval_from_zero,
};
use crate::error::UnrankError;
use vstd::prelude::*;

verus! {

/// The product of the integers above `lo` and up to `hi`.
fn product_of_interval(lo: u64, hi: u64) -> (r: BigNat)
    requires
        lo <= hi,
    ensures
        r@ == interval_product(lo as nat, hi as nat),
{
    let mut product = BigNat::one();
    let mut factor: u64 = lo;
    while factor < hi
        invariant
            lo <= factor <= hi,
            product@ == interval_product(lo as nat, factor as nat),
        decreases hi - factor,
    {
        factor = factor + 1;
        product = scale(&product, factor);
        assert(product@ == interval_product(lo as nat, factor as nat)) by (nonlinear_arith)
            requires
                product@ == interval_product(lo as nat, (factor - 1) as nat) * factor,
                interval_product(lo as nat, factor as nat) == factor * interval_product(
                    lo as nat,
                    (factor - 1) as nat,
                ),
        ;
    }
    product
}

/// The binomial coefficient "`n` choose `r`", exactly, whatever its size.
///
/// The coefficient is the product of the integers above `r` up to `n`, divided
/// by the product of the integers up to `n - r`. The two have the integers
/// between them in common. With those cancelled, what is left of the first are
/// the integers above the larger of `r` and `n - r`, and of the second the
/// integers up to the smaller. Only these are multiplied, as numbers of any
/// size, and one division, which leaves no remainder, gives the coefficient.
///
/// Fails with `InvalidArguments` exactly when `r > n`.
pub fn binomial_coefficient(n: &u64, r: &u64) -> (result: Result<BigNat, UnrankError>)
    ensures
        match result {
            Ok(c) => *r <= *n && c@ == binomial(*n as nat, *r as nat),
            Err(e) => *r > *n && e == UnrankError::InvalidArguments,
        },
{
    if *r > *n {
        return Err(UnrankError::InvalidArguments);
    }
    let rest: u64 = *n - *r;
    let smaller: u64 = if *r < rest {
        *r
    } else {
        rest
    };
    let numerator = product_of_interval(*n - smaller, *n);
    let denominator = product_of_interval(0, smaller);
    proof {
        lemma_common_factors_cancel(*n as nat, *r as nat);
        lemma_interval_from_zero(smaller as nat);
        lemma_binomial_as_quotient(*n as nat, smaller as nat);
        lemma_binomial_symmetric(*n as nat, *r as nat);
    }
    Ok(quotient(&numerator, &denominator))
}

} // verus!
