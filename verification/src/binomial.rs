//! The mathematics of binomial coefficients that the rest of the crate rests on.

use vstd::prelude::*;

verus! {

/// The number of `k`-element subsets of an `n`-element set, by Pascal's rule.
/// It is zero when `k > n`.
pub open spec fn binomial(n: nat, k: nat) -> nat
    decreases n,
{
    if k == 0 {
        1
    } else if n == 0 {
        0
    } else {
        binomial((n - 1) as nat, (k - 1) as nat) + binomial((n - 1) as nat, k)
    }
}

/// The product `1 * 2 * ... * n`.
pub open spec fn factorial(n: nat) -> nat
    decreases n,
{
    if n == 0 {
        1
    } else {
        n * factorial((n - 1) as nat)
    }
}

/// The product of the integers `x` with `lo < x <= hi`; one when there are none.
pub open spec fn interval_product(lo: nat, hi: nat) -> nat
    decreases hi,
{
    if hi <= lo {
        1
    } else {
        hi * interval_product(lo, (hi - 1) as nat)
    }
}

/// The integers `x` with `lo < x <= hi`, as a set: the factors of `interval_product(lo, hi)`.
pub open spec fn integers_in(lo: nat, hi: nat) -> Set<nat> {
    Set::new(|x: nat| lo < x <= hi)
}

/// The factors above `r` up to `n` and the factors up to `n - r` have the
/// integers between them in common. Without those, the first are the integers
/// above the larger of `r` and `n - r`, and the second the integers up to the
/// smaller of the two.
pub proof fn lemma_common_factors_cancel(n: nat, r: nat)
    requires
        r <= n,
    ensures
        ({
            let rest = (n - r) as nat;
            let larger = if r < rest { rest } else { r };
            let smaller = if r < rest { r } else { rest };
            &&& integers_in(r, n).difference(integers_in(0, rest)) == integers_in(larger, n)
            &&& integers_in(0, rest).difference(integers_in(r, n)) == integers_in(0, smaller)
            &&& larger == n - smaller
        }),
{
    let rest = (n - r) as nat;
    let larger = if r < rest { rest } else { r };
    let smaller = if r < rest { r } else { rest };
    assert(integers_in(r, n).difference(integers_in(0, rest)) =~= integers_in(larger, n));
    assert(integers_in(0, rest).difference(integers_in(r, n)) =~= integers_in(0, smaller));
}

/// There is exactly one way to choose nothing.
pub proof fn lemma_binomial_none(n: nat)
    ensures
        binomial(n, 0) == 1,
{
}

/// A set has no subset larger than itself.
pub proof fn lemma_binomial_beyond(n: nat, k: nat)
    requires
        k > n,
    ensures
        binomial(n, k) == 0,
    decreases n,
{
    if n > 0 {
        lemma_binomial_beyond((n - 1) as nat, (k - 1) as nat);
        lemma_binomial_beyond((n - 1) as nat, k);
    }
}

/// There is exactly one way to choose everything.
pub proof fn lemma_binomial_all(n: nat)
    ensures
        binomial(n, n) == 1,
    decreases n,
{
    if n > 0 {
        lemma_binomial_all((n - 1) as nat);
        lemma_binomial_beyond((n - 1) as nat, n);
    }
}

/// Choosing `k` items to keep is choosing `n - k` items to leave out.
pub proof fn lemma_binomial_symmetric(n: nat, k: nat)
    requires
        k <= n,
    ensures
        binomial(n, k) == binomial(n, (n - k) as nat),
    decreases n,
{
    if k == 0 || k == n {
        lemma_binomial_all(n);
    } else {
        lemma_binomial_symmetric((n - 1) as nat, (k - 1) as nat);
        lemma_binomial_symmetric((n - 1) as nat, k);
    }
}

/// A set has at least one subset of every size up to its own.
pub proof fn lemma_binomial_positive(n: nat, k: nat)
    requires
        k <= n,
    ensures
        binomial(n, k) >= 1,
    decreases n,
{
    if k > 0 && n > 0 {
        lemma_binomial_positive((n - 1) as nat, (k - 1) as nat);
    }
}

/// Only sizes up to `n` have a subset at all.
pub proof fn lemma_binomial_nonzero_iff(n: nat, k: nat)
    ensures
        binomial(n, k) > 0 <==> k <= n,
{
    if k <= n {
        lemma_binomial_positive(n, k);
    } else {
        lemma_binomial_beyond(n, k);
    }
}

/// A factorial is never zero.
pub proof fn lemma_factorial_positive(n: nat)
    ensures
        factorial(n) >= 1,
    decreases n,
{
    if n > 0 {
        lemma_factorial_positive((n - 1) as nat);
        assert(n * factorial((n - 1) as nat) >= 1) by (nonlinear_arith)
            requires
                n >= 1,
                factorial((n - 1) as nat) >= 1,
        ;
    }
}

/// A product that starts above zero is a factorial.
pub proof fn lemma_interval_from_zero(n: nat)
    ensures
        interval_product(0, n) == factorial(n),
    decreases n,
{
    if n > 0 {
        lemma_interval_from_zero((n - 1) as nat);
    }
}

/// The smallest factor of a non-empty interval can be split off.
pub proof fn lemma_interval_split_low(lo: nat, hi: nat)
    requires
        lo < hi,
    ensures
        interval_product(lo, hi) == (lo + 1) * interval_product(lo + 1, hi),
    decreases hi,
{
    if hi == lo + 1 {
        assert(interval_product(lo, lo) == 1);
        assert(interval_product(lo + 1, hi) == 1);
    } else {
        let below = (hi - 1) as nat;
        lemma_interval_split_low(lo, below);
        let p = interval_product(lo + 1, below);
        assert(interval_product(lo, below) == (lo + 1) * p);
        assert(interval_product(lo + 1, hi) == hi * p);
        assert(hi * ((lo + 1) * p) == (lo + 1) * (hi * p)) by (nonlinear_arith);
    }
}

/// The product of the `m` largest integers up to `n` counts the ordered
/// choices of `m` out of `n`: every unordered choice, in each of its orders.
pub proof fn lemma_falling_product(n: nat, m: nat)
    requires
        m <= n,
    ensures
        interval_product((n - m) as nat, n) == binomial(n, m) * factorial(m),
    decreases n,
{
    if m == 0 {
        assert(binomial(n, 0) * factorial(0) == 1) by (nonlinear_arith)
            requires
                binomial(n, 0) == 1,
                factorial(0) == 1,
        ;
    } else if m == n {
        lemma_interval_from_zero(n);
        lemma_binomial_all(n);
        assert(binomial(n, n) * factorial(n) == factorial(n)) by (nonlinear_arith)
            requires
                binomial(n, n) == 1,
        ;
    } else {
        let n1 = (n - 1) as nat;
        let m1 = (m - 1) as nat;
        let low = (n - m) as nat;
        let p = interval_product(low, n1);
        let with_first = binomial(n1, m1);
        let without_first = binomial(n1, m);
        lemma_falling_product(n1, m1);
        lemma_falling_product(n1, m);
        assert(p == with_first * factorial(m1));
        lemma_interval_split_low((low - 1) as nat, n1);
        assert(low * p == without_first * factorial(m));
        assert(factorial(m) == m * factorial(m1));
        assert(with_first * (m * factorial(m1)) == m * (with_first * factorial(m1)))
            by (nonlinear_arith);
        assert((with_first + without_first) * factorial(m) == with_first * factorial(m)
            + without_first * factorial(m)) by (nonlinear_arith);
        assert(m * p + low * p == n * p) by (nonlinear_arith)
            requires
                m + low == n,
        ;
    }
}

/// Dividing the falling product by the factorial leaves the binomial coefficient,
/// with no remainder.
pub proof fn lemma_binomial_as_quotient(n: nat, m: nat)
    requires
        m <= n,
    ensures
        factorial(m) > 0,
        interval_product((n - m) as nat, n) % factorial(m) == 0,
        interval_product((n - m) as nat, n) / factorial(m) == binomial(n, m),
{
    lemma_falling_product(n, m);
    lemma_factorial_positive(m);
    let b = binomial(n, m) as int;
    let f = factorial(m) as int;
    assert((b * f) % f == 0 && (b * f) / f == b) by (nonlinear_arith)
        requires
            f > 0,
            b >= 0,
    ;
}

} // verus!
