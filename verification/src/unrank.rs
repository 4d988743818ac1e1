//! From a rank to the combination that holds that rank in lexicographic order.

use crate::binomial::{binomial, lemma_binomial_nonzero_iff};
use crate::cache::Cache;
use crate::coefficient::binomial_coefficient;
use crate::error::UnrankError;
use vstd::pervasive::unreached;
use vstd::prelude::*;

verus! {

/// The positions that the decoding picks from position `at` on, when `size`
/// positions are still to be picked out of the `n` of the base set and `rank`
/// combinations of them come before the one that is wanted.
///
/// The combinations that pick position `at` come first, and there are
/// "`n - at - 1` choose `size - 1`" of them. A smaller rank picks the position;
/// another rank passes it by and leaves those combinations behind.
pub open spec fn decode_from(n: nat, at: nat, size: nat, rank: nat) -> Seq<int>
    decreases n - at,
{
    if size == 0 || at >= n {
        Seq::empty()
    } else {
        let with_this = binomial((n - at - 1) as nat, (size - 1) as nat);
        if rank < with_this {
            seq![at as int] + decode_from(n, at + 1, (size - 1) as nat, rank)
        } else {
            decode_from(n, at + 1, size, (rank - with_this) as nat)
        }
    }
}

/// The positions, in a base set of `n` elements, of the `k`-element combination
/// with the given rank.
pub open spec fn unrank_positions(n: nat, k: nat, rank: nat) -> Seq<int> {
    decode_from(n, 0, k, rank)
}

/// The elements of `set` at the given positions, in the order of the positions.
pub open spec fn select(set: Seq<u64>, positions: Seq<int>) -> Seq<u64> {
    Seq::new(positions.len(), |j: int| set[positions[j]])
}

/// The `k`-element combination of `set` with the given rank.
pub open spec fn unrank_spec(set: Seq<u64>, k: nat, rank: nat) -> Seq<u64> {
    select(set, unrank_positions(set.len(), k, rank))
}

/// A subset size that a base set of `n` elements has combinations of.
pub open spec fn valid_size(n: nat, k: nat) -> bool {
    0 < k <= n
}

/// A rank that one of the `k`-element combinations of `n` elements holds.
pub open spec fn valid_rank(n: nat, k: nat, rank: nat) -> bool {
    valid_size(n, k) && rank < binomial(n, k)
}

/// Positions of a combination: each at least `from` and below `n`, each larger
/// than the one before it.
pub open spec fn is_combination(n: nat, from: nat, positions: Seq<int>) -> bool {
    &&& forall|i: int| 0 <= i < positions.len() ==> from <= #[trigger] positions[i] < n
    &&& forall|i: int, j: int|
        0 <= i < j < positions.len() ==> #[trigger] positions[i] < #[trigger] positions[j]
}

/// Decoding a rank below the number of combinations gives a combination of the
/// size asked for.
pub proof fn lemma_decode_is_combination(n: nat, at: nat, size: nat, rank: nat)
    requires
        at <= n,
        rank < binomial((n - at) as nat, size),
    ensures
        decode_from(n, at, size, rank).len() == size,
        is_combination(n, at, decode_from(n, at, size, rank)),
    decreases n - at,
{
    lemma_binomial_nonzero_iff((n - at) as nat, size);
    if size > 0 {
        let with_this = binomial((n - at - 1) as nat, (size - 1) as nat);
        if rank < with_this {
            lemma_decode_is_combination(n, at + 1, (size - 1) as nat, rank);
        } else {
            lemma_decode_is_combination(n, at + 1, size, (rank - with_this) as nat);
        }
    }
}

/// The coefficient "`n` choose `r`" where it fits a `u64`, from the table if one is given.
fn coefficient_within_u64(n: u64, r: u64, cache: Option<&mut Cache>) -> (c: Option<u64>)
    requires
        r <= n,
        cache matches Some(table) ==> table.coherent(),
    ensures
        cache matches Some(table) ==> final(table).coherent() && table@.dom().subset_of(
            final(table)@.dom(),
        ),
        match c {
            Some(v) => v == binomial(n as nat, r as nat),
            None => binomial(n as nat, r as nat) > u64::MAX,
        },
{
    let exact = match cache {
        Some(table) => table.coefficient(n, r),
        None => binomial_coefficient(&n, &r),
    };
    match exact {
        Ok(value) => value.to_u64(),
        Err(_) => unreached(),
    }
}

/// The combination with the given rank, for a request that is known to be valid.
pub(crate) fn decode(set: &Vec<u64>, subset_size: u64, rank: u64, cache: Option<&mut Cache>) -> (combination:
    Vec<u64>)
    requires
        valid_rank(set@.len(), subset_size as nat, rank as nat),
        cache matches Some(table) ==> table.coherent(),
    ensures
        cache matches Some(table) ==> final(table).coherent() && table@.dom().subset_of(
            final(table)@.dom(),
        ),
        combination@ == unrank_spec(set@, subset_size as nat, rank as nat),
        combination@.len() == subset_size,
{
    let ghost given = cache;
    let mut cache = cache;
    let n: usize = set.len();
    let mut combination: Vec<u64> = Vec::new();
    let mut at: usize = 0;
    let mut size: u64 = subset_size;
    let mut passed: u64 = rank;
    let ghost mut picked: Seq<int> = Seq::empty();
    while size > 0
        invariant
            n == set@.len(),
            at <= n,
            passed < binomial((n - at) as nat, size as nat),
            unrank_positions(n as nat, subset_size as nat, rank as nat) == picked + decode_from(
                n as nat,
                at as nat,
                size as nat,
                passed as nat,
            ),
            combination@ == select(set@, picked),
            cache is Some <==> given is Some,
            cache matches Some(table) ==> table.coherent() && *final(table) == *final(given->Some_0)
                && (given->Some_0)@.dom().subset_of(table@.dom()),
        decreases n - at,
    {
        proof {
            lemma_binomial_nonzero_iff((n - at) as nat, size as nat);
        }
        let ghost tail = decode_from(n as nat, at as nat, size as nat, passed as nat);
        let with_this = match &mut cache {
            Some(table) => coefficient_within_u64((n - at - 1) as u64, size - 1, Some(&mut **table)),
            None => coefficient_within_u64((n - at - 1) as u64, size - 1, None),
        };
        let pick = match with_this {
            Some(count) => passed < count,
            None => true,
        };
        if pick {
            combination.push(set[at]);
            size = size - 1;
            proof {
                let rest = decode_from(n as nat, (at + 1) as nat, size as nat, passed as nat);
                assert(tail == seq![at as int] + rest);
                assert(picked + tail =~= picked.push(at as int) + rest);
                assert(combination@ =~= select(set@, picked.push(at as int)));
                picked = picked.push(at as int);
            }
        } else {
            passed = passed - with_this.unwrap();
        }
        at = at + 1;
    }
    proof {
        assert(picked + Seq::<int>::empty() =~= picked);
        lemma_decode_is_combination(n as nat, 0, subset_size as nat, rank as nat);
    }
    combination
}

/// Decodes one rank: the `subset_size`-element combination of `set` that holds
/// rank `rank` among all of them in lexicographic order of positions.
///
/// The elements of the result stand in the order in which they stand in `set`.
/// With a table, coefficients that it holds are looked up and the others are
/// recorded in it; without one, each coefficient is computed when it is needed.
/// The result is the same either way.
///
/// Fails with `InvalidSubsetSize` exactly when `subset_size` is zero or larger
/// than `set`, and otherwise with `InvalidRank` exactly when `rank` is not below
/// the number of combinations.
pub fn unrank_combination_single(
    set: &Vec<u64>,
    subset_size: u64,
    rank: u64,
    cache: Option<&mut Cache>,
) -> (result: Result<Vec<u64>, UnrankError>)
    requires
        cache matches Some(table) ==> table.coherent(),
    ensures
        cache matches Some(table) ==> final(table).coherent() && table@.dom().subset_of(
            final(table)@.dom(),
        ),
        match result {
            Ok(combination) => valid_rank(set@.len(), subset_size as nat, rank as nat)
                && combination@ == unrank_spec(set@, subset_size as nat, rank as nat)
                && combination@.len() == subset_size,
            Err(e) => if valid_size(set@.len(), subset_size as nat) {
                e == UnrankError::InvalidRank && rank >= binomial(set@.len(), subset_size as nat)
            } else {
                e == UnrankError::InvalidSubsetSize
            },
        },
{
    let ghost given = cache;
    let mut cache = cache;
    let n: usize = set.len();
    if subset_size == 0 || subset_size > n as u64 {
        return Err(UnrankError::InvalidSubsetSize);
    }
    let total = match &mut cache {
        Some(table) => coefficient_within_u64(n as u64, subset_size, Some(&mut **table)),
        None => coefficient_within_u64(n as u64, subset_size, None),
    };
    let in_range = match total {
        Some(count) => rank < count,
        None => true,
    };
    assert(cache matches Some(table) ==> table.coherent() && *final(table) == *final(given->Some_0)
        && (given->Some_0)@.dom().subset_of(table@.dom()));
    if !in_range {
        return Err(UnrankError::InvalidRank);
    }
    Ok(decode(set, subset_size, rank, cache))
}

} // verus!
