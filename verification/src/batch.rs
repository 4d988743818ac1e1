//! Decoding many ranks at once, one after another or side by side.

use crate::binomial::binomial;
use crate::cache::Cache;
use crate::error::UnrankError;
use crate::unrank::{decode, unrank_spec, valid_rank, valid_size};
use rayon::iter::{IntoParallelRefIterator, ParallelIterator};
use vstd::prelude::*;

verus! {

/// What a list of combinations holds, as sequences.
pub open spec fn contents(rows: Seq<Vec<u64>>) -> Seq<Seq<u64>> {
    Seq::new(rows.len(), |j: int| rows[j]@)
}

/// All `k`-element combinations of `set`, in the order of their ranks.
pub open spec fn all_combinations(set: Seq<u64>, k: nat) -> Seq<Seq<u64>> {
    Seq::new(binomial(set.len(), k), |rank: int| unrank_spec(set, k, rank as nat))
}

/// The `k`-element combinations of `set` with the given ranks, in the order of the ranks given.
pub open spec fn combinations_at(set: Seq<u64>, k: nat, ranks: Seq<u64>) -> Seq<Seq<u64>> {
    Seq::new(ranks.len(), |j: int| unrank_spec(set, k, ranks[j] as nat))
}

/// Whether each of the given ranks is held by a `k`-element combination of `n` elements.
pub open spec fn valid_ranks(n: nat, k: nat, ranks: Seq<u64>) -> bool {
    forall|j: int| 0 <= j < ranks.len() ==> valid_rank(n, k, #[trigger] ranks[j] as nat)
}

/// The ranks from zero up to `count`, each in its own place.
pub open spec fn first_ranks(count: nat) -> Seq<u64> {
    Seq::new(count, |j: int| j as u64)
}

/// Applies `work` to each of the given items on rayon's worker threads.
///
/// Calls `par_iter` on the items, `map` with a closure that hands one item to
/// `work`, and `collect` into a vector. Taken on trust: rayon calls `work` once
/// for each item and puts each result at the place of its item, whatever the
/// order in which the workers finish.
#[verifier::external_body]
pub(crate) fn map_in_parallel<T: Send, F: Fn(u64) -> T + Sync + Send>(items: &Vec<u64>, work: F) -> (results:
    Vec<T>)
    requires
        forall|j: int| 0 <= j < items@.len() ==> call_requires(work, (#[trigger] items@[j],)),
    ensures
        results@.len() == items@.len(),
        forall|j: int|
            0 <= j < items@.len() ==> call_ensures(work, (items@[j],), #[trigger] results@[j]),
{
    items.par_iter().map(|item| work(*item)).collect()
}

/// Decodes the given ranks side by side, each without a table.
fn decode_each(set: &Vec<u64>, subset_size: u64, ranks: &Vec<u64>) -> (rows: Vec<Vec<u64>>)
    requires
        valid_ranks(set@.len(), subset_size as nat, ranks@),
    ensures
        contents(rows@) == combinations_at(set@, subset_size as nat, ranks@),
{
    let decode_one = |rank: u64| -> (row: Vec<u64>)
        requires
            valid_rank(set@.len(), subset_size as nat, rank as nat),
        ensures
            row@ == unrank_spec(set@, subset_size as nat, rank as nat),
        { decode(set, subset_size, rank, None) };
    let rows = map_in_parallel(ranks, decode_one);
    assert(contents(rows@) =~= combinations_at(set@, subset_size as nat, ranks@));
    rows
}

/// The number of `subset_size`-element combinations of `set`, for a batch that
/// is to hold one entry for each of them.
///
/// Fails with `InvalidSubsetSize` exactly when `subset_size` is zero or larger
/// than `set`, and otherwise with `ArithmeticOverflow` exactly when the number
/// is too large for a `u64`.
fn count_combinations(set: &Vec<u64>, subset_size: u64, cache: &mut Cache) -> (result: Result<
    u64,
    UnrankError,
>)
    requires
        old(cache).coherent(),
    ensures
        final(cache).coherent(),
        match result {
            Ok(count) => valid_size(set@.len(), subset_size as nat) && count == binomial(
                set@.len(),
                subset_size as nat,
            ),
            Err(e) => if valid_size(set@.len(), subset_size as nat) {
                e == UnrankError::ArithmeticOverflow && binomial(set@.len(), subset_size as nat)
                    > u64::MAX
            } else {
                e == UnrankError::InvalidSubsetSize
            },
        },
{
    let n: usize = set.len();
    if subset_size == 0 || subset_size > n as u64 {
        return Err(UnrankError::InvalidSubsetSize);
    }
    match cache.coefficient(n as u64, subset_size) {
        Ok(exact) => match exact.to_u64() {
            Some(count) => Ok(count),
            None => Err(UnrankError::ArithmeticOverflow),
        },
        Err(_) => Err(UnrankError::InvalidSubsetSize),
    }
}

/// All `subset_size`-element combinations of `set`, one after another in the
/// order of their ranks. One table of coefficients serves all the ranks.
///
/// Fails with `InvalidSubsetSize` exactly when `subset_size` is zero or larger
/// than `set`, and otherwise with `ArithmeticOverflow` exactly when there are
/// more combinations than a `u64` can count.
pub fn unrank(set: &Vec<u64>, subset_size: u64) -> (result: Result<Vec<Vec<u64>>, UnrankError>)
    ensures
        match result {
            Ok(rows) => valid_size(set@.len(), subset_size as nat) && contents(rows@)
                == all_combinations(set@, subset_size as nat),
            Err(e) => if valid_size(set@.len(), subset_size as nat) {
                e == UnrankError::ArithmeticOverflow && binomial(set@.len(), subset_size as nat)
                    > u64::MAX
            } else {
                e == UnrankError::InvalidSubsetSize
            },
        },
{
    let mut cache = Cache::new();
    let count = match count_combinations(set, subset_size, &mut cache) {
        Ok(count) => count,
        Err(e) => {
            return Err(e);
        },
    };
    let mut rows: Vec<Vec<u64>> = Vec::new();
    let mut rank: u64 = 0;
    while rank < count
        invariant
            rank <= count,
            count == binomial(set@.len(), subset_size as nat),
            valid_size(set@.len(), subset_size as nat),
            cache.coherent(),
            rows@.len() == rank,
            forall|j: int| 0 <= j < rank ==> (#[trigger] rows@[j])@ == unrank_spec(set@, subset_size as nat, j as nat),
        decreases count - rank,
    {
        let row = decode(set, subset_size, rank, Some(&mut cache));
        rows.push(row);
        rank = rank + 1;
    }
    assert(contents(rows@) =~= all_combinations(set@, subset_size as nat));
    Ok(rows)
}

/// The `subset_size`-element combinations of `set` with the given ranks: the
/// result has one entry for each rank given, in the order given, and the entry
/// is what decoding that rank alone returns. The ranks are decoded side by
/// side, each without a table, so that no worker waits for another.
///
/// Fails with `InvalidSubsetSize` exactly when `subset_size` is zero or larger
/// than `set`, and otherwise with `InvalidRank` exactly when one of the ranks is
/// not below the number of combinations.
pub fn unrank_many(set: &Vec<u64>, subset_size: u64, ranks: &Vec<u64>) -> (result: Result<
    Vec<Vec<u64>>,
    UnrankError,
>)
    ensures
        match result {
            Ok(rows) => valid_ranks(set@.len(), subset_size as nat, ranks@) && valid_size(
                set@.len(),
                subset_size as nat,
            ) && contents(rows@) == combinations_at(set@, subset_size as nat, ranks@),
            Err(e) => if valid_size(set@.len(), subset_size as nat) {
                e == UnrankError::InvalidRank && !valid_ranks(
                    set@.len(),
                    subset_size as nat,
                    ranks@,
                )
            } else {
                e == UnrankError::InvalidSubsetSize
            },
        },
{
    let mut cache = Cache::new();
    let bound = match count_combinations(set, subset_size, &mut cache) {
        Ok(count) => Some(count),
        Err(UnrankError::ArithmeticOverflow) => None,
        Err(_) => {
            return Err(UnrankError::InvalidSubsetSize);
        },
    };
    if let Some(count) = bound {
        let mut at: usize = 0;
        while at < ranks.len()
            invariant
                at <= ranks.len(),
                count == binomial(set@.len(), subset_size as nat),
                valid_size(set@.len(), subset_size as nat),
                forall|j: int| 0 <= j < at ==> valid_rank(set@.len(), subset_size as nat, #[trigger] ranks@[j] as nat),
            decreases ranks.len() - at,
        {
            if ranks[at] >= count {
                assert(!valid_rank(set@.len(), subset_size as nat, ranks@[at as int] as nat));
                return Err(UnrankError::InvalidRank);
            }
            at = at + 1;
        }
    }
    Ok(decode_each(set, subset_size, ranks))
}

/// All `subset_size`-element combinations of `set` in the order of their ranks,
/// decoded side by side. The result is that of `unrank`.
///
/// Fails with `InvalidSubsetSize` exactly when `subset_size` is zero or larger
/// than `set`, and otherwise with `ArithmeticOverflow` exactly when there are
/// more combinations than a `u64` can count.
pub fn unrank_parallel(set: &Vec<u64>, subset_size: u64) -> (result: Result<
    Vec<Vec<u64>>,
    UnrankError,
>)
    ensures
        match result {
            Ok(rows) => valid_size(set@.len(), subset_size as nat) && contents(rows@)
                == all_combinations(set@, subset_size as nat),
            Err(e) => if valid_size(set@.len(), subset_size as nat) {
                e == UnrankError::ArithmeticOverflow && binomial(set@.len(), subset_size as nat)
                    > u64::MAX
            } else {
                e == UnrankError::InvalidSubsetSize
            },
        },
{
    let mut cache = Cache::new();
    let count = match count_combinations(set, subset_size, &mut cache) {
        Ok(count) => count,
        Err(e) => {
            return Err(e);
        },
    };
    let ranks = ranks_below(count);
    let rows = decode_each(set, subset_size, &ranks);
    proof {
        lemma_all_ranks_give_all(set@, subset_size as nat);
    }
    Ok(rows)
}

/// The ranks from zero up to `count`.
pub(crate) fn ranks_below(count: u64) -> (ranks: Vec<u64>)
    ensures
        ranks@ == first_ranks(count as nat),
{
    let mut ranks: Vec<u64> = Vec::new();
    let mut rank: u64 = 0;
    while rank < count
        invariant
            rank <= count,
            ranks@ == first_ranks(rank as nat),
        decreases count - rank,
    {
        ranks.push(rank);
        rank = rank + 1;
        assert(ranks@ =~= first_ranks(rank as nat));
    }
    ranks
}

/// Decoding the ranks from zero up to the number of combinations, in a batch of
/// given ranks, gives what decoding all ranks gives: the two ways of batch
/// decoding agree, entry for entry.
pub proof fn lemma_all_ranks_give_all(set: Seq<u64>, k: nat)
    requires
        binomial(set.len(), k) <= u64::MAX,
    ensures
        combinations_at(set, k, first_ranks(binomial(set.len(), k))) == all_combinations(set, k),
{
    assert(combinations_at(set, k, first_ranks(binomial(set.len(), k))) =~= all_combinations(
        set,
        k,
    ));
}

} // verus!
