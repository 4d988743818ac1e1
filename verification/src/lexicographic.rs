//! Why decoding is the lexicographic numbering of combinations: it reaches every
//! combination once, and a larger rank gives a later combination.

use crate::batch::all_combinations;
use crate::binomial::{binomial, lemma_binomial_nonzero_iff};
use crate::unrank::{
    decode_from, is_combination, lemma_decode_is_combination, select, unrank_positions, unrank_spec,
};
use vstd::prelude::*;
use vstd::relations::injective_on;
use vstd::set_lib::{lemma_int_range, lemma_map_size, set_int_range};

verus! {

/// `a` comes before `b` in lexicographic order: where they first differ, `a` has
/// the smaller entry.
pub open spec fn lex_less(a: Seq<int>, b: Seq<int>) -> bool {
    exists|d: int| #[trigger] differ_first_at(a, b, d)
}

/// `a` and `b` agree before place `d`, and there `a` has the smaller entry.
pub open spec fn differ_first_at(a: Seq<int>, b: Seq<int>, d: int) -> bool {
    &&& 0 <= d < a.len()
    &&& d < b.len()
    &&& a[d] < b[d]
    &&& forall|i: int| 0 <= i < d ==> a[i] == b[i]
}

/// The number of combinations of the size of `positions`, with positions from
/// `at` on, that come before `positions` in lexicographic order.
pub open spec fn rank_from(n: nat, at: nat, positions: Seq<int>) -> nat
    decreases n - at,
{
    if positions.len() == 0 || at >= n {
        0
    } else if positions[0] == at {
        rank_from(n, at + 1, positions.skip(1))
    } else {
        binomial((n - at - 1) as nat, (positions.len() - 1) as nat) + rank_from(
            n,
            at + 1,
            positions,
        )
    }
}

/// The rank of a combination of positions in a base set of `n` elements.
pub open spec fn rank_of(n: nat, positions: Seq<int>) -> nat {
    rank_from(n, 0, positions)
}

/// `combination` consists of `k` elements of `set`, in the order in which they
/// stand there.
pub open spec fn is_subset_in_order(set: Seq<u64>, k: nat, combination: Seq<u64>) -> bool {
    exists|positions: Seq<int>| #[trigger]
        picks(set, k, positions, combination)
}

/// `positions` are those of a `k`-element combination of `set`, and
/// `combination` holds the elements at them.
pub open spec fn picks(set: Seq<u64>, k: nat, positions: Seq<int>, combination: Seq<u64>) -> bool {
    &&& positions.len() == k
    &&& is_combination(set.len(), 0, positions)
    &&& combination == select(set, positions)
}

/// Of two ranks below the number of combinations, the smaller decodes to the
/// combination that comes first.
pub proof fn lemma_decode_keeps_order(n: nat, at: nat, size: nat, earlier: nat, later: nat)
    requires
        at <= n,
        earlier < later < binomial((n - at) as nat, size),
    ensures
        lex_less(decode_from(n, at, size, earlier), decode_from(n, at, size, later)),
    decreases n - at,
{
    lemma_binomial_nonzero_iff((n - at) as nat, size);
    let a = decode_from(n, at, size, earlier);
    let b = decode_from(n, at, size, later);
    lemma_decode_is_combination(n, at, size, earlier);
    lemma_decode_is_combination(n, at, size, later);
    let with_this = binomial((n - at - 1) as nat, (size - 1) as nat);
    if later < with_this {
        let rest_a = decode_from(n, at + 1, (size - 1) as nat, earlier);
        let rest_b = decode_from(n, at + 1, (size - 1) as nat, later);
        lemma_decode_keeps_order(n, at + 1, (size - 1) as nat, earlier, later);
        let d = choose|d: int| differ_first_at(rest_a, rest_b, d);
        assert(differ_first_at(a, b, d + 1)) by {
            assert(a[d + 1] == rest_a[d]);
            assert(b[d + 1] == rest_b[d]);
            assert forall|i: int| 0 <= i < d + 1 implies a[i] == b[i] by {
                if i > 0 {
                    assert(a[i] == rest_a[i - 1]);
                    assert(b[i] == rest_b[i - 1]);
                }
            }
        }
    } else if earlier < with_this {
        lemma_decode_is_combination(n, at + 1, size, (later - with_this) as nat);
        assert(a[0] == at);
        assert(b[0] >= at + 1);
        assert(differ_first_at(a, b, 0));
    } else {
        lemma_decode_keeps_order(
            n,
            at + 1,
            size,
            (earlier - with_this) as nat,
            (later - with_this) as nat,
        );
    }
}

/// A combination has a rank below the number of combinations, and that rank
/// decodes to it.
pub proof fn lemma_rank_decodes_back(n: nat, at: nat, positions: Seq<int>)
    requires
        at <= n,
        is_combination(n, at, positions),
    ensures
        rank_from(n, at, positions) < binomial((n - at) as nat, positions.len()),
        decode_from(n, at, positions.len(), rank_from(n, at, positions)) == positions,
    decreases n - at,
{
    let size = positions.len();
    if size == 0 {
        assert(decode_from(n, at, 0, 0) =~= positions);
    } else {
        assert(at <= positions[0] < n);
        let with_this = binomial((n - at - 1) as nat, (size - 1) as nat);
        if positions[0] == at {
            let rest = positions.skip(1);
            assert(is_combination(n, at + 1, rest)) by {
                assert forall|i: int| 0 <= i < rest.len() implies at + 1 <= #[trigger] rest[i]
                    < n by {
                    assert(rest[i] == positions[i + 1]);
                    assert(positions[0] < positions[i + 1]);
                }
                assert forall|i: int, j: int| 0 <= i < j < rest.len() implies #[trigger] rest[i]
                    < #[trigger] rest[j] by {
                    assert(rest[i] == positions[i + 1]);
                    assert(rest[j] == positions[j + 1]);
                }
            }
            lemma_rank_decodes_back(n, at + 1, rest);
            assert(seq![at as int] + rest =~= positions);
        } else {
            assert(is_combination(n, at + 1, positions)) by {
                assert forall|i: int| 0 <= i < positions.len() implies at + 1
                    <= #[trigger] positions[i] < n by {
                    if i > 0 {
                        assert(positions[0] < positions[i]);
                    }
                }
            }
            lemma_rank_decodes_back(n, at + 1, positions);
        }
    }
}

/// The rank of what a rank decodes to is that rank.
pub proof fn lemma_decode_ranks_back(n: nat, at: nat, size: nat, rank: nat)
    requires
        at <= n,
        rank < binomial((n - at) as nat, size),
    ensures
        rank_from(n, at, decode_from(n, at, size, rank)) == rank,
    decreases n - at,
{
    lemma_binomial_nonzero_iff((n - at) as nat, size);
    lemma_decode_is_combination(n, at, size, rank);
    if size > 0 {
        let with_this = binomial((n - at - 1) as nat, (size - 1) as nat);
        let positions = decode_from(n, at, size, rank);
        if rank < with_this {
            let rest = decode_from(n, at + 1, (size - 1) as nat, rank);
            lemma_decode_ranks_back(n, at + 1, (size - 1) as nat, rank);
            assert(positions.skip(1) =~= rest);
        } else {
            lemma_decode_is_combination(n, at + 1, size, (rank - with_this) as nat);
            lemma_decode_ranks_back(n, at + 1, size, (rank - with_this) as nat);
            assert(positions[0] >= at + 1);
        }
    }
}

/// The combination that comes first never comes second: nothing comes before itself.
pub proof fn lemma_lex_less_is_strict(a: Seq<int>, b: Seq<int>)
    requires
        lex_less(a, b),
    ensures
        a != b,
{
    let d = choose|d: int| differ_first_at(a, b, d);
    assert(a[d] != b[d]);
}

/// As the rank grows, the combination moves on in lexicographic order: the
/// positions of a smaller rank come before those of a larger one.
pub proof fn lemma_rank_order(n: nat, k: nat, earlier: nat, later: nat)
    requires
        earlier < later < binomial(n, k),
    ensures
        lex_less(unrank_positions(n, k, earlier), unrank_positions(n, k, later)),
{
    lemma_decode_keeps_order(n, 0, k, earlier, later);
}

/// Ranks and combinations of positions correspond one to one: every rank below
/// the number of combinations decodes to a combination of `k` positions,
/// different ranks to different ones, and every such combination is what its
/// own rank decodes to.
pub proof fn lemma_positions_bijection(n: nat, k: nat)
    ensures
        forall|rank: nat|
            rank < binomial(n, k) ==> {
                &&& (#[trigger] unrank_positions(n, k, rank)).len() == k
                &&& is_combination(n, 0, unrank_positions(n, k, rank))
                &&& rank_of(n, unrank_positions(n, k, rank)) == rank
            },
        forall|first: nat, second: nat|
            first < binomial(n, k) && second < binomial(n, k) && first != second
                ==> #[trigger] unrank_positions(n, k, first) != #[trigger] unrank_positions(
                n,
                k,
                second,
            ),
        forall|positions: Seq<int>|
            positions.len() == k && is_combination(n, 0, positions) ==> {
                &&& #[trigger] rank_of(n, positions) < binomial(n, k)
                &&& unrank_positions(n, k, rank_of(n, positions)) == positions
            },
{
    assert forall|rank: nat| rank < binomial(n, k) implies {
        &&& (#[trigger] unrank_positions(n, k, rank)).len() == k
        &&& is_combination(n, 0, unrank_positions(n, k, rank))
        &&& rank_of(n, unrank_positions(n, k, rank)) == rank
    } by {
        lemma_decode_is_combination(n, 0, k, rank);
        lemma_decode_ranks_back(n, 0, k, rank);
    }
    assert forall|first: nat, second: nat|
        first < binomial(n, k) && second < binomial(n, k) && first != second
        implies #[trigger] unrank_positions(n, k, first) != #[trigger] unrank_positions(
        n,
        k,
        second,
    ) by {
        if first < second {
            lemma_rank_order(n, k, first, second);
            lemma_lex_less_is_strict(
                unrank_positions(n, k, first),
                unrank_positions(n, k, second),
            );
        } else {
            lemma_rank_order(n, k, second, first);
            lemma_lex_less_is_strict(
                unrank_positions(n, k, second),
                unrank_positions(n, k, first),
            );
        }
    }
    assert forall|positions: Seq<int>|
        positions.len() == k && is_combination(n, 0, positions) implies {
        &&& #[trigger] rank_of(n, positions) < binomial(n, k)
        &&& unrank_positions(n, k, rank_of(n, positions)) == positions
    } by {
        lemma_rank_decodes_back(n, 0, positions);
    }
}

/// Of two different combinations only one comes before the other.
pub proof fn lemma_lex_less_is_one_way(a: Seq<int>, b: Seq<int>)
    requires
        lex_less(a, b),
    ensures
        !lex_less(b, a),
{
    let d = choose|d: int| differ_first_at(a, b, d);
    if lex_less(b, a) {
        let e = choose|e: int| differ_first_at(b, a, e);
        if d < e {
            assert(b[d] == a[d]);
        } else if e < d {
            assert(a[e] == b[e]);
        }
    }
}

/// The combinations of `k` positions out of `n` that come before `positions`
/// in lexicographic order.
pub open spec fn combinations_before(n: nat, k: nat, positions: Seq<int>) -> Set<Seq<int>> {
    Set::new(
        |other: Seq<int>|
            other.len() == k && is_combination(n, 0, other) && lex_less(other, positions),
    )
}

/// What the rank of a combination is: the number of combinations that come
/// before it. Decoding rank `rank` gives the combination that has exactly `rank`
/// others before it in lexicographic order.
pub proof fn lemma_rank_counts_earlier(n: nat, k: nat, rank: nat)
    requires
        rank < binomial(n, k),
    ensures
        combinations_before(n, k, unrank_positions(n, k, rank)).finite(),
        combinations_before(n, k, unrank_positions(n, k, rank)).len() == rank,
{
    let target = unrank_positions(n, k, rank);
    let before = combinations_before(n, k, target);
    let decoded = |r: int| unrank_positions(n, k, r as nat);
    let ranks = set_int_range(0, rank as int);
    lemma_int_range(0, rank as int);
    lemma_positions_bijection(n, k);
    assert(injective_on(decoded, ranks)) by {
        assert forall|x1: int, x2: int|
            ranks.contains(x1) && ranks.contains(x2) && #[trigger] decoded(x1)
                == #[trigger] decoded(x2) implies x1 == x2 by {
            if x1 != x2 {
                assert(unrank_positions(n, k, x1 as nat) != unrank_positions(n, k, x2 as nat));
            }
        }
    }
    assert forall|other: Seq<int>| ranks.map(decoded).contains(other) implies before.contains(
        other,
    ) by {
        let r = choose|r: int| ranks.contains(r) && other == decoded(r);
        lemma_rank_order(n, k, r as nat, rank);
        assert(unrank_positions(n, k, r as nat).len() == k);
    }
    assert forall|other: Seq<int>| before.contains(other) implies ranks.map(decoded).contains(
        other,
    ) by {
        let r = rank_of(n, other);
        assert(unrank_positions(n, k, r) == other);
        lemma_lex_less_is_strict(other, target);
        if r > rank {
            lemma_rank_order(n, k, rank, r);
            lemma_lex_less_is_one_way(other, target);
        }
        assert(ranks.contains(r as int) && other == decoded(r as int));
    }
    assert(ranks.map(decoded) =~= before);
    lemma_map_size(ranks, before, decoded);
}

/// A base set whose elements grow from each position to the next.
pub open spec fn is_ascending(set: Seq<u64>) -> bool {
    forall|i: int, j: int| 0 <= i < j < set.len() ==> #[trigger] set[i] < #[trigger] set[j]
}

/// The elements of a combination, as integers.
pub open spec fn as_integers(combination: Seq<u64>) -> Seq<int> {
    Seq::new(combination.len(), |i: int| combination[i] as int)
}

/// Where the base set is ascending, as the node indices of a graph are, the
/// elements of the combinations grow with the rank as their positions do: the
/// combination of a smaller rank comes first in lexicographic order of elements.
pub proof fn lemma_rank_order_of_elements(set: Seq<u64>, k: nat, earlier: nat, later: nat)
    requires
        is_ascending(set),
        earlier < later < binomial(set.len(), k),
    ensures
        lex_less(
            as_integers(unrank_spec(set, k, earlier)),
            as_integers(unrank_spec(set, k, later)),
        ),
{
    let n = set.len();
    let a = unrank_positions(n, k, earlier);
    let b = unrank_positions(n, k, later);
    lemma_rank_order(n, k, earlier, later);
    lemma_decode_is_combination(n, 0, k, earlier);
    lemma_decode_is_combination(n, 0, k, later);
    let d = choose|d: int| differ_first_at(a, b, d);
    assert(0 <= a[d] < b[d] < n);
    assert(differ_first_at(
        as_integers(unrank_spec(set, k, earlier)),
        as_integers(unrank_spec(set, k, later)),
        d,
    ));
}

/// In a set without repeated elements, different positions pick different elements.
pub proof fn lemma_select_tells_apart(set: Seq<u64>, first: Seq<int>, second: Seq<int>)
    requires
        set.no_duplicates(),
        is_combination(set.len(), 0, first),
        is_combination(set.len(), 0, second),
        select(set, first) == select(set, second),
    ensures
        first == second,
{
    assert(first.len() == select(set, first).len());
    assert(second.len() == select(set, second).len());
    assert forall|i: int| 0 <= i < first.len() implies first[i] == second[i] by {
        assert(select(set, first)[i] == set[first[i]]);
        assert(select(set, second)[i] == set[second[i]]);
    }
    assert(first =~= second);
}

/// Decoding all ranks lists every combination once. For a set without repeated
/// elements and any subset size, the list of all combinations has "`n` choose `k`"
/// entries, no two of them equal, and holds exactly the sequences of `k`
/// elements of the set in the order of the set.
pub proof fn lemma_all_combinations_are_all(set: Seq<u64>, k: nat)
    requires
        set.no_duplicates(),
    ensures
        all_combinations(set, k).len() == binomial(set.len(), k),
        all_combinations(set, k).no_duplicates(),
        forall|combination: Seq<u64>|
            all_combinations(set, k).contains(combination) <==> is_subset_in_order(
                set,
                k,
                combination,
            ),
{
    let n = set.len();
    let all = all_combinations(set, k);
    lemma_positions_bijection(n, k);
    assert forall|i: int, j: int| 0 <= i < all.len() && 0 <= j < all.len() && i != j implies all[i]
        != all[j] by {
        let first = unrank_positions(n, k, i as nat);
        let second = unrank_positions(n, k, j as nat);
        assert(first != second);
        if all[i] == all[j] {
            lemma_select_tells_apart(set, first, second);
        }
    }
    assert forall|combination: Seq<u64>| all.contains(combination) implies is_subset_in_order(
        set,
        k,
        combination,
    ) by {
        let rank = choose|rank: int| 0 <= rank < all.len() && all[rank] == combination;
        let positions = unrank_positions(n, k, rank as nat);
        assert(picks(set, k, positions, combination));
    }
    assert forall|combination: Seq<u64>|
        is_subset_in_order(set, k, combination) implies all.contains(combination) by {
        let positions = choose|positions: Seq<int>| picks(set, k, positions, combination);
        let rank = rank_of(n, positions);
        assert(unrank_positions(n, k, rank) == positions);
        assert(all[rank as int] == combination);
    }
}

/// The elements of a decoded combination stand in it as they stand in the set:
/// one for each position, in the order of the positions.
pub proof fn lemma_unrank_shape(set: Seq<u64>, k: nat, rank: nat)
    requires
        rank < binomial(set.len(), k),
    ensures
        unrank_spec(set, k, rank).len() == k,
        is_subset_in_order(set, k, unrank_spec(set, k, rank)),
{
    lemma_decode_is_combination(set.len(), 0, k, rank);
    assert(picks(set, k, unrank_positions(set.len(), k, rank), unrank_spec(set, k, rank)));
}

} // verus!
