use isomorphic_graph_creation::{
    unrank, unrank_combination_single, unrank_many, unrank_parallel, Cache, UnrankError,
};
use rand::rngs::StdRng;
use rand::{Rng, SeedableRng};

fn _create_random_input(size: u32) -> Vec<u64> {
    let mut rng = StdRng::seed_from_u64(32);
    (0..size).into_iter().map(|_| rng.gen_range(0..100)).collect()
}

#[test]
fn test_rank_complete() {
    let input = vec![5, 8, 0, 1];
    let all_results: Vec<Vec<u64>> = unrank(&input, 2).unwrap();
    assert_eq!(all_results[0], vec![5, 8]);
    assert_eq!(all_results[1], vec![5, 0]);
    assert_eq!(all_results[2], vec![5, 1]);
    assert_eq!(all_results[3], vec![8, 0]);
    assert_eq!(all_results[4], vec![8, 1]);
    assert_eq!(all_results[5], vec![0, 1]);
}

#[test]
fn test_rank_complete_parallel() {
    let input = vec![5, 8, 0, 1];
    let all_results: Vec<Vec<u64>> = unrank_parallel(&input, 2).unwrap();
    assert_eq!(all_results[0], vec![5, 8]);
    assert_eq!(all_results[1], vec![5, 0]);
    assert_eq!(all_results[2], vec![5, 1]);
    assert_eq!(all_results[3], vec![8, 0]);
    assert_eq!(all_results[4], vec![8, 1]);
    assert_eq!(all_results[5], vec![0, 1]);
}

#[test]
fn test_rank_big() {
    let input = _create_random_input(40);
    let all_results: Vec<Vec<u64>> = unrank_parallel(&input, 2).unwrap();
    assert!(all_results.len() > 0)
}

#[test]
fn test_rank_first() {
    assert_eq!(unrank_combination_single(&vec![5, 8, 0], 2, 0, None), Ok(vec![5, 8]));
}

#[test]
fn test_rank_second() {
    assert_eq!(unrank_combination_single(&vec![5, 8, 0], 2, 1, None), Ok(vec![5, 0]));
}

#[test]
fn test_rank_last() {
    assert_eq!(unrank_combination_single(&vec![5, 8, 0], 2, 2, None), Ok(vec![8, 0]));
}

#[test]
fn test_rank_one_past_the_last_is_refused() {
    assert_eq!(
        unrank_combination_single(&vec![5, 8, 0], 2, 3, None),
        Err(UnrankError::InvalidRank)
    );
    let mut cache = Cache::new();
    assert_eq!(
        unrank_combination_single(&vec![5, 8, 0, 1], 2, 6, Some(&mut cache)),
        Err(UnrankError::InvalidRank)
    );
}

#[test]
fn test_subset_size_zero_is_refused() {
    assert_eq!(
        unrank_combination_single(&vec![5, 8, 0], 0, 0, None),
        Err(UnrankError::InvalidSubsetSize)
    );
    assert_eq!(unrank(&vec![5, 8, 0], 0), Err(UnrankError::InvalidSubsetSize));
    assert_eq!(unrank_parallel(&vec![5, 8, 0], 0), Err(UnrankError::InvalidSubsetSize));
    assert_eq!(unrank_many(&vec![5, 8, 0], 0, &vec![0]), Err(UnrankError::InvalidSubsetSize));
}

#[test]
fn test_subset_size_above_the_set_is_refused() {
    assert_eq!(
        unrank_combination_single(&vec![5, 8, 0], 4, 0, None),
        Err(UnrankError::InvalidSubsetSize)
    );
    assert_eq!(unrank(&vec![5, 8, 0], 4), Err(UnrankError::InvalidSubsetSize));
    assert_eq!(unrank_parallel(&vec![], 1), Err(UnrankError::InvalidSubsetSize));
    assert_eq!(unrank_many(&vec![5, 8, 0], 4, &vec![]), Err(UnrankError::InvalidSubsetSize));
}

#[test]
fn test_whole_set_is_its_only_combination() {
    assert_eq!(unrank(&vec![5, 8, 0], 3), Ok(vec![vec![5, 8, 0]]));
    assert_eq!(
        unrank_combination_single(&vec![5, 8, 0], 3, 1, None),
        Err(UnrankError::InvalidRank)
    );
}

#[test]
fn test_table_does_not_change_results() {
    let input: Vec<u64> = vec![10, 20, 30, 40, 50, 60];
    let mut cache = Cache::new();
    for rank in 0..20u64 {
        let with_table = unrank_combination_single(&input, 3, rank, Some(&mut cache));
        let without = unrank_combination_single(&input, 3, rank, None);
        assert_eq!(with_table, without);
        assert_eq!(with_table.unwrap().len(), 3);
    }
    assert_eq!(
        unrank_combination_single(&input, 3, 20, Some(&mut cache)),
        Err(UnrankError::InvalidRank)
    );
}

#[test]
fn test_sequential_and_parallel_agree() {
    let input: Vec<u64> = vec![7, 3, 9, 1, 4, 8, 2];
    for k in 1..=7u64 {
        let sequential = unrank(&input, k).unwrap();
        let parallel = unrank_parallel(&input, k).unwrap();
        let ranks: Vec<u64> = (0..sequential.len() as u64).collect();
        let many = unrank_many(&input, k, &ranks).unwrap();
        assert_eq!(sequential, parallel);
        assert_eq!(sequential, many);
    }
}

#[test]
fn test_many_keeps_the_order_of_the_ranks_given() {
    let input = vec![5, 8, 0, 1];
    let rows = unrank_many(&input, 2, &vec![5, 0, 3, 3]).unwrap();
    assert_eq!(rows, vec![vec![0, 1], vec![5, 8], vec![8, 0], vec![8, 0]]);
    assert_eq!(unrank_many(&input, 2, &vec![]), Ok(vec![]));
}

#[test]
fn test_many_refuses_a_rank_out_of_range() {
    let input = vec![5, 8, 0, 1];
    assert_eq!(unrank_many(&input, 2, &vec![0, 6, 1]), Err(UnrankError::InvalidRank));
}

#[test]
fn test_all_combinations_are_distinct_and_complete() {
    let input: Vec<u64> = vec![11, 22, 33, 44, 55, 66];
    let rows = unrank(&input, 3).unwrap();
    assert_eq!(rows.len(), 20);
    for a in 0..rows.len() {
        for b in (a + 1)..rows.len() {
            assert_ne!(rows[a], rows[b]);
        }
    }
    for x in 0..6usize {
        for y in (x + 1)..6 {
            for z in (y + 1)..6 {
                let wanted = vec![input[x], input[y], input[z]];
                assert!(rows.contains(&wanted));
            }
        }
    }
}

#[test]
fn test_positions_increase_lexicographically_with_the_rank() {
    let input: Vec<u64> = vec![0, 1, 2, 3, 4, 5, 6];
    let rows = unrank(&input, 4).unwrap();
    assert_eq!(rows.len(), 35);
    for rank in 1..rows.len() {
        assert!(rows[rank - 1] < rows[rank]);
    }
}

#[test]
fn test_too_many_combinations_to_list() {
    let input: Vec<u64> = (0..70).collect();
    assert_eq!(unrank(&input, 35), Err(UnrankError::ArithmeticOverflow));
    assert_eq!(unrank_parallel(&input, 35), Err(UnrankError::ArithmeticOverflow));
}

#[test]
fn test_rank_in_a_large_set() {
    let input: Vec<u64> = (0..70).collect();
    let first = unrank_combination_single(&input, 35, 0, None).unwrap();
    assert_eq!(first, (0..35).collect::<Vec<u64>>());
    let far = unrank_combination_single(&input, 35, u64::MAX, None).unwrap();
    assert_eq!(far.len(), 35);
    let many = unrank_many(&input, 35, &vec![0, u64::MAX]).unwrap();
    assert_eq!(many, vec![first, far]);
}
