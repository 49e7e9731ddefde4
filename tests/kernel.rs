use fannkuch_redux::blocks::{partition_blocks, Block, NUM_BLOCKS};
use fannkuch_redux::factorial::factorial_table;
use fannkuch_redux::flips::count_flips;
use fannkuch_redux::kernel::{fannkuch, fannkuch_steps, fannkuch_with_blocks, run_block};
use fannkuch_redux::permutation::PermState;
use fannkuch_redux::reduce::combine_results;

fn flips_of(deck: &[usize]) -> u32 {
    let current: Vec<usize> = deck.to_vec();
    let mut scratch = vec![0usize; deck.len()];
    let r = count_flips(&current, &mut scratch);
    assert_eq!(scratch.len(), deck.len());
    r
}

/// Checks the partition laws directly: non-empty, ordered, contiguous, from
/// 0 to `total`.
fn assert_partition(blocks: &[Block], total: u64) {
    assert!(!blocks.is_empty());
    assert_eq!(blocks[0].start, 0);
    assert_eq!(blocks[blocks.len() - 1].end, total);
    for (i, b) in blocks.iter().enumerate() {
        assert!(b.start < b.end);
        if i + 1 < blocks.len() {
            assert_eq!(b.end, blocks[i + 1].start);
        }
    }
    let covered: u64 = blocks.iter().map(|b| b.end - b.start).sum();
    assert_eq!(covered, total);
}

#[test]
fn seven_gives_reference_result() {
    assert_eq!(fannkuch(7), (228, 16));
}

#[test]
fn one_gives_zero() {
    assert_eq!(fannkuch(1), (0, 0));
}

#[test]
fn two_has_one_flip_at_an_odd_index() {
    // [0, 1] needs no flip; [1, 0] needs one and stands at index 1.
    assert_eq!(fannkuch(2), (-1, 1));
}

#[test]
fn three_small_deck() {
    // Decks in order: [0,1,2] [1,0,2] [1,2,0] [2,1,0] [2,0,1] [0,2,1]
    // with flips 0, 1, 2, 1, 2, 0 and signs + - + - + -.
    assert_eq!(fannkuch(3), (0 - 1 + 2 - 1 + 2 - 0, 2));
}

#[test]
fn flip_counter_on_swapped_pair() {
    assert_eq!(flips_of(&[1, 0]), 1);
}

#[test]
fn flip_counter_examples() {
    assert_eq!(flips_of(&[0]), 0);
    assert_eq!(flips_of(&[0, 2, 1]), 0);
    assert_eq!(flips_of(&[3, 2, 1, 0]), 1);
    assert_eq!(flips_of(&[2, 0, 1]), 2);
    assert_eq!(flips_of(&[1, 2, 0]), 2);
    assert_eq!(flips_of(&[3, 0, 1, 2]), 2);
    assert_eq!(flips_of(&[1, 2, 3, 0]), 3);
}

#[test]
fn block_count_does_not_change_result() {
    for n in 1..=8 {
        let one = fannkuch_with_blocks(n, 1);
        let many = fannkuch_with_blocks(n, NUM_BLOCKS);
        assert_eq!(one, many);
        assert_eq!(fannkuch_with_blocks(n, 7), one);
        assert_eq!(fannkuch_with_blocks(n, 1000), one);
        assert_eq!(fannkuch(n), one);
    }
}

#[test]
fn decoding_zero_gives_identity() {
    for n in 1..=16usize {
        let table = factorial_table(n);
        let state = PermState::decode(n, &table, 0);
        let identity: Vec<usize> = (0..n).collect();
        assert_eq!(state.current, identity);
        assert_eq!(state.count, vec![0usize; n]);
    }
}

#[test]
fn stepping_matches_decoding() {
    for n in 1..=6usize {
        let table = factorial_table(n);
        let total = table[n];
        let mut state = PermState::decode(n, &table, 0);
        for idx in 0..total - 1 {
            state.advance();
            let direct = PermState::decode(n, &table, idx + 1);
            assert_eq!(state.current, direct.current);
            assert_eq!(state.count, direct.count);
        }
    }
}

#[test]
fn stepping_matches_decoding_at_large_indices() {
    let n = 12usize;
    let table = factorial_table(n);
    for start in [0u64, 1, 5039, 5040, 39916799, 39916800, 479001598] {
        let mut state = PermState::decode(n, &table, start);
        state.advance();
        let direct = PermState::decode(n, &table, start + 1);
        assert_eq!(state.current, direct.current);
        assert_eq!(state.count, direct.count);
    }
}

#[test]
fn stepping_into_the_last_index_of_the_largest_deck() {
    let n = 16usize;
    let table = factorial_table(n);
    let last = table[n] - 1;
    let mut state = PermState::decode(n, &table, last - 1);
    state.advance();
    let direct = PermState::decode(n, &table, last);
    assert_eq!(state.current, direct.current);
    assert_eq!(state.count, direct.count);
    let maximal: Vec<usize> = (0..n).collect();
    assert_eq!(direct.count, maximal);
}

#[test]
fn decoder_gives_permutations_in_order() {
    let table = factorial_table(3);
    let expected: [[usize; 3]; 6] =
        [[0, 1, 2], [1, 0, 2], [1, 2, 0], [2, 1, 0], [2, 0, 1], [0, 2, 1]];
    for (idx, deck) in expected.iter().enumerate() {
        let state = PermState::decode(3, &table, idx as u64);
        assert_eq!(state.current, deck.to_vec());
    }
}

#[test]
fn last_index_decodes_to_maximal_counters() {
    let table = factorial_table(4);
    let state = PermState::decode(4, &table, 23);
    assert_eq!(state.count, vec![0, 1, 2, 3]);
}

#[test]
fn factorial_table_values() {
    assert_eq!(factorial_table(0), vec![1]);
    assert_eq!(factorial_table(5), vec![1, 1, 2, 6, 24, 120]);
    assert_eq!(factorial_table(16)[16], 20922789888000);
    assert_eq!(factorial_table(12)[12], 479001600);
}

#[test]
fn partition_below_block_count_is_one_block() {
    let blocks = partition_blocks(6, 24);
    assert_eq!(blocks, vec![Block { start: 0, end: 6 }]);
    assert_partition(&blocks, 6);
    assert_eq!(partition_blocks(1, 24), vec![Block { start: 0, end: 1 }]);
}

#[test]
fn partition_divisible_total() {
    let blocks = partition_blocks(5040, 24);
    assert_eq!(blocks.len(), 24);
    for (i, b) in blocks.iter().enumerate() {
        assert_eq!(b.start, i as u64 * 210);
        assert_eq!(b.end, (i as u64 + 1) * 210);
    }
    assert_partition(&blocks, 5040);
}

#[test]
fn partition_with_remainder_adds_a_block() {
    let blocks = partition_blocks(50, 24);
    assert_eq!(blocks.len(), 25);
    assert_eq!(blocks[23], Block { start: 46, end: 48 });
    assert_eq!(blocks[24], Block { start: 48, end: 50 });
    assert_partition(&blocks, 50);
    let blocks = partition_blocks(7, 4);
    assert_eq!(
        blocks,
        vec![
            Block { start: 0, end: 1 },
            Block { start: 1, end: 2 },
            Block { start: 2, end: 3 },
            Block { start: 3, end: 4 },
            Block { start: 4, end: 7 },
        ]
    );
    assert_partition(&blocks, 7);
}

#[test]
fn partition_laws_hold_for_many_sizes() {
    for total in 1..200u64 {
        for b in 1..30u64 {
            assert_partition(&partition_blocks(total, b), total);
        }
    }
    assert_partition(&partition_blocks(u64::MAX - 1, u64::MAX), u64::MAX - 1);
    assert_partition(&partition_blocks(u64::MAX, 3), u64::MAX);
    assert_partition(&partition_blocks(u64::MAX, 2), u64::MAX);
}

#[test]
fn reduction_ignores_block_order() {
    let table = factorial_table(6);
    let blocks = partition_blocks(720, 24);
    let results: Vec<(i64, i64)> = blocks.iter().map(|b| run_block(6, &table, *b)).collect();
    let forward = results.iter().fold((0, 0), |acc, r| combine_results(acc, *r));
    let backward = results.iter().rev().fold((0, 0), |acc, r| combine_results(acc, *r));
    let mut shuffled = results.clone();
    shuffled.swap(0, 7);
    shuffled.swap(3, 20);
    let mixed = shuffled.iter().fold((0, 0), |acc, r| combine_results(acc, *r));
    assert_eq!(forward, backward);
    assert_eq!(forward, mixed);
    assert_eq!(forward, fannkuch(6));
}

#[test]
fn combine_adds_checksums_and_takes_larger_max() {
    assert_eq!(combine_results((5, 3), (-7, 9)), (-2, 9));
    assert_eq!(combine_results((5, 9), (-7, 3)), (-2, 9));
    assert_eq!(combine_results((0, 0), (0, 0)), (0, 0));
}

#[test]
fn single_block_runs_match_whole_range() {
    let table = factorial_table(5);
    let whole = run_block(5, &table, Block { start: 0, end: 120 });
    assert_eq!(whole, fannkuch(5));
    let first = run_block(5, &table, Block { start: 0, end: 1 });
    assert_eq!(first, (0, 0));
}

#[test]
fn steps_run_without_panicking() {
    fannkuch_steps(2);
    fannkuch_steps(0);
}
