//! The kernel: each block is decoded at its first index and enumerated with
//! the successor stepper while flips are counted; block results are then
//! combined into `(checksum, max_flips)`.
use vstd::prelude::*;
use crate::blocks::{
    block_count, block_end, block_size, block_start, in_some_block, is_partition, partition_blocks,
    Block, NUM_BLOCKS,
};
use crate::factorial::{
    fact, factorial_table, is_factorial_table, lemma_fact_max, lemma_fact_monotone, lemma_fact_pos,
    MAX_N,
};
use crate::flips::{count_flips, flip_count, lemma_flip_count_bound, lemma_pow2_max};
use crate::order::lemma_step_matches_decode;
use crate::permutation::{counters_at, lemma_decoded_permutation, permutation_at, PermState};
use crate::reduce::{combine, combine_results, reduce, result_view};

verus! {

/// The flips needed by the permutation at global index `idx`.
pub open spec fn permutation_flips(n: nat, idx: nat) -> int {
    flip_count(permutation_at(n, idx)) as int
}

/// The contribution of the permutation at `idx`: its flips, added to the
/// checksum at even indices and subtracted at odd ones.
pub open spec fn permutation_result(n: nat, idx: nat) -> (int, int) {
    let f = permutation_flips(n, idx);
    (if idx % 2 == 0 { f } else { -f }, f)
}

/// The result over the indices `[lo, hi)`, taken in order.
pub open spec fn range_result(n: nat, lo: nat, hi: nat) -> (int, int)
    decreases hi - lo,
{
    if hi <= lo {
        (0, 0)
    } else {
        combine(range_result(n, lo, (hi - 1) as nat), permutation_result(n, (hi - 1) as nat))
    }
}

/// The kernel's result for decks of `n` elements: over all `n!` permutations.
pub open spec fn fannkuch_result(n: nat) -> (int, int) {
    range_result(n, 0, fact(n))
}

/// The results of the `b`-way partition of `[0, n!)`, each block's over its
/// range, reduced in block order.
pub open spec fn blocked_result(n: nat, b: nat) -> (int, int) {
    let total = fact(n);
    reduce(
        Seq::new(
            block_count(total, b),
            |i: int| range_result(n, block_start(total, b, i as nat), block_end(total, b, i as nat)),
        ),
    )
}

/// Where the first `m` blocks end.
pub open spec fn prefix_end(total: nat, b: nat, m: nat) -> nat {
    if m == 0 {
        0
    } else {
        block_end(total, b, (m - 1) as nat)
    }
}

/// The flips of any decodable deck are at most `2^16`.
proof fn lemma_flips_bound(n: nat, idx: nat)
    requires
        n <= MAX_N,
    ensures
        0 <= permutation_flips(n, idx) <= 65536,
{
    lemma_decoded_permutation(n, 1, idx);
    lemma_flip_count_bound(permutation_at(n, idx));
    lemma_pow2_max(n);
}

/// Bounds on a range result.
proof fn lemma_range_bound(n: nat, lo: nat, hi: nat)
    requires
        n <= MAX_N,
        lo <= hi,
    ensures
        -(hi - lo) * 65536 <= range_result(n, lo, hi).0 <= (hi - lo) * 65536,
        0 <= range_result(n, lo, hi).1 <= 65536,
    decreases hi - lo,
{
    if hi > lo {
        lemma_range_bound(n, lo, (hi - 1) as nat);
        lemma_flips_bound(n, (hi - 1) as nat);
    }
}

/// The maximum of a range result is never negative.
proof fn lemma_range_max_nonneg(n: nat, lo: nat, hi: nat)
    ensures
        range_result(n, lo, hi).1 >= 0,
    decreases hi - lo,
{
    if hi > lo {
        lemma_range_max_nonneg(n, lo, (hi - 1) as nat);
    }
}

/// The result over `[lo, hi)` combines those over `[lo, mid)` and `[mid, hi)`.
pub proof fn lemma_range_split(n: nat, lo: nat, mid: nat, hi: nat)
    requires
        lo <= mid <= hi,
    ensures
        range_result(n, lo, hi) == combine(range_result(n, lo, mid), range_result(n, mid, hi)),
    decreases hi - mid,
{
    if hi > mid {
        lemma_range_split(n, lo, mid, (hi - 1) as nat);
    } else {
        lemma_range_max_nonneg(n, lo, mid);
    }
}

/// Blocks of a partition follow each other: block `i` starts where the first
/// `i` blocks end, and all of them end at `total`.
proof fn lemma_blocks_follow(total: nat, b: nat, i: nat)
    requires
        total >= 1,
        b >= 1,
        i <= block_count(total, b),
    ensures
        i < block_count(total, b) ==> block_start(total, b, i) == prefix_end(total, b, i),
        i == block_count(total, b) ==> prefix_end(total, b, i) == total,
{
}

/// Reducing the first `m` block results gives the result over the first `m`
/// blocks' indices.
proof fn lemma_blocked_prefix(n: nat, b: nat, m: nat)
    requires
        b >= 1,
        m <= block_count(fact(n), b),
    ensures
        reduce(
            Seq::new(
                block_count(fact(n), b),
                |i: int|
                    range_result(n, block_start(fact(n), b, i as nat), block_end(fact(n), b, i as nat)),
            ).take(m as int),
        ) == range_result(n, 0, prefix_end(fact(n), b, m)),
    decreases m,
{
    let total = fact(n);
    let s = Seq::new(
        block_count(total, b),
        |i: int| range_result(n, block_start(total, b, i as nat), block_end(total, b, i as nat)),
    );
    lemma_fact_pos(n);
    if m > 0 {
        let p = (m - 1) as nat;
        lemma_blocked_prefix(n, b, p);
        assert(s.take(m as int).drop_last() =~= s.take(p as int));
        lemma_blocks_follow(total, b, p);
        lemma_block_order(total, b, p);
        lemma_range_split(n, 0, prefix_end(total, b, p), prefix_end(total, b, m));
    } else {
        assert(s.take(0) =~= Seq::<(int, int)>::empty());
    }
}

/// A block does not end before it starts.
proof fn lemma_block_order(total: nat, b: nat, i: nat)
    requires
        total >= 1,
        b >= 1,
        i < block_count(total, b),
    ensures
        block_start(total, b, i) <= block_end(total, b, i),
{
    let size = block_size(total, b);
    if i + 1 < block_count(total, b) {
        assert(i * size <= (i + 1) * size) by (nonlinear_arith);
    } else if total >= b {
        vstd::arithmetic::div_mod::lemma_fundamental_div_mod(total as int, b as int);
        assert(i * size <= total) by (nonlinear_arith)
            requires
                i <= b,
                total == b * size + total % b,
                total % b >= 0,
        ;
    } else {
        assert(i == 0);
        assert(i * size == 0);
    }
}

/// Block results reduce to the result over all of `[0, n!)`.
pub proof fn lemma_blocked_result(n: nat, b: nat)
    requires
        b >= 1,
    ensures
        blocked_result(n, b) == fannkuch_result(n),
{
    let total = fact(n);
    lemma_fact_pos(n);
    let count = block_count(total, b);
    lemma_blocked_prefix(n, b, count);
    lemma_blocks_follow(total, b, count);
    let s = Seq::new(
        count,
        |i: int| range_result(n, block_start(total, b, i as nat), block_end(total, b, i as nat)),
    );
    assert(s.take(count as int) =~= s);
}

/// The kernel's result does not depend on the number of blocks the index
/// space is split into.
pub proof fn lemma_block_count_irrelevant(n: nat, b1: nat, b2: nat)
    requires
        b1 >= 1,
        b2 >= 1,
    ensures
        blocked_result(n, b1) == blocked_result(n, b2),
{
    lemma_blocked_result(n, b1);
    lemma_blocked_result(n, b2);
}

/// A bound on every checksum the kernel accumulates.
proof fn lemma_checksum_fits(n: nat, lo: nat, hi: nat)
    requires
        n <= MAX_N,
        lo <= hi <= fact(n),
    ensures
        i64::MIN < -(hi - lo) * 65536,
        (hi - lo) * 65536 < i64::MAX,
{
    lemma_fact_monotone(n, MAX_N as nat);
    lemma_fact_max();
}

/// Enumerates the permutations of one block in order, from the deck decoded
/// at its first index, and returns the block's `(checksum, max_flips)`.
pub fn run_block(n: usize, factorials: &Vec<u64>, block: Block) -> (r: (i64, i64))
    requires
        1 <= n <= MAX_N,
        is_factorial_table(factorials@, n as nat),
        block.start < block.end <= fact(n as nat),
    ensures
        result_view(r) == range_result(n as nat, block.start as nat, block.end as nat),
{
    let mut state = PermState::decode(n, factorials, block.start);
    let mut scratch: Vec<usize> = Vec::new();
    let mut k: usize = 0;
    while k < n
        invariant
            k <= n,
            scratch@.len() == k,
        decreases n - k,
    {
        scratch.push(0);
        k = k + 1;
    }
    let ghost nn = n as nat;
    let ghost lo = block.start as nat;
    let mut idx: u64 = block.start;
    let mut checksum: i64 = 0;
    let mut max_flips: i64 = 0;
    while idx < block.end
        invariant
            1 <= n <= MAX_N,
            nn == n,
            lo == block.start,
            is_factorial_table(factorials@, nn),
            block.start <= idx <= block.end <= fact(nn),
            idx < block.end ==> state.current@ == permutation_at(nn, idx as nat) && state.count@
                == counters_at(nn, idx as nat),
            scratch@.len() == n,
            result_view((checksum, max_flips)) == range_result(nn, lo, idx as nat),
        decreases block.end - idx,
    {
        proof {
            lemma_decoded_permutation(nn, 1, idx as nat);
            lemma_range_bound(nn, lo, (idx + 1) as nat);
            lemma_checksum_fits(nn, lo, (idx + 1) as nat);
        }
        let flips = count_flips(&state.current, &mut scratch);
        if idx % 2 == 0 {
            checksum = checksum + flips as i64;
        } else {
            checksum = checksum - flips as i64;
        }
        if flips as i64 > max_flips {
            max_flips = flips as i64;
        }
        idx = idx + 1;
        if idx < block.end {
            proof {
                lemma_step_matches_decode(nn, (idx - 1) as nat);
            }
            state.advance();
        }
    }
    (checksum, max_flips)
}

/// Runs the kernel over `[0, n!)` split into blocks as `partition_blocks`
/// splits it for `num_blocks`, and combines the block results in order.
pub fn fannkuch_with_blocks(n: i32, num_blocks: u64) -> (r: (i64, i64))
    requires
        1 <= n <= MAX_N,
        num_blocks >= 1,
    ensures
        result_view(r) == blocked_result(n as nat, num_blocks as nat),
        result_view(r) == fannkuch_result(n as nat),
{
    let n = n as usize;
    let ghost nn = n as nat;
    let ghost b = num_blocks as nat;
    let factorials = factorial_table(n);
    let perm_max = factorials[n];
    proof {
        lemma_fact_pos(nn);
        lemma_fact_monotone(nn, MAX_N as nat);
        lemma_fact_max();
    }
    let blocks = partition_blocks(perm_max, num_blocks);
    let ghost total = fact(nn);
    let mut acc: (i64, i64) = (0, 0);
    let mut m: usize = 0;
    while m < blocks.len()
        invariant
            1 <= n <= MAX_N,
            nn == n,
            b == num_blocks >= 1,
            total == fact(nn) == perm_max,
            is_factorial_table(factorials@, nn),
            blocks@.len() == block_count(total, b),
            forall|i: int|
                #![trigger blocks@[i]]
                0 <= i < blocks@.len() ==> blocks@[i].start == block_start(total, b, i as nat)
                    && blocks@[i].end == block_end(total, b, i as nat),
            is_partition(blocks@, total),
            m <= blocks@.len(),
            result_view(acc) == range_result(nn, 0, prefix_end(total, b, m as nat)),
        decreases blocks@.len() - m,
    {
        let block = blocks[m];
        proof {
            assert(in_some_block(blocks@, block.end - 1));
            lemma_blocks_follow(total, b, m as nat);
            lemma_range_split(nn, 0, block.start as nat, block.end as nat);
            lemma_range_bound(nn, 0, block.end as nat);
            lemma_checksum_fits(nn, 0, block.end as nat);
        }
        let r = run_block(n, &factorials, block);
        acc = combine_results(acc, r);
        m = m + 1;
    }
    proof {
        lemma_blocks_follow(total, b, m as nat);
        lemma_blocked_result(nn, b);
    }
    acc
}

/// The kernel: `(checksum, max_flips)` over all `n!` permutations of
/// `0..n`, enumerated in blocks of the index space.
pub fn fannkuch(n: i32) -> (r: (i64, i64))
    requires
        1 <= n <= MAX_N,
    ensures
        result_view(r) == fannkuch_result(n as nat),
{
    fannkuch_with_blocks(n, NUM_BLOCKS)
}

/// Runs the kernel for decks of seven elements `steps` times.
pub fn fannkuch_steps(steps: i32) {
    let mut i: i32 = 0;
    while i < steps
        decreases steps - i,
    {
        let _ = fannkuch(7);
        i = i + 1;
    }
}

} // verus!
