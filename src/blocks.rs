//! Splitting the index space `[0, total)` into contiguous blocks that can be
//! enumerated independently.
use vstd::prelude::*;

verus! {

/// The block count the kernel aims for.
pub const NUM_BLOCKS: u64 = 24;

/// The half-open range of global permutation indices `[start, end)`.
#[derive(Clone, Copy, Debug, PartialEq, Eq, Structural)]
pub struct Block {
    pub start: u64,
    pub end: u64,
}

/// The number of blocks: one when `total < b`; else `b`, plus one for the
/// remainder when `b` does not divide `total`.
pub open spec fn block_count(total: nat, b: nat) -> nat {
    if total < b {
        1
    } else if total % b == 0 {
        b
    } else {
        b + 1
    }
}

/// The size of every block but possibly the last.
pub open spec fn block_size(total: nat, b: nat) -> nat {
    if total < b {
        total
    } else {
        total / b
    }
}

/// The first index of block `i`.
pub open spec fn block_start(total: nat, b: nat, i: nat) -> nat {
    i * block_size(total, b)
}

/// One past the last index of block `i`; the last block ends at `total`.
pub open spec fn block_end(total: nat, b: nat, i: nat) -> nat {
    if i + 1 == block_count(total, b) {
        total
    } else {
        (i + 1) * block_size(total, b)
    }
}

/// Index `x` lies in one of `blocks`.
pub open spec fn in_some_block(blocks: Seq<Block>, x: int) -> bool {
    exists|i: int| 0 <= i < blocks.len() && #[trigger] blocks[i].start <= x < blocks[i].end
}

/// `blocks` are non-empty, ordered, pairwise disjoint, and together cover
/// exactly `[0, total)`.
pub open spec fn is_partition(blocks: Seq<Block>, total: nat) -> bool {
    &&& forall|i: int| 0 <= i < blocks.len() ==> #[trigger] blocks[i].start < blocks[i].end
    &&& forall|i: int, j: int|
        0 <= i < j < blocks.len() ==> #[trigger] blocks[i].end <= #[trigger] blocks[j].start
    &&& forall|x: int| 0 <= x < total <==> #[trigger] in_some_block(blocks, x)
}

/// Non-empty blocks, each starting where the previous one ends, from `0` to
/// `total`, form a partition of `[0, total)`.
pub proof fn lemma_chain_is_partition(blocks: Seq<Block>, total: nat)
    requires
        blocks.len() >= 1,
        blocks[0].start == 0,
        blocks.last().end == total,
        forall|i: int| 0 <= i < blocks.len() ==> #[trigger] blocks[i].start < blocks[i].end,
        forall|i: int| 0 <= i < blocks.len() - 1 ==> #[trigger] blocks[i].end == blocks[i + 1].start,
    ensures
        is_partition(blocks, total),
{
    lemma_chain_ordered(blocks);
    assert forall|x: int| 0 <= x < total <==> #[trigger] in_some_block(blocks, x) by {
        if 0 <= x < total {
            lemma_chain_covers(blocks, blocks.len() as int, x);
        }
        if in_some_block(blocks, x) {
            let i = choose|i: int|
                0 <= i < blocks.len() && #[trigger] blocks[i].start <= x < blocks[i].end;
            if i < blocks.len() - 1 {
                assert(blocks[i].end <= blocks[blocks.len() - 1].start);
            }
        }
    }
}

/// In such a chain every block ends before any later one starts.
proof fn lemma_chain_ordered(blocks: Seq<Block>)
    requires
        forall|i: int| 0 <= i < blocks.len() ==> #[trigger] blocks[i].start < blocks[i].end,
        forall|i: int| 0 <= i < blocks.len() - 1 ==> #[trigger] blocks[i].end == blocks[i + 1].start,
    ensures
        forall|i: int, j: int|
            0 <= i < j < blocks.len() ==> #[trigger] blocks[i].end <= #[trigger] blocks[j].start,
{
    assert forall|i: int, j: int| 0 <= i < j < blocks.len() implies #[trigger] blocks[i].end
        <= #[trigger] blocks[j].start by {
        lemma_chain_gap(blocks, i, j);
    }
}

proof fn lemma_chain_gap(blocks: Seq<Block>, i: int, j: int)
    requires
        0 <= i < j < blocks.len(),
        forall|i: int| 0 <= i < blocks.len() ==> #[trigger] blocks[i].start < blocks[i].end,
        forall|i: int| 0 <= i < blocks.len() - 1 ==> #[trigger] blocks[i].end == blocks[i + 1].start,
    ensures
        blocks[i].end <= blocks[j].start,
    decreases j - i,
{
    if j > i + 1 {
        lemma_chain_gap(blocks, i, j - 1);
        assert(blocks[j - 1].end == blocks[j].start);
    } else {
        assert(blocks[i].end == blocks[i + 1].start);
    }
}

/// The first `m` blocks of such a chain cover `[0, blocks[m - 1].end)`.
proof fn lemma_chain_covers(blocks: Seq<Block>, m: int, x: int)
    requires
        1 <= m <= blocks.len(),
        blocks[0].start == 0,
        0 <= x < blocks[m - 1].end,
        forall|i: int| 0 <= i < blocks.len() - 1 ==> #[trigger] blocks[i].end == blocks[i + 1].start,
    ensures
        exists|i: int| 0 <= i < m && #[trigger] blocks[i].start <= x < blocks[i].end,
    decreases m,
{
    if x >= blocks[m - 1].start {
        assert(blocks[m - 1].start <= x < blocks[m - 1].end);
    } else {
        assert(blocks[m - 2].end == blocks[m - 1].start);
        lemma_chain_covers(blocks, m - 1, x);
        let i = choose|i: int| 0 <= i < m - 1 && #[trigger] blocks[i].start <= x < blocks[i].end;
        assert(blocks[i].start <= x < blocks[i].end);
    }
}

/// Splits `[0, total)` into blocks of `total / b` indices, the last block
/// taking the remainder; a single block when `total < b`.
pub fn partition_blocks(total: u64, b: u64) -> (blocks: Vec<Block>)
    requires
        total >= 1,
        b >= 1,
    ensures
        blocks@.len() == block_count(total as nat, b as nat),
        forall|i: int|
            #![trigger blocks@[i]]
            0 <= i < blocks@.len() ==> blocks@[i].start == block_start(
                total as nat,
                b as nat,
                i as nat,
            ) && blocks@[i].end == block_end(total as nat, b as nat, i as nat),
        is_partition(blocks@, total as nat),
{
    let (count, size): (u64, u64) = if total < b {
        (1, total)
    } else {
        assert(b < u64::MAX || total % b == 0) by {
            if b == u64::MAX {
                vstd::arithmetic::div_mod::lemma_fundamental_div_mod_converse(
                    total as int,
                    b as int,
                    1,
                    0,
                );
            }
        }
        (b + if total % b == 0 { 0 } else { 1 }, total / b)
    };
    let ghost t = total as nat;
    let ghost bb = b as nat;
    proof {
        if total >= b {
            vstd::arithmetic::div_mod::lemma_fundamental_div_mod(total as int, b as int);
            vstd::arithmetic::div_mod::lemma_mod_bound(total as int, b as int);
            assert(size >= 1) by (nonlinear_arith)
                requires
                    total >= b,
                    b >= 1,
                    total == b * size + total % b,
                    total % b < b,
            ;
            // The last block starts before `total`.
            assert((count - 1) * size < total) by (nonlinear_arith)
                requires
                    total == b * size + total % b,
                    count == if total % b == 0 { b as int } else { b + 1 },
                    size >= 1,
            ;
        }
    }
    let mut blocks: Vec<Block> = Vec::new();
    let mut i: u64 = 0;
    while i < count
        invariant
            count == block_count(t, bb),
            size == block_size(t, bb),
            t == total,
            bb == b,
            size >= 1,
            count >= 1,
            (count - 1) * size < total,
            count - 1 <= bb,
            i <= count,
            blocks@.len() == i,
            forall|j: int|
                #![trigger blocks@[j]]
                0 <= j < i ==> blocks@[j].start == block_start(t, bb, j as nat)
                    && blocks@[j].end == block_end(t, bb, j as nat),
        decreases count - i,
    {
        assert(i * size <= (count - 1) * size) by (nonlinear_arith)
            requires
                i <= count - 1,
                size >= 1,
        ;
        let start = i * size;
        assert((i + 1) * size == i * size + size) by (nonlinear_arith);
        let end = if i + 1 == count {
            total
        } else {
            assert((i + 1) * size <= (count - 1) * size) by (nonlinear_arith)
                requires
                    i + 1 <= count - 1,
                    size >= 1,
            ;
            start + size
        };
        assert((i + 1) * size == i * size + size) by (nonlinear_arith);
        blocks.push(Block { start, end });
        i = i + 1;
    }
    proof {
        let s = blocks@;
        assert forall|j: int| 0 <= j < s.len() implies #[trigger] s[j].start < s[j].end by {
            assert(j * size < (j + 1) * size) by (nonlinear_arith)
                requires
                    size >= 1,
            ;
        }
        assert forall|j: int| 0 <= j < s.len() - 1 implies #[trigger] s[j].end == s[j + 1].start by {
            assert(s[j].end == block_end(t, bb, j as nat));
            assert(s[j + 1].start == block_start(t, bb, (j + 1) as nat));
        }
        assert(s.last() == s[count - 1]);
        assert(s.last().end == block_end(t, bb, (count - 1) as nat));
        lemma_chain_is_partition(s, t);
    }
    blocks
}

} // verus!
