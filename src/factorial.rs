//! Factorials, as a mathematical function and as a precomputed table.
use vstd::prelude::*;

verus! {

/// The largest deck size the kernel accepts.
pub const MAX_N: usize = 16;

/// `n!`.
pub open spec fn fact(n: nat) -> nat
    decreases n,
{
    if n == 0 {
        1
    } else {
        n * fact((n - 1) as nat)
    }
}

/// `fact` is positive.
pub proof fn lemma_fact_pos(n: nat)
    ensures
        fact(n) >= 1,
    decreases n,
{
    if n > 0 {
        lemma_fact_pos((n - 1) as nat);
        assert(n * fact((n - 1) as nat) >= 1) by (nonlinear_arith)
            requires
                n >= 1,
                fact((n - 1) as nat) >= 1,
        ;
    }
}

/// `fact` does not decrease.
pub proof fn lemma_fact_monotone(m: nat, n: nat)
    requires
        m <= n,
    ensures
        fact(m) <= fact(n),
    decreases n,
{
    if m < n {
        lemma_fact_monotone(m, (n - 1) as nat);
        lemma_fact_pos((n - 1) as nat);
        assert(fact((n - 1) as nat) <= n * fact((n - 1) as nat)) by (nonlinear_arith)
            requires
                n >= 1,
                fact((n - 1) as nat) >= 1,
        ;
    }
}

/// The value of `16!`, which bounds every factorial the kernel uses.
pub proof fn lemma_fact_max()
    ensures
        fact(MAX_N as nat) == 20922789888000,
{
    reveal_with_fuel(fact, 17);
}

/// A table holding `i!` at each index `i` in `0..=n`.
pub open spec fn is_factorial_table(t: Seq<u64>, n: nat) -> bool {
    &&& t.len() == n + 1
    &&& forall|i: int| 0 <= i <= n ==> #[trigger] t[i] == fact(i as nat)
}

/// Builds the table `[0!, 1!, ..., n!]`.
pub fn factorial_table(n: usize) -> (table: Vec<u64>)
    requires
        n <= MAX_N,
    ensures
        is_factorial_table(table@, n as nat),
{
    let mut table: Vec<u64> = Vec::new();
    table.push(1);
    let mut i: usize = 1;
    while i <= n
        invariant
            1 <= i <= n + 1,
            n <= MAX_N,
            is_factorial_table(table@, (i - 1) as nat),
        decreases n + 1 - i,
    {
        let prev = table[i - 1];
        proof {
            lemma_fact_monotone(i as nat, MAX_N as nat);
            lemma_fact_max();
            assert(fact(i as nat) == i * fact((i - 1) as nat));
            assert(prev * i == i * prev) by (nonlinear_arith);
        }
        table.push(prev * (i as u64));
        assert(table@[i as int] == fact(i as nat));
        i = i + 1;
    }
    table
}

} // verus!
