//! The permutation state: a deck and the counters that drive the successor
//! stepper. A deck is decoded from its global index through the factorial
//! number system, and advanced to the next index by the stepper.
use vstd::prelude::*;
use vstd::arithmetic::div_mod::{
    lemma_add_mod_noop_right, lemma_fundamental_div_mod, lemma_fundamental_div_mod_converse,
    lemma_mod_bound, lemma_mod_mod, lemma_small_mod,
};
use crate::factorial::{fact, is_factorial_table, lemma_fact_pos, MAX_N};
use crate::flips::is_permutation;

verus! {

/// The deck `[0, 1, ..., n - 1]`.
pub open spec fn identity(n: nat) -> Seq<usize> {
    Seq::new(n, |j: int| j as usize)
}

/// Rotates the prefix `s[0..=i]` left by `d`: position `j` takes the value at
/// position `(j + d) mod (i + 1)`.
pub open spec fn rotate(s: Seq<usize>, i: int, d: int) -> Seq<usize> {
    Seq::new(s.len(), |j: int| if j <= i { s[(j + d) % (i + 1)] } else { s[j] })
}

/// Digit `i` of `idx` in the factorial number system, in `0..=i`.
pub open spec fn digit(idx: nat, i: nat) -> nat {
    (idx % fact(i + 1)) / fact(i)
}

/// The deck after the rotations of levels `n - 1` down to `i` have been
/// applied to the identity, level `l` rotating by digit `l` of `idx`.
pub open spec fn decoded_from(n: nat, i: nat, idx: nat) -> Seq<usize>
    decreases n - i,
{
    if i >= n {
        identity(n)
    } else {
        rotate(decoded_from(n, i + 1, idx), i as int, digit(idx, i) as int)
    }
}

/// The deck at global index `idx` among the `n!` permutations of `n` elements.
pub open spec fn permutation_at(n: nat, idx: nat) -> Seq<usize> {
    decoded_from(n, 1, idx)
}

/// The stepper's counters at global index `idx`: the digits of `idx`, with
/// `0` at position `0`.
pub open spec fn counters_at(n: nat, idx: nat) -> Seq<usize> {
    Seq::new(n, |i: int| if i == 0 { 0 } else { digit(idx, i as nat) as usize })
}

/// The first level at or above `i` whose counter is below its maximum
/// (`count[l] < l`), or the length of `count` when there is none.
pub open spec fn carry_position(count: Seq<usize>, i: nat) -> nat
    decreases count.len() - i,
{
    if i >= count.len() || count[i as int] < i {
        i
    } else {
        carry_position(count, i + 1)
    }
}

/// The rotations of levels `1, 2, ..., k`, each by one, applied in that order.
pub open spec fn rotate_up(s: Seq<usize>, k: nat) -> Seq<usize>
    decreases k,
{
    if k == 0 {
        s
    } else {
        rotate(rotate_up(s, (k - 1) as nat), k as int, 1)
    }
}

/// The deck that the successor stepper moves to from `current`.
pub open spec fn next_deck(current: Seq<usize>, count: Seq<usize>) -> Seq<usize> {
    rotate_up(current, carry_position(count, 1))
}

/// The counters that the successor stepper moves to: the levels below the
/// carry position are reset, and the carry position is incremented.
pub open spec fn next_counters(count: Seq<usize>) -> Seq<usize> {
    let k = carry_position(count, 1);
    Seq::new(
        count.len(),
        |j: int|
            if 1 <= j < k {
                0
            } else if j == k {
                (count[j] + 1) as usize
            } else {
                count[j]
            },
    )
}

/// The state has a successor: some level's counter is below its maximum.
pub open spec fn has_successor(current: Seq<usize>, count: Seq<usize>) -> bool {
    &&& current.len() == count.len()
    &&& carry_position(count, 1) < count.len()
}

/// What the carry position says of the counters from `i` on.
pub proof fn lemma_carry_position(count: Seq<usize>, i: nat)
    requires
        i <= count.len(),
    ensures
        i <= carry_position(count, i) <= count.len(),
        forall|j: int| i <= j < carry_position(count, i) ==> count[j] >= j,
        carry_position(count, i) < count.len() ==> count[carry_position(count, i) as int]
            < carry_position(count, i),
    decreases count.len() - i,
{
    if i < count.len() && count[i as int] >= i {
        lemma_carry_position(count, i + 1);
    }
}

/// `x mod m` for `0 <= x < 2m`.
proof fn lemma_mod_once(x: int, m: int)
    requires
        0 <= x < 2 * m,
    ensures
        x % m == if x < m { x } else { x - m },
{
    if x < m {
        lemma_fundamental_div_mod_converse(x, m, 0, x);
    } else {
        lemma_fundamental_div_mod_converse(x, m, 1, x - m);
    }
}

/// Rotating by `a` and then by `b` is rotating by `a + b`.
pub proof fn lemma_rotate_compose(s: Seq<usize>, i: int, a: int, b: int)
    requires
        0 <= i < s.len(),
        0 <= a,
        0 <= b,
    ensures
        rotate(rotate(s, i, a), i, b) == rotate(s, i, a + b),
{
    let m = i + 1;
    let r = rotate(rotate(s, i, a), i, b);
    assert forall|j: int| 0 <= j < s.len() implies #[trigger] r[j] == rotate(s, i, a + b)[j] by {
        if j <= i {
            let x = (j + b) % m;
            lemma_mod_bound(j + b, m);
            lemma_add_mod_noop_right(a, j + b, m);
            assert((x + a) % m == (j + a + b) % m);
        }
    }
    assert(rotate(rotate(s, i, a), i, b) =~= rotate(s, i, a + b));
}

/// A rotation by `0` or by the prefix length changes nothing.
pub proof fn lemma_rotate_identity(s: Seq<usize>, i: int, d: int)
    requires
        0 <= i,
        d == 0 || d == i + 1,
    ensures
        rotate(s, i, d) == s,
{
    assert forall|j: int| 0 <= j <= i implies #[trigger] ((j + d) % (i + 1)) == j by {
        lemma_mod_once(j + d, i + 1);
    }
    assert(rotate(s, i, d) =~= s);
}

/// A rotation of a prefix within the deck keeps it a permutation.
pub proof fn lemma_rotate_permutation(s: Seq<usize>, i: int, d: int)
    requires
        is_permutation(s),
        0 <= i < s.len(),
        0 <= d,
    ensures
        is_permutation(rotate(s, i, d)),
{
    let t = rotate(s, i, d);
    let m = i + 1;
    assert forall|j: int| 0 <= j <= i implies 0 <= #[trigger] ((j + d) % m) < m by {
        lemma_mod_bound(j + d, m);
    }
    assert forall|j: int, k: int| 0 <= j < t.len() && 0 <= k < t.len() && j != k implies t[j]
        != t[k] by {
        if j <= i && k <= i {
            if (j + d) % m == (k + d) % m {
                lemma_fundamental_div_mod(j + d, m);
                lemma_fundamental_div_mod(k + d, m);
                let qj = (j + d) / m;
                let qk = (k + d) / m;
                assert((j - k) == m * (qj - qk)) by (nonlinear_arith)
                    requires
                        j + d == m * qj + (j + d) % m,
                        k + d == m * qk + (k + d) % m,
                        (j + d) % m == (k + d) % m,
                ;
                assert(false) by (nonlinear_arith)
                    requires
                        j - k == m * (qj - qk),
                        0 <= j < m,
                        0 <= k < m,
                        j != k,
                ;
            }
        }
    }
}

/// Every decoded deck is a permutation of `0..n`.
pub proof fn lemma_decoded_permutation(n: nat, i: nat, idx: nat)
    requires
        n <= MAX_N,
    ensures
        is_permutation(decoded_from(n, i, idx)),
        decoded_from(n, i, idx).len() == n,
    decreases n - i,
{
    if i >= n {
        let s = identity(n);
        assert forall|j: int, k: int| 0 <= j < n && 0 <= k < n && j != k implies s[j] != s[k] by {
            assert(s[j] == j && s[k] == k);
        }
    } else {
        lemma_decoded_permutation(n, i + 1, idx);
        lemma_rotate_permutation(decoded_from(n, i + 1, idx), i as int, digit(idx, i) as int);
    }
}

/// Reducing modulo `(i + 1)!` and then modulo `i!` is reducing modulo `i!`;
/// and digit `i` is at most `i`.
pub proof fn lemma_digit_facts(x: nat, i: nat)
    ensures
        (x % fact(i + 1)) % fact(i) == x % fact(i),
        digit(x, i) <= i,
        fact(i + 1) == (i + 1) * fact(i),
{
    let f = fact(i);
    lemma_fact_pos(i);
    assert(fact(i + 1) == (i + 1) * f);
    assert(f * (i + 1) == (i + 1) * f) by (nonlinear_arith);
    lemma_mod_mod(x as int, f as int, (i + 1) as int);
    let y = x % fact(i + 1);
    lemma_fundamental_div_mod(y as int, f as int);
    lemma_mod_bound(y as int, f as int);
    lemma_mod_bound(x as int, fact(i + 1) as int);
    let q = y / f;
    assert(q <= i) by (nonlinear_arith)
        requires
            y == f * q + y % f,
            0 <= y % f,
            y < (i + 1) * f,
            f >= 1,
    ;
}

/// A deck with the counters of the successor stepper.
pub struct PermState {
    /// The current permutation of `0..n`.
    pub current: Vec<usize>,
    /// `count[i]` is the digit of level `i`, in `0..=i`; `count[0]` is unused.
    pub count: Vec<usize>,
}

/// Rotates `current[0..=i]` left by `d`, using `temp` as a snapshot.
fn rotate_prefix(current: &mut Vec<usize>, temp: &mut Vec<usize>, i: usize, d: usize)
    requires
        i < old(current)@.len() <= MAX_N,
        d <= i,
        old(temp)@.len() == old(current)@.len(),
    ensures
        final(current)@ == rotate(old(current)@, i as int, d as int),
        final(temp)@.len() == old(temp)@.len(),
{
    let n = current.len();
    let mut k: usize = 0;
    while k < n
        invariant
            k <= n == current@.len() == temp@.len(),
            current@ == old(current)@,
            forall|j: int| 0 <= j < k ==> temp@[j] == current@[j],
        decreases n - k,
    {
        temp.set(k, current[k]);
        k = k + 1;
    }
    let mut j: usize = 0;
    while j <= i
        invariant
            n == current@.len() == temp@.len() == old(current)@.len(),
            i < n <= MAX_N,
            d <= i,
            j <= i + 1,
            forall|m: int| 0 <= m < n ==> temp@[m] == old(current)@[m],
            forall|m: int| 0 <= m < j ==> current@[m] == rotate(old(current)@, i as int, d as int)[m],
            forall|m: int| j <= m < n ==> current@[m] == old(current)@[m],
        decreases i + 1 - j,
    {
        proof {
            lemma_mod_once((j + d) as int, (i + 1) as int);
        }
        let v = if j + d <= i {
            temp[j + d]
        } else {
            temp[j + d - i - 1]
        };
        current.set(j, v);
        j = j + 1;
    }
    assert(current@ =~= rotate(old(current)@, i as int, d as int));
}

impl PermState {
    /// The state at global index `idx` among the `n!` permutations, computed
    /// directly from the digits of `idx`.
    pub fn decode(n: usize, factorials: &Vec<u64>, idx: u64) -> (state: PermState)
        requires
            1 <= n <= MAX_N,
            is_factorial_table(factorials@, n as nat),
            idx < fact(n as nat),
        ensures
            state.current@ == permutation_at(n as nat, idx as nat),
            state.count@ == counters_at(n as nat, idx as nat),
    {
        let mut current: Vec<usize> = Vec::new();
        let mut count: Vec<usize> = Vec::new();
        let mut temp: Vec<usize> = Vec::new();
        let mut k: usize = 0;
        while k < n
            invariant
                k <= n,
                current@ == identity(k as nat),
                count@.len() == k,
                temp@.len() == k,
                forall|j: int| 0 <= j < k ==> count@[j] == 0,
            decreases n - k,
        {
            current.push(k);
            count.push(0);
            temp.push(0);
            k = k + 1;
            assert(current@ =~= identity(k as nat));
        }
        let ghost x = idx as nat;
        proof {
            lemma_small_mod(x, fact(n as nat));
        }
        let mut rem: u64 = idx;
        let mut i: usize = n - 1;
        while i > 0
            invariant
                1 <= n <= MAX_N,
                i < n,
                is_factorial_table(factorials@, n as nat),
                x == idx,
                rem == x % fact((i + 1) as nat),
                current@ == decoded_from(n as nat, (i + 1) as nat, x),
                temp@.len() == n,
                count@.len() == n,
                forall|j: int| 0 <= j < n ==> #[trigger] count@[j] == if j > i {
                    counters_at(n as nat, x)[j]
                } else {
                    0
                },
            decreases i,
        {
            let f = factorials[i];
            proof {
                lemma_digit_facts(x, i as nat);
                lemma_fact_pos(i as nat);
                lemma_decoded_permutation(n as nat, (i + 1) as nat, x);
            }
            let d = rem / f;
            rem = rem % f;
            count.set(i, d as usize);
            rotate_prefix(&mut current, &mut temp, i, d as usize);
            i = i - 1;
        }
        assert(count@ =~= counters_at(n as nat, x));
        PermState { current, count }
    }

    /// Advances to the next permutation in the stepper's order: swaps the
    /// first two elements, then, while the counter of the current level has
    /// reached its maximum, resets it and rotates the next longer prefix
    /// left by one; finally increments the counter of the level reached.
    pub fn advance(&mut self)
        requires
            has_successor(old(self).current@, old(self).count@),
        ensures
            final(self).current@ == next_deck(old(self).current@, old(self).count@),
            final(self).count@ == next_counters(old(self).count@),
    {
        let ghost c0 = self.count@;
        let ghost d0 = self.current@;
        let ghost k = carry_position(c0, 1);
        proof {
            lemma_carry_position(c0, 1);
            lemma_rotate_identity(d0, 0, 0);
            assert(rotate_up(d0, 0) == d0);
        }
        let mut first_value = self.current[1];
        let second = self.current[0];
        self.current.set(1, second);
        self.current.set(0, first_value);
        assert(self.current@ =~= rotate_up(d0, 1));
        let n = self.count.len();
        let mut i: usize = 1;
        while self.count[i] >= i
            invariant
                1 <= i <= k < c0.len() == d0.len() == n,
                k == carry_position(c0, 1),
                carry_position(c0, i as nat) == k,
                self.current@ == rotate_up(d0, i as nat),
                self.current@.len() == d0.len(),
                first_value == self.current@[0],
                self.count@.len() == c0.len(),
                forall|j: int| 0 <= j < c0.len() ==> #[trigger] self.count@[j] == if 1 <= j < i {
                    0
                } else {
                    c0[j]
                },
            decreases k - i,
        {
            proof {
                assert(self.count@[i as int] == c0[i as int]);
                assert(c0[i as int] >= i);
                assert(carry_position(c0, i as nat) == carry_position(c0, (i + 1) as nat));
                lemma_carry_position(c0, (i + 1) as nat);
                assert(i < k);
            }
            self.count.set(i, 0);
            i = i + 1;
            let ghost before = self.current@;
            let ghost counters = self.count@;
            let new_first_value = self.current[1];
            self.current.set(0, new_first_value);
            let mut j: usize = 1;
            while j < i
                invariant
                    1 <= j <= i < before.len(),
                    self.current@.len() == before.len(),
                    self.count@ == counters,
                    self.current@[0] == before[1],
                    forall|m: int| 1 <= m < j ==> self.current@[m] == before[m + 1],
                    forall|m: int| j <= m < before.len() ==> self.current@[m] == before[m],
                decreases i - j,
            {
                let next = self.current[j + 1];
                self.current.set(j, next);
                j = j + 1;
            }
            self.current.set(i, first_value);
            first_value = new_first_value;
            proof {
                assert forall|m: int| 0 <= m <= i implies #[trigger] ((m + 1) % (i + 1) as int) == if m < i {
                    m + 1
                } else {
                    0
                } by {
                    lemma_mod_once(m + 1, (i + 1) as int);
                }
                assert(self.current@ =~= rotate(before, i as int, 1));
            }
        }
        let c = self.count[i];
        self.count.set(i, c + 1);
        assert(self.count@ =~= next_counters(c0));
    }
}

} // verus!
