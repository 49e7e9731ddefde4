//! Pancake flips: the flip of a deck, the number of flips that bring the
//! identity value to the front, and an executable counter.
//!
//! Termination of the flip sequence: after a flip whose front value is `v`,
//! position `v` holds `v`. Weighting each position `i` that holds `i` by
//! `2^i`, a flip gains the weight `2^v` and loses at most the weights of the
//! positions below `v`, which sum to less than `2^v`; positions above `v` are
//! untouched. The total weight is below `2^n`, so it bounds the number of
//! flips.
use vstd::prelude::*;
use crate::factorial::MAX_N;

verus! {

/// `s` holds each value of `0..s.len()` exactly once.
pub open spec fn is_permutation(s: Seq<usize>) -> bool {
    &&& forall|i: int| 0 <= i < s.len() ==> #[trigger] s[i] < s.len()
    &&& forall|i: int, j: int| 0 <= i < s.len() && 0 <= j < s.len() && i != j ==> s[i] != s[j]
}

/// Reverses the prefix `s[0..=v]`, where `v = s[0]` is the front value.
pub open spec fn flip(s: Seq<usize>) -> Seq<usize> {
    let v = s[0] as int;
    Seq::new(s.len(), |j: int| if j <= v { s[v - j] } else { s[j] })
}

/// `2^k`.
pub open spec fn pow2(k: nat) -> nat
    decreases k,
{
    if k == 0 {
        1
    } else {
        2 * pow2((k - 1) as nat)
    }
}

/// The sum of `2^i` over the positions `i < k` at which `s` holds `i`.
pub open spec fn fixed_weight(s: Seq<usize>, k: nat) -> nat
    decreases k,
{
    if k == 0 {
        0
    } else {
        fixed_weight(s, (k - 1) as nat) + if s[k - 1] == k - 1 {
            pow2((k - 1) as nat)
        } else {
            0
        }
    }
}

/// The number of flips after which the front value of the permutation `s` is
/// `0`; no flip is needed when it is already `0`.
pub open spec fn flip_count(s: Seq<usize>) -> nat
    decreases pow2(s.len()) - fixed_weight(s, s.len()),
{
    if s.len() == 0 || s[0] == 0 || !is_permutation(s) {
        0
    } else {
        proof {
            lemma_flip_gains_weight(s);
        }
        1 + flip_count(flip(s))
    }
}

/// The fixed-point weight of the first `k` positions is below `2^k`.
pub proof fn lemma_weight_bound(s: Seq<usize>, k: nat)
    ensures
        fixed_weight(s, k) < pow2(k),
    decreases k,
{
    if k > 0 {
        lemma_weight_bound(s, (k - 1) as nat);
    }
}

/// Two sequences that agree on `lo..k` differ in weight up to `k` as they
/// differ up to `lo`.
proof fn lemma_weight_agree(s: Seq<usize>, t: Seq<usize>, lo: nat, k: nat)
    requires
        lo <= k,
        forall|i: int| lo <= i < k ==> s[i] == t[i],
    ensures
        fixed_weight(t, k) - fixed_weight(s, k) == fixed_weight(t, lo) - fixed_weight(s, lo),
    decreases k,
{
    if k > lo {
        lemma_weight_agree(s, t, lo, (k - 1) as nat);
    }
}

/// A flip of a permutation whose front value is not `0` gives a permutation
/// of larger weight.
pub proof fn lemma_flip_gains_weight(s: Seq<usize>)
    requires
        is_permutation(s),
        s.len() > 0,
        s[0] != 0,
    ensures
        is_permutation(flip(s)),
        flip(s).len() == s.len(),
        fixed_weight(s, s.len()) < fixed_weight(flip(s), s.len()),
        fixed_weight(flip(s), s.len()) < pow2(s.len()),
{
    let t = flip(s);
    let v = s[0] as int;
    let n = s.len();
    assert forall|i: int, j: int| 0 <= i < n && 0 <= j < n && i != j implies t[i] != t[j] by {
        let a = if i <= v { v - i } else { i };
        let b = if j <= v { v - j } else { j };
        assert(t[i] == s[a] && t[j] == s[b]);
    }
    assert(s[v] != v) by {
        assert(s[0] != s[v]);
    }
    assert(t[v] == v);
    lemma_weight_bound(s, v as nat);
    lemma_weight_agree(s, t, (v + 1) as nat, n);
    lemma_weight_bound(t, n);
}

/// The flip count of a permutation of length `n` is at most `2^n`.
pub proof fn lemma_flip_count_bound(s: Seq<usize>)
    requires
        is_permutation(s),
    ensures
        flip_count(s) + fixed_weight(s, s.len()) <= pow2(s.len()),
    decreases pow2(s.len()) - fixed_weight(s, s.len()),
{
    lemma_weight_bound(s, s.len());
    if s.len() > 0 && s[0] != 0 {
        lemma_flip_gains_weight(s);
        lemma_flip_count_bound(flip(s));
    }
}

/// `2^16`, the bound on any flip count of a deck the kernel accepts.
pub proof fn lemma_pow2_max(k: nat)
    requires
        k <= MAX_N,
    ensures
        pow2(k) <= 65536,
    decreases MAX_N - k,
{
    if k < MAX_N {
        lemma_pow2_max((k + 1) as nat);
    } else {
        reveal_with_fuel(pow2, 17);
    }
}

/// Reverses `v[lo..hi)` in place.
fn reverse_range(v: &mut Vec<usize>, lo: usize, hi: usize)
    requires
        lo <= hi <= old(v)@.len(),
    ensures
        final(v)@.len() == old(v)@.len(),
        forall|j: int| lo <= j < hi ==> final(v)@[j] == old(v)@[lo + hi - 1 - j],
        forall|j: int| 0 <= j < old(v)@.len() && !(lo <= j < hi) ==> final(v)@[j] == old(v)@[j],
{
    if lo == hi {
        return;
    }
    let mut a: usize = lo;
    let mut b: usize = hi - 1;
    while a < b
        invariant
            lo <= a,
            b < hi <= v@.len(),
            a + b == lo + hi - 1,
            v@.len() == old(v)@.len(),
            forall|j: int| lo <= j < a ==> v@[j] == old(v)@[lo + hi - 1 - j],
            forall|j: int| b < j < hi ==> v@[j] == old(v)@[lo + hi - 1 - j],
            forall|j: int| a <= j <= b ==> v@[j] == old(v)@[j],
            forall|j: int| 0 <= j < v@.len() && !(lo <= j < hi) ==> v@[j] == old(v)@[j],
        decreases hi - a,
    {
        let x = v[a];
        let y = v[b];
        v.set(a, y);
        v.set(b, x);
        a = a + 1;
        b = b - 1;
    }
}

/// Counts the flips that bring `0` to the front of the permutation `current`,
/// working on `scratch`, whose contents on return are unspecified.
pub fn count_flips(current: &Vec<usize>, scratch: &mut Vec<usize>) -> (flips: u32)
    requires
        is_permutation(current@),
        1 <= current@.len() <= MAX_N,
        old(scratch)@.len() == current@.len(),
    ensures
        flips == flip_count(current@),
        final(scratch)@.len() == current@.len(),
{
    if current[0] == 0 {
        return 0;
    }
    let n = current.len();
    let mut k: usize = 0;
    while k < n
        invariant
            k <= n == current@.len() == scratch@.len(),
            forall|i: int| 0 <= i < k ==> scratch@[i] == current@[i],
        decreases n - k,
    {
        scratch.set(k, current[k]);
        k = k + 1;
    }
    assert(scratch@ == current@);
    proof {
        lemma_flip_count_bound(current@);
        lemma_pow2_max(n as nat);
    }
    // The front value is held in `first`; `scratch[0]` is stale.
    let mut first: usize = current[0];
    let mut flips: u32 = 1;
    assert(scratch@.update(0, first) =~= current@);
    while scratch[first] != 0
        invariant
            n == current@.len() == scratch@.len(),
            1 <= n <= MAX_N,
            0 < first < n,
            1 <= flips,
            is_permutation(scratch@.update(0, first)),
            flip_count(current@) == flips - 1 + flip_count(scratch@.update(0, first)),
            flip_count(current@) <= 65536,
        decreases pow2(n as nat) - fixed_weight(scratch@.update(0, first), n as nat),
    {
        let ghost state = scratch@.update(0, first);
        proof {
            lemma_flip_gains_weight(state);
        }
        let next = scratch[first];
        scratch.set(first, first);
        reverse_range(scratch, 1, first);
        first = next;
        assert(scratch@.update(0, first) =~= flip(state));
        assert(flip(state)[0] == next);
        flips = flips + 1;
    }
    let ghost state = scratch@.update(0, first);
    proof {
        lemma_flip_gains_weight(state);
        assert(flip(state)[0] == 0);
        assert(flip_count(flip(state)) == 0);
        assert(state[0] != 0 && state.len() > 0);
        assert(flip_count(state) == 1 + flip_count(flip(state)));
    }
    flips
}

} // verus!
