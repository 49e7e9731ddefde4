//! The enumeration order: the decoder and the successor stepper agree, so a
//! block can start anywhere in `[0, n!)` and step from there.
use vstd::prelude::*;
use vstd::arithmetic::div_mod::{
    lemma_fundamental_div_mod, lemma_fundamental_div_mod_converse, lemma_mod_bound, lemma_small_mod,
};
use crate::factorial::{fact, lemma_fact_pos, MAX_N};
use crate::permutation::{
    carry_position, counters_at, decoded_from, digit, has_successor, identity, lemma_carry_position,
    lemma_decoded_permutation, lemma_digit_facts, lemma_rotate_compose, lemma_rotate_identity,
    next_counters, next_deck, permutation_at, rotate, rotate_up,
};

verus! {

/// The rotations of levels `m, m - 1, ..., 1`, level `l` by `l`, applied in
/// that order: the levels below a carry, whose digits are all at their maximum.
pub open spec fn rotate_down(s: Seq<usize>, m: nat) -> Seq<usize>
    decreases m,
{
    if m == 0 {
        s
    } else {
        rotate_down(rotate(s, m as int, m as int), (m - 1) as nat)
    }
}

/// How the remainder modulo `m` moves when one is added.
proof fn lemma_mod_succ(x: nat, m: nat)
    requires
        m > 0,
    ensures
        x % m == m - 1 ==> (x + 1) % m == 0,
        x % m < m - 1 ==> (x + 1) % m == x % m + 1,
{
    lemma_fundamental_div_mod(x as int, m as int);
    lemma_mod_bound(x as int, m as int);
    let q = x / m;
    let r = x % m;
    if r == m - 1 {
        assert(x + 1 == m * (q + 1)) by (nonlinear_arith)
            requires
                x == m * q + r,
                r == m - 1,
        ;
        lemma_fundamental_div_mod_converse((x + 1) as int, m as int, (q + 1) as int, 0);
    } else {
        assert(m * q == q * m) by (nonlinear_arith);
        lemma_fundamental_div_mod_converse((x + 1) as int, m as int, q as int, (r + 1) as int);
    }
}

/// When the digits of `x` below `m` are all at their maximum, `x mod m!` is
/// `m! - 1`.
proof fn lemma_all_max_below(x: nat, m: nat)
    requires
        m >= 1,
        forall|j: nat| 1 <= j < m ==> #[trigger] digit(x, j) == j,
    ensures
        x % fact(m) == fact(m) - 1,
    decreases m,
{
    if m == 1 {
        assert(fact(1) == 1) by {
            reveal_with_fuel(fact, 2);
        }
        lemma_fundamental_div_mod_converse(x as int, 1, x as int, 0);
    } else {
        let p = (m - 1) as nat;
        lemma_all_max_below(x, p);
        lemma_digit_facts(x, p);
        lemma_fact_pos(p);
        let f = fact(p);
        let y = x % fact(m);
        assert(digit(x, p) == p);
        lemma_fundamental_div_mod(y as int, f as int);
        assert(y == f * p + (f - 1));
        assert(y == m * f - 1) by (nonlinear_arith)
            requires
                y == f * p + (f - 1),
                p == m - 1,
        ;
    }
}

/// Once `x mod m!` is below its maximum, so is `x mod M!` for every `M >= m`.
proof fn lemma_not_max_up(x: nat, m: nat, big: nat)
    requires
        m <= big,
        x % fact(m) < fact(m) - 1,
    ensures
        x % fact(big) < fact(big) - 1,
    decreases big,
{
    if m < big {
        let p = (big - 1) as nat;
        lemma_not_max_up(x, m, p);
        lemma_digit_facts(x, p);
        lemma_fact_pos(p);
        lemma_fact_pos(big);
        lemma_mod_bound(x as int, fact(big) as int);
        if x % fact(big) == fact(big) - 1 {
            let f = fact(p);
            assert(fact(big) - 1 == f * p + (f - 1)) by (nonlinear_arith)
                requires
                    fact(big) == (p + 1) * f,
            ;
            lemma_fundamental_div_mod_converse((fact(big) - 1) as int, f as int, p as int, (f - 1) as int);
        }
    }
}

/// A digit whose lower digits are not all at their maximum is unchanged by
/// adding one.
proof fn lemma_digit_succ_same(x: nat, j: nat)
    requires
        x % fact(j + 1) < fact(j + 1) - 1,
        x % fact(j) < fact(j) - 1,
    ensures
        digit(x + 1, j) == digit(x, j),
{
    lemma_fact_pos(j);
    lemma_fact_pos(j + 1);
    lemma_digit_facts(x, j);
    lemma_mod_succ(x, fact(j + 1));
    let f = fact(j);
    let y = x % fact(j + 1);
    lemma_fundamental_div_mod(y as int, f as int);
    lemma_fundamental_div_mod_converse((y + 1) as int, f as int, (y / f) as int, (y % f + 1) as int);
}

/// The digit at the carry position goes up by one, and the remainder there
/// is below its maximum.
proof fn lemma_digit_succ_carry(x: nat, k: nat)
    requires
        k >= 1,
        x % fact(k) == fact(k) - 1,
        digit(x, k) < k,
    ensures
        digit(x + 1, k) == digit(x, k) + 1,
        x % fact(k + 1) < fact(k + 1) - 1,
{
    lemma_fact_pos(k);
    lemma_digit_facts(x, k);
    let f = fact(k);
    let y = x % fact(k + 1);
    let q = digit(x, k);
    lemma_fundamental_div_mod(y as int, f as int);
    assert(y == f * q + (f - 1));
    assert(y + 1 == f * (q + 1) && y < (k + 1) * f - 1) by (nonlinear_arith)
        requires
            y == f * q + (f - 1),
            q < k,
            f >= 1,
    ;
    lemma_mod_succ(x, fact(k + 1));
    assert(f * (q + 1) == (q + 1) * f) by (nonlinear_arith);
    lemma_fundamental_div_mod_converse((y + 1) as int, f as int, (q + 1) as int, 0);
}

/// A digit whose lower digits and itself are all at their maximum becomes `0`.
proof fn lemma_digit_succ_zero(x: nat, j: nat)
    requires
        x % fact(j + 1) == fact(j + 1) - 1,
    ensures
        digit(x + 1, j) == 0,
{
    lemma_fact_pos(j);
    lemma_fact_pos(j + 1);
    lemma_mod_succ(x, fact(j + 1));
    lemma_fundamental_div_mod_converse(0, fact(j) as int, 0, 0);
}

/// Decoded decks agree from level `i` up when the digits from `i` up agree.
proof fn lemma_decoded_agree(n: nat, i: nat, a: nat, b: nat)
    requires
        forall|j: nat| i <= j < n ==> #[trigger] digit(a, j) == digit(b, j),
    ensures
        decoded_from(n, i, a) == decoded_from(n, i, b),
    decreases n - i,
{
    if i < n {
        lemma_decoded_agree(n, i + 1, a, b);
    }
}

/// Levels whose digits are `0` leave the deck as it is.
proof fn lemma_decoded_zero_digits(n: nat, i: nat, k: nat, x: nat)
    requires
        1 <= i <= k <= n <= MAX_N,
        forall|j: nat| i <= j < k ==> #[trigger] digit(x, j) == 0,
    ensures
        decoded_from(n, i, x) == decoded_from(n, k, x),
    decreases k - i,
{
    if i < k {
        lemma_decoded_zero_digits(n, i + 1, k, x);
        lemma_decoded_permutation(n, i + 1, x);
        lemma_rotate_identity(decoded_from(n, i + 1, x), i as int, 0);
    }
}

/// Levels whose digits are at their maximum form a `rotate_down`.
proof fn lemma_decoded_max_digits(n: nat, i: nat, k: nat, x: nat)
    requires
        1 <= i <= k <= n,
        forall|j: nat| 1 <= j < k ==> #[trigger] digit(x, j) == j,
    ensures
        decoded_from(n, 1, x) == rotate_down(decoded_from(n, i, x), (i - 1) as nat),
    decreases i,
{
    if i > 1 {
        lemma_decoded_max_digits(n, (i - 1) as nat, k, x);
        assert(digit(x, (i - 1) as nat) == i - 1);
    }
}

/// `rotate_up` undoes `rotate_down`.
proof fn lemma_up_down(s: Seq<usize>, m: nat)
    requires
        m < s.len(),
    ensures
        rotate_down(s, m).len() == s.len(),
        rotate_up(rotate_down(s, m), m) == s,
    decreases m,
{
    if m > 0 {
        let t = rotate(s, m as int, m as int);
        lemma_up_down(t, (m - 1) as nat);
        lemma_rotate_compose(s, m as int, m as int, 1);
        lemma_rotate_identity(s, m as int, (m + 1) as int);
    }
}

/// Decoding global index `0` gives the identity deck with all counters `0`.
pub proof fn lemma_decode_zero(n: nat)
    requires
        n <= MAX_N,
    ensures
        permutation_at(n, 0) == identity(n),
        counters_at(n, 0) == Seq::new(n, |j: int| 0usize),
{
    assert forall|j: nat| #[trigger] digit(0, j) == 0 by {
        lemma_fact_pos(j);
        lemma_fact_pos(j + 1);
        lemma_small_mod(0, fact(j + 1));
        lemma_fundamental_div_mod_converse(0, fact(j) as int, 0, 0);
    }
    if n >= 1 {
        lemma_decoded_zero_digits(n, 1, n, 0);
    }
    assert(counters_at(n, 0) =~= Seq::new(n, |j: int| 0usize));
}

/// Decoding `idx` and advancing once gives the state that decoding `idx + 1`
/// gives, for every index but the last.
pub proof fn lemma_step_matches_decode(n: nat, idx: nat)
    requires
        1 <= n <= MAX_N,
        idx + 1 < fact(n),
    ensures
        has_successor(permutation_at(n, idx), counters_at(n, idx)),
        next_deck(permutation_at(n, idx), counters_at(n, idx)) == permutation_at(n, idx + 1),
        next_counters(counters_at(n, idx)) == counters_at(n, idx + 1),
{
    let c = counters_at(n, idx);
    let k = carry_position(c, 1);
    lemma_carry_position(c, 1);
    assert forall|j: nat| 1 <= j < k implies #[trigger] digit(idx, j) == j by {
        lemma_digit_facts(idx, j);
        assert(c[j as int] >= j);
    }
    lemma_all_max_below(idx, k);
    if k == n {
        lemma_small_mod(idx, fact(n));
        assert(false);
    }
    lemma_digit_facts(idx, k);
    assert(digit(idx, k) < k) by {
        assert(c[k as int] < k);
    }
    lemma_digit_succ_carry(idx, k);
    assert forall|j: nat| k < j < n implies #[trigger] digit(idx + 1, j) == digit(idx, j) by {
        lemma_not_max_up(idx, k + 1, j);
        lemma_not_max_up(idx, k + 1, j + 1);
        lemma_digit_succ_same(idx, j);
    }
    assert forall|j: nat| 1 <= j < k implies #[trigger] digit(idx + 1, j) == 0 by {
        assert forall|l: nat| 1 <= l < j + 1 implies #[trigger] digit(idx, l) == l by {
            lemma_digit_facts(idx, l);
            assert(c[l as int] >= l);
        }
        lemma_all_max_below(idx, j + 1);
        lemma_digit_succ_zero(idx, j);
    }
    // The counters.
    assert(next_counters(c) =~= counters_at(n, idx + 1));
    // The deck.
    let x = decoded_from(n, k + 1, idx);
    lemma_decoded_agree(n, k + 1, idx, idx + 1);
    lemma_decoded_permutation(n, k + 1, idx);
    lemma_decoded_permutation(n, k, idx);
    lemma_decoded_permutation(n, 1, idx);
    lemma_decoded_zero_digits(n, 1, k, idx + 1);
    lemma_decoded_max_digits(n, k, k, idx);
    let dk = decoded_from(n, k, idx);
    lemma_up_down(dk, (k - 1) as nat);
    lemma_rotate_compose(x, k as int, digit(idx, k) as int, 1);
    assert(rotate_up(permutation_at(n, idx), k) == rotate(dk, k as int, 1));
}

} // verus!
