//! Folding block results `(checksum, max_flips)` into one result.
use vstd::prelude::*;

verus! {

/// Combines two results: checksums add, maxima take the larger.
pub open spec fn combine(a: (int, int), b: (int, int)) -> (int, int) {
    (a.0 + b.0, if a.1 >= b.1 { a.1 } else { b.1 })
}

/// Folds results from `(0, 0)` in sequence order.
pub open spec fn reduce(rs: Seq<(int, int)>) -> (int, int)
    decreases rs.len(),
{
    if rs.len() == 0 {
        (0, 0)
    } else {
        combine(reduce(rs.drop_last()), rs.last())
    }
}

/// The mathematical value of an executable result.
pub open spec fn result_view(r: (i64, i64)) -> (int, int) {
    (r.0 as int, r.1 as int)
}

/// Reducing a sequence is combining the reduction without its element at
/// `j` with that element.
proof fn lemma_reduce_remove(rs: Seq<(int, int)>, j: int)
    requires
        0 <= j < rs.len(),
    ensures
        reduce(rs) == combine(reduce(rs.remove(j)), rs[j]),
    decreases rs.len(),
{
    if j < rs.len() - 1 {
        let init = rs.drop_last();
        lemma_reduce_remove(init, j);
        assert(init.remove(j) =~= rs.remove(j).drop_last());
        assert(rs.remove(j).last() == rs.last());
    } else {
        assert(rs.remove(j) =~= rs.drop_last());
    }
}

/// The reduction does not depend on the order of the results: two sequences
/// holding the same results, each as often, reduce to the same value.
pub proof fn lemma_reduce_order_independent(s: Seq<(int, int)>, t: Seq<(int, int)>)
    requires
        s.to_multiset() == t.to_multiset(),
    ensures
        reduce(s) == reduce(t),
    decreases s.len(),
{
    broadcast use vstd::seq_lib::group_to_multiset_ensures;

    vstd::seq_lib::to_multiset_len(s);
    vstd::seq_lib::to_multiset_len(t);
    if s.len() > 0 {
        let x = s.last();
        assert(s.contains(x)) by {
            assert(s[s.len() - 1] == x);
        }
        assert(t.to_multiset().count(x) > 0);
        assert(t.contains(x));
        let j = choose|j: int| 0 <= j < t.len() && t[j] == x;
        let s0 = s.drop_last();
        let t0 = t.remove(j);
        assert(s0 =~= s.remove(s.len() - 1));
        assert(s0.to_multiset() =~= t0.to_multiset());
        lemma_reduce_order_independent(s0, t0);
        lemma_reduce_remove(t, j);
    }
}

/// Combines two block results.
pub fn combine_results(a: (i64, i64), b: (i64, i64)) -> (r: (i64, i64))
    requires
        i64::MIN <= a.0 + b.0 <= i64::MAX,
    ensures
        result_view(r) == combine(result_view(a), result_view(b)),
{
    (a.0 + b.0, if a.1 >= b.1 { a.1 } else { b.1 })
}

} // verus!
