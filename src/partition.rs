use vstd::prelude::*;
use vstd::arithmetic::div_mod::{lemma_div_is_ordered, lemma_div_by_multiple};
use vstd::arithmetic::mul::lemma_mul_inequality;

verus! {

/// Start of partition `t` when `n` records are spread over `parts` partitions;
/// partition `t` is `[bound_low(t), bound_low(t + 1))`.
pub open spec fn bound_low(t: int, n: int, parts: int) -> int {
    t * n / parts
}

/// The bounds are exactly the partitioner's output for `n` records and `parts` partitions.
pub open spec fn bounds_for(bounds: Seq<(usize, usize)>, n: int, parts: int) -> bool {
    &&& bounds.len() == parts
    &&& forall|t: int|
        0 <= t < parts ==> (#[trigger] bounds[t]).0 == bound_low(t, n, parts) && bounds[t].1
            == bound_low(t + 1, n, parts)
}

/// Position `p` lies in the half-open range `b`.
pub open spec fn in_bound(b: (usize, usize), p: int) -> bool {
    b.0 <= p < b.1
}

/// Position `p` lies in one of the bounds.
pub open spec fn covered(bounds: Seq<(usize, usize)>, p: int) -> bool {
    exists|t: int| 0 <= t < bounds.len() && #[trigger] in_bound(bounds[t], p)
}

proof fn lemma_bound_monotone(t1: int, t2: int, n: int, parts: int)
    requires
        0 <= t1 <= t2,
        0 <= n,
        0 < parts,
    ensures
        bound_low(t1, n, parts) <= bound_low(t2, n, parts),
{
    lemma_mul_inequality(t1, t2, n);
    lemma_div_is_ordered(t1 * n, t2 * n, parts);
}

proof fn lemma_bound_ends(n: int, parts: int)
    requires
        0 <= n,
        0 < parts,
    ensures
        bound_low(0, n, parts) == 0,
        bound_low(parts, n, parts) == n,
{
    assert(0 * n == 0);
    lemma_div_by_multiple(n, parts);
    assert(parts * n == n * parts) by (nonlinear_arith);
}

pub(crate) proof fn lemma_bound_find(p: int, t: int, n: int, parts: int) -> (s: int)
    requires
        0 <= n,
        0 < parts,
        0 <= t < parts,
        bound_low(t, n, parts) <= p < n,
    ensures
        t <= s < parts,
        bound_low(s, n, parts) <= p < bound_low(s + 1, n, parts),
    decreases parts - t,
{
    lemma_bound_ends(n, parts);
    if p < bound_low(t + 1, n, parts) {
        t
    } else {
        lemma_bound_find(p, t + 1, n, parts)
    }
}

/// The partitioner's bounds, for any `parts >= 1` (also more parts than records),
/// start at 0, end at `n`, are contiguous (each ends where the next begins), each
/// is a well-formed half-open range, they are ordered by partition id and pairwise
/// disjoint, and every position below `n` lies in exactly one of them.
pub proof fn lemma_bounds_partition(bounds: Seq<(usize, usize)>, n: int, parts: int)
    requires
        0 <= n,
        1 <= parts,
        bounds_for(bounds, n, parts),
    ensures
        bounds[0].0 == 0,
        bounds[parts - 1].1 == n,
        forall|t: int| 0 <= t < parts - 1 ==> (#[trigger] bounds[t]).1 == bounds[t + 1].0,
        forall|t: int| 0 <= t < parts ==> (#[trigger] bounds[t]).0 <= bounds[t].1,
        forall|t1: int, t2: int|
            0 <= t1 < t2 < parts ==> (#[trigger] bounds[t1]).1 <= (#[trigger] bounds[t2]).0,
        forall|p: int| 0 <= p < n ==> #[trigger] covered(bounds, p),
        forall|p: int, t1: int, t2: int|
            0 <= t1 < parts && 0 <= t2 < parts && #[trigger] in_bound(bounds[t1], p)
                && #[trigger] in_bound(bounds[t2], p) ==> t1 == t2,
{
    lemma_bound_ends(n, parts);
    assert forall|t: int| 0 <= t < parts implies (#[trigger] bounds[t]).0 <= bounds[t].1 by {
        lemma_bound_monotone(t, t + 1, n, parts);
    }
    assert forall|t1: int, t2: int| 0 <= t1 < t2 < parts implies (#[trigger] bounds[t1]).1
        <= (#[trigger] bounds[t2]).0 by {
        lemma_bound_monotone(t1 + 1, t2, n, parts);
    }
    assert forall|p: int| 0 <= p < n implies #[trigger] covered(bounds, p) by {
        let s = lemma_bound_find(p, 0, n, parts);
        assert(in_bound(bounds[s], p));
    }
    assert forall|p: int, t1: int, t2: int|
        0 <= t1 < parts && 0 <= t2 < parts && #[trigger] in_bound(bounds[t1], p)
            && #[trigger] in_bound(bounds[t2], p) implies t1 == t2 by {
        if t1 < t2 {
            lemma_bound_monotone(t1 + 1, t2, n, parts);
        } else if t2 < t1 {
            lemma_bound_monotone(t2 + 1, t1, n, parts);
        }
    }
}

/// Splits `num_txns` records into `num_threads` contiguous ranges:
/// range `t` is `[t * num_txns / num_threads, (t + 1) * num_txns / num_threads)`.
pub fn setup_bounds(num_threads: usize, num_txns: usize) -> (r: Vec<(usize, usize)>)
    requires
        num_threads >= 1,
        num_threads * num_txns <= usize::MAX,
    ensures
        bounds_for(r@, num_txns as int, num_threads as int),
{
    let mut bounds: Vec<(usize, usize)> = Vec::new();
    let mut thread: usize = 0;
    while thread < num_threads
        invariant
            thread <= num_threads,
            num_threads >= 1,
            num_threads * num_txns <= usize::MAX,
            bounds@.len() == thread,
            forall|t: int|
                0 <= t < thread ==> (#[trigger] bounds@[t]).0 == bound_low(
                    t,
                    num_txns as int,
                    num_threads as int,
                ) && bounds@[t].1 == bound_low(t + 1, num_txns as int, num_threads as int),
        decreases num_threads - thread,
    {
        proof {
            lemma_mul_inequality(thread as int + 1, num_threads as int, num_txns as int);
            lemma_mul_inequality(thread as int, thread as int + 1, num_txns as int);
        }
        let low = thread * num_txns / num_threads;
        let high = (thread + 1) * num_txns / num_threads;
        bounds.push((low, high));
        thread = thread + 1;
    }
    bounds
}

} // verus!
