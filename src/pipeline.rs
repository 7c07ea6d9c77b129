use vstd::prelude::*;
use crate::codec::{is_sentinel, record_id, reference, well_formed, REF_LEN, MAX_DIGEST_INPUT};
use crate::index::{build_index, last_in_range, lemma_lookup_matches_range, PositionIndex};
use crate::partition::{bound_low, bounds_for, lemma_bound_find, setup_bounds};
use crate::validate::{find_in, record_ok, validate_partition, index_fits, Outcome};
use crate::exchange::aggregate_results;

verus! {

/// Number of records of a block of `len` bytes with stride `stride`.
pub open spec fn count(len: int, stride: int) -> int {
    len / stride
}

/// Where the search for `key` from partition `t` lands, partitions `t` down to 0
/// of `parts` over `n` records, each scanned from its top.
pub open spec fn found_in_partitions(
    block: Seq<u8>,
    stride: int,
    n: int,
    parts: int,
    t: int,
    key: Seq<u8>,
) -> Option<int>
    decreases t + 1,
{
    if t < 0 {
        None
    } else {
        match last_in_range(block, stride, bound_low(t, n, parts), bound_low(t + 1, n, parts), key) {
            Some(p) => Some(p),
            None => found_in_partitions(block, stride, n, parts, t - 1, key),
        }
    }
}

/// Every record of every partition passes its check when the block is split
/// into `parts` partitions.
pub open spec fn block_valid_under(block: Seq<u8>, stride: int, parts: int) -> bool {
    let n = count(block.len() as int, stride);
    forall|t: int, m: int|
        0 <= t < parts && bound_low(t, n, parts) <= m < bound_low(t + 1, n, parts)
            ==> #[trigger] partition_record_ok(block, stride, parts, t, m)
}

/// Record `m`, in partition `t` of `parts`, passes its check.
pub open spec fn partition_record_ok(
    block: Seq<u8>,
    stride: int,
    parts: int,
    t: int,
    m: int,
) -> bool {
    let r = reference(block, stride, m);
    is_sentinel(r) || (found_in_partitions(block, stride, count(block.len() as int, stride), parts, t, r)
        matches Some(p) && p <= m)
}

/// Every record's reference is the sentinel or the identifier of a record at
/// the same or an earlier position.
pub open spec fn block_ordered(block: Seq<u8>, stride: int) -> bool {
    forall|m: int| 0 <= m < count(block.len() as int, stride) ==> #[trigger] dependency_met(block, stride, m)
}

/// The reference of record `m` is the sentinel or names a record at or before `m`.
pub open spec fn dependency_met(block: Seq<u8>, stride: int, m: int) -> bool {
    let r = reference(block, stride, m);
    is_sentinel(r) || exists|p: int| 0 <= p <= m && #[trigger] record_id(block, stride, p) == r
}

/// No two records of the block share an identifier.
pub open spec fn ids_distinct(block: Seq<u8>, stride: int) -> bool {
    forall|p: int, q: int|
        0 <= p < count(block.len() as int, stride) && 0 <= q < count(block.len() as int, stride) && p
            != q ==> #[trigger] record_id(block, stride, p) != #[trigger] record_id(block, stride, q)
}

proof fn lemma_last_in_range(block: Seq<u8>, stride: int, lo: int, hi: int, key: Seq<u8>)
    ensures
        last_in_range(block, stride, lo, hi, key) matches Some(p) ==> lo <= p < hi && record_id(
            block,
            stride,
            p,
        ) == key,
        last_in_range(block, stride, lo, hi, key) is None ==> forall|p: int|
            lo <= p < hi ==> #[trigger] record_id(block, stride, p) != key,
    decreases hi - lo,
{
    if hi > lo {
        lemma_last_in_range(block, stride, lo, hi - 1, key);
    }
}

proof fn lemma_found_in_partitions(
    block: Seq<u8>,
    stride: int,
    n: int,
    parts: int,
    t: int,
    key: Seq<u8>,
)
    requires
        0 <= n,
        1 <= parts,
        -1 <= t < parts,
    ensures
        found_in_partitions(block, stride, n, parts, t, key) matches Some(p) ==> 0 <= p < bound_low(
            t + 1,
            n,
            parts,
        ) && record_id(block, stride, p) == key,
        found_in_partitions(block, stride, n, parts, t, key) is None ==> forall|p: int|
            0 <= p < bound_low(t + 1, n, parts) ==> #[trigger] record_id(block, stride, p) != key,
    decreases t + 1,
{
    lemma_bound_facts(n, parts);
    if t >= 0 {
        lemma_last_in_range(block, stride, bound_low(t, n, parts), bound_low(t + 1, n, parts), key);
        lemma_found_in_partitions(block, stride, n, parts, t - 1, key);
    }
}

proof fn lemma_bound_facts(n: int, parts: int)
    requires
        0 <= n,
        1 <= parts,
    ensures
        bound_low(0, n, parts) == 0,
        bound_low(parts, n, parts) == n,
        forall|t1: int, t2: int|
            0 <= t1 <= t2 ==> #[trigger] bound_low(t1, n, parts) <= #[trigger] bound_low(t2, n, parts),
{
    assert(0 * n == 0);
    vstd::arithmetic::div_mod::lemma_div_by_multiple(n, parts);
    assert(parts * n == n * parts) by (nonlinear_arith);
    assert forall|t1: int, t2: int| 0 <= t1 <= t2 implies #[trigger] bound_low(t1, n, parts)
        <= #[trigger] bound_low(t2, n, parts) by {
        vstd::arithmetic::mul::lemma_mul_inequality(t1, t2, n);
        vstd::arithmetic::div_mod::lemma_div_is_ordered(t1 * n, t2 * n, parts);
    }
}

proof fn lemma_tables_match(
    block: Seq<u8>,
    stride: int,
    n: int,
    parts: int,
    tables: Seq<PositionIndex>,
    t: int,
    key: Seq<u8>,
)
    requires
        0 <= n,
        1 <= parts,
        -1 <= t < parts,
        tables.len() == parts,
        forall|i: int|
            0 <= i < parts ==> (#[trigger] tables[i]).built_for(
                block,
                stride,
                bound_low(i, n, parts),
                bound_low(i + 1, n, parts),
            ),
    ensures
        find_in(tables, t, key) == found_in_partitions(block, stride, n, parts, t, key),
    decreases t + 1,
{
    if t >= 0 {
        lemma_bound_facts(n, parts);
        assert(bound_low(t, n, parts) <= bound_low(t + 1, n, parts));
        lemma_lookup_matches_range(
            tables[t],
            block,
            stride,
            bound_low(t, n, parts),
            bound_low(t + 1, n, parts),
            key,
        );
        lemma_tables_match(block, stride, n, parts, tables, t - 1, key);
    }
}

/// Runs both phases one partition after another: builds every partition's
/// index, then validates every partition against the indexes at or before it.
pub fn validate_block(block: &[u8], tx_size: usize, num_threads: usize) -> (r: bool)
    requires
        well_formed(block@.len() as int, tx_size as int),
        num_threads >= 1,
        num_threads * count(block@.len() as int, tx_size as int) <= usize::MAX,
    ensures
        r == block_valid_under(block@, tx_size as int, num_threads as int),
{
    let num_txns = block.len() / tx_size;
    let ghost stride = tx_size as int;
    let ghost n = num_txns as int;
    let ghost parts = num_threads as int;
    proof {
        lemma_bound_facts(n, parts);
        vstd::arithmetic::div_mod::lemma_fundamental_div_mod(block@.len() as int, stride);
        assert(stride * n == block@.len());
        assert(n * stride == stride * n) by (nonlinear_arith);
    }
    let bounds = setup_bounds(num_threads, num_txns);
    let mut tables: Vec<PositionIndex> = Vec::new();
    let mut t: usize = 0;
    while t < num_threads
        invariant
            t <= num_threads,
            bounds_for(bounds@, n, parts),
            n == count(block@.len() as int, stride),
            stride == tx_size,
            parts == num_threads,
            REF_LEN <= tx_size <= MAX_DIGEST_INPUT,
            n * stride == block@.len(),
            bound_low(parts, n, parts) == n,
            forall|t1: int, t2: int|
                0 <= t1 <= t2 ==> #[trigger] bound_low(t1, n, parts) <= #[trigger] bound_low(
                    t2,
                    n,
                    parts,
                ),
            tables@.len() == t,
            forall|i: int|
                0 <= i < t ==> (#[trigger] tables@[i]).built_for(
                    block@,
                    stride,
                    bound_low(i, n, parts),
                    bound_low(i + 1, n, parts),
                ),
        decreases num_threads - t,
    {
        assert(bounds@[t as int].1 <= n);
        proof {
            vstd::arithmetic::mul::lemma_mul_inequality(bounds@[t as int].1 as int, n, stride);
        }
        let ix = build_index(block, tx_size, bounds[t]);
        tables.push(ix);
        t = t + 1;
    }
    let mut outcomes: Vec<bool> = Vec::new();
    let mut t: usize = 0;
    while t < num_threads
        invariant
            t <= num_threads,
            bounds_for(bounds@, n, parts),
            n == count(block@.len() as int, stride),
            stride == tx_size,
            parts == num_threads,
            REF_LEN <= tx_size <= MAX_DIGEST_INPUT,
            n * stride == block@.len(),
            n <= usize::MAX,
            bound_low(parts, n, parts) == n,
            forall|t1: int, t2: int|
                0 <= t1 <= t2 ==> #[trigger] bound_low(t1, n, parts) <= #[trigger] bound_low(
                    t2,
                    n,
                    parts,
                ),
            tables@.len() == parts,
            forall|i: int|
                0 <= i < parts ==> (#[trigger] tables@[i]).built_for(
                    block@,
                    stride,
                    bound_low(i, n, parts),
                    bound_low(i + 1, n, parts),
                ),
            outcomes@.len() == t,
            forall|i: int|
                0 <= i < t ==> (#[trigger] outcomes@[i]) == (forall|m: int|
                    bound_low(i, n, parts) <= m < bound_low(i + 1, n, parts) ==> #[trigger] record_ok(
                        block@,
                        stride,
                        tables@,
                        i,
                        m,
                    )),
        decreases num_threads - t,
    {
        assert(bounds@[t as int].1 <= n);
        proof {
            vstd::arithmetic::mul::lemma_mul_inequality(bounds@[t as int].1 as int, n, stride);
            assert forall|i: int| 0 <= i <= t implies index_fits(#[trigger] tables@[i]) by {
                assert(tables@[i].built_for(
                    block@,
                    stride,
                    bound_low(i, n, parts),
                    bound_low(i + 1, n, parts),
                ));
            }
        }
        let o = validate_partition(t, block, bounds.as_slice(), tables.as_slice(), tx_size);
        outcomes.push(o == Outcome::Valid);
        t = t + 1;
    }
    let r = aggregate_results(outcomes.as_slice());
    proof {
        assert forall|i: int, m: int|
            0 <= i < parts && bound_low(i, n, parts) <= m < bound_low(i + 1, n, parts) implies
            record_ok(block@, stride, tables@, i, m) == #[trigger] partition_record_ok(
                block@,
                stride,
                parts,
                i,
                m,
            ) by {
            lemma_tables_match(block@, stride, n, parts, tables@, i, reference(block@, stride, m));
        }
        if r {
            assert forall|i: int, m: int|
                0 <= i < parts && bound_low(i, n, parts) <= m < bound_low(i + 1, n, parts) implies
                #[trigger] partition_record_ok(block@, stride, parts, i, m) by {
                assert(outcomes@[i]);
                assert(record_ok(block@, stride, tables@, i, m));
            }
        } else {
            let i = choose|i: int| 0 <= i < outcomes@.len() && !(#[trigger] outcomes@[i]);
            let m = choose|m: int|
                bound_low(i, n, parts) <= m < bound_low(i + 1, n, parts) && !(#[trigger] record_ok(
                    block@,
                    stride,
                    tables@,
                    i,
                    m,
                ));
            assert(!partition_record_ok(block@, stride, parts, i, m));
        }
    }
    r
}

/// With identifiers free of collisions, the block validates under any number of
/// partitions exactly when every record's reference is the sentinel or names a
/// record at the same or an earlier position: the split does not matter.
pub proof fn lemma_valid_iff_ordered(block: Seq<u8>, stride: int, parts: int)
    requires
        well_formed(block.len() as int, stride),
        parts >= 1,
        ids_distinct(block, stride),
    ensures
        block_valid_under(block, stride, parts) == block_ordered(block, stride),
{
    let n = count(block.len() as int, stride);
    assert(0 <= n) by (nonlinear_arith)
        requires
            n == block.len() as int / stride,
            stride > 0,
    ;
    lemma_bound_facts(n, parts);
    if block_valid_under(block, stride, parts) {
        assert forall|m: int| 0 <= m < n implies #[trigger] dependency_met(block, stride, m) by {
            let t = lemma_bound_find(m, 0, n, parts);
            assert(partition_record_ok(block, stride, parts, t, m));
            let r = reference(block, stride, m);
            lemma_found_in_partitions(block, stride, n, parts, t, r);
            if !is_sentinel(r) {
                let p = found_in_partitions(block, stride, n, parts, t, r)->Some_0;
                assert(record_id(block, stride, p) == r);
            }
        }
    }
    if block_ordered(block, stride) {
        assert forall|t: int, m: int|
            0 <= t < parts && bound_low(t, n, parts) <= m < bound_low(t + 1, n, parts) implies
            #[trigger] partition_record_ok(block, stride, parts, t, m) by {
            assert(bound_low(t + 1, n, parts) <= bound_low(parts, n, parts));
            assert(dependency_met(block, stride, m));
            let r = reference(block, stride, m);
            lemma_found_in_partitions(block, stride, n, parts, t, r);
            if !is_sentinel(r) {
                let p = choose|p: int| 0 <= p <= m && #[trigger] record_id(block, stride, p) == r;
                assert(record_id(block, stride, p) == r);
                let q = found_in_partitions(block, stride, n, parts, t, r)->Some_0;
                assert(record_id(block, stride, q) == r);
                assert(q == p);
            }
        }
    }
}

/// With identifiers free of collisions, validating under two partition counts
/// gives the same result, and a block whose dependencies all come earlier
/// validates under both.
pub proof fn lemma_partition_count_invariant(block: Seq<u8>, stride: int, parts1: int, parts2: int)
    requires
        well_formed(block.len() as int, stride),
        parts1 >= 1,
        parts2 >= 1,
        ids_distinct(block, stride),
    ensures
        block_valid_under(block, stride, parts1) == block_valid_under(block, stride, parts2),
        block_ordered(block, stride) ==> block_valid_under(block, stride, parts1)
            && block_valid_under(block, stride, parts2),
{
    lemma_valid_iff_ordered(block, stride, parts1);
    lemma_valid_iff_ordered(block, stride, parts2);
}

/// With identifiers free of collisions, the record at position `p` is found
/// under its identifier, at `p`, in exactly one built index: the one of the
/// partition whose bound holds `p`; every other index does not hold it.
pub proof fn lemma_round_trip(
    block: Seq<u8>,
    stride: int,
    parts: int,
    tables: Seq<PositionIndex>,
    p: int,
)
    requires
        well_formed(block.len() as int, stride),
        parts >= 1,
        ids_distinct(block, stride),
        tables.len() == parts,
        forall|i: int|
            0 <= i < parts ==> (#[trigger] tables[i]).built_for(
                block,
                stride,
                bound_low(i, count(block.len() as int, stride), parts),
                bound_low(i + 1, count(block.len() as int, stride), parts),
            ),
        0 <= p < count(block.len() as int, stride),
    ensures
        forall|i: int|
            0 <= i < parts ==> (#[trigger] tables[i]).lookup_spec(record_id(block, stride, p)) == if bound_low(
                i,
                count(block.len() as int, stride),
                parts,
            ) <= p < bound_low(i + 1, count(block.len() as int, stride), parts) {
                Some(p)
            } else {
                None::<int>
            },
{
    let n = count(block.len() as int, stride);
    let key = record_id(block, stride, p);
    lemma_bound_facts(n, parts);
    assert forall|i: int| 0 <= i < parts implies (#[trigger] tables[i]).lookup_spec(key) == if bound_low(
        i,
        n,
        parts,
    ) <= p < bound_low(i + 1, n, parts) {
        Some(p)
    } else {
        None::<int>
    } by {
        let lo = bound_low(i, n, parts);
        let hi = bound_low(i + 1, n, parts);
        assert(lo <= hi && hi <= bound_low(parts, n, parts));
        lemma_lookup_matches_range(tables[i], block, stride, lo, hi, key);
        lemma_last_in_range(block, stride, lo, hi, key);
        if lo <= p < hi {
            let q = last_in_range(block, stride, lo, hi, key)->Some_0;
            assert(record_id(block, stride, q) == key);
        } else if let Some(q) = last_in_range(block, stride, lo, hi, key) {
            assert(record_id(block, stride, q) == key);
        }
    }
}

} // verus!
