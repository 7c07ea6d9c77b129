use vstd::prelude::*;
use crate::codec::{
    has_sentinel_reference, is_sentinel, reference, reference_of, REF_LEN, MAX_DIGEST_INPUT,
};
use crate::index::PositionIndex;

verus! {

/// What validating one partition found.
#[derive(Debug, Clone, Copy, PartialEq, Eq, Structural)]
pub enum Outcome {
    /// Every record of the partition has its dependency earlier in the block.
    Valid,
    /// The record at `position` references the record at the later `depends_on`.
    OutOfOrder { position: usize, depends_on: usize },
    /// The record at `position` references an identifier found in no reachable partition.
    MissingInput { position: usize },
}

/// Searches the indexes `t, t - 1, ..., 0` in that order; the first that holds
/// `key` gives the position.
pub open spec fn find_in(tables: Seq<PositionIndex>, t: int, key: Seq<u8>) -> Option<int>
    decreases t + 1,
{
    if t < 0 {
        None
    } else {
        match tables[t].lookup_spec(key) {
            Some(p) => Some(p),
            None => find_in(tables, t - 1, key),
        }
    }
}

/// Record `n` of partition `t` passes: its reference is the sentinel, or it
/// resolves, through indexes `t` down to 0, to a position no later than `n`.
pub open spec fn record_ok(
    block: Seq<u8>,
    stride: int,
    tables: Seq<PositionIndex>,
    t: int,
    n: int,
) -> bool {
    let r = reference(block, stride, n);
    is_sentinel(r) || (find_in(tables, t, r) matches Some(p) && p <= n)
}

/// The index can be searched without its positions overflowing.
pub open spec fn index_fits(ix: PositionIndex) -> bool {
    ix.low + ix.ids@.len() <= usize::MAX
}

/// `r` is what validating partition `t`, covering `bound`, must give: `Valid`
/// when every record passes, else the first failing record, as `OutOfOrder`
/// with the later position it resolved to, or as `MissingInput`.
pub open spec fn outcome_correct(
    block: Seq<u8>,
    stride: int,
    bound: (usize, usize),
    tables: Seq<PositionIndex>,
    t: int,
    r: Outcome,
) -> bool {
    let low = bound.0 as int;
    let high = bound.1 as int;
    &&& (r == Outcome::Valid) <==> (forall|n: int|
        low <= n < high ==> #[trigger] record_ok(block, stride, tables, t, n))
    &&& r matches Outcome::OutOfOrder { position, depends_on } ==> {
        &&& low <= position < high
        &&& forall|n: int| low <= n < position ==> #[trigger] record_ok(block, stride, tables, t, n)
        &&& !is_sentinel(reference(block, stride, position as int))
        &&& find_in(tables, t, reference(block, stride, position as int)) == Some(depends_on as int)
        &&& depends_on > position
    }
    &&& r matches Outcome::MissingInput { position } ==> {
        &&& low <= position < high
        &&& forall|n: int| low <= n < position ==> #[trigger] record_ok(block, stride, tables, t, n)
        &&& !is_sentinel(reference(block, stride, position as int))
        &&& find_in(tables, t, reference(block, stride, position as int)) is None
    }
}

spec fn failure_position(r: Outcome) -> int {
    match r {
        Outcome::Valid => -1,
        Outcome::OutOfOrder { position, .. } => position as int,
        Outcome::MissingInput { position } => position as int,
    }
}

/// Validation of a partition has one possible result: two outcomes that are
/// both correct for the same block, bound and indexes are equal, so running the
/// validator again gives the same answer.
pub proof fn lemma_outcome_unique(
    block: Seq<u8>,
    stride: int,
    bound: (usize, usize),
    tables: Seq<PositionIndex>,
    t: int,
    r1: Outcome,
    r2: Outcome,
)
    requires
        outcome_correct(block, stride, bound, tables, t, r1),
        outcome_correct(block, stride, bound, tables, t, r2),
    ensures
        r1 == r2,
{
    if r1 != Outcome::Valid && r2 != Outcome::Valid {
        let p1 = failure_position(r1);
        let p2 = failure_position(r2);
        assert(!record_ok(block, stride, tables, t, p1));
        assert(!record_ok(block, stride, tables, t, p2));
        assert(p1 == p2);
    }
}

/// Looks `key` up in the indexes `tid` down to 0.
pub fn find_reference(ptables: &[PositionIndex], tid: usize, key: &[u8; 32]) -> (r: Option<usize>)
    requires
        tid < ptables@.len(),
        forall|i: int| 0 <= i <= tid ==> index_fits(#[trigger] ptables@[i]),
    ensures
        r matches Some(p) ==> find_in(ptables@, tid as int, key@) == Some(p as int),
        r is None ==> find_in(ptables@, tid as int, key@) is None,
{
    let _len = ptables.len();
    let mut i: usize = tid + 1;
    while i > 0
        invariant
            i <= tid + 1,
            tid < ptables@.len(),
            forall|k: int| 0 <= k <= tid ==> index_fits(#[trigger] ptables@[k]),
            find_in(ptables@, tid as int, key@) == find_in(ptables@, i - 1, key@),
        decreases i,
    {
        assert(index_fits(ptables@[i - 1]));
        match ptables[i - 1].get(key) {
            Some(p) => {
                return Some(p);
            },
            None => {},
        }
        i = i - 1;
    }
    None
}

/// Validates the records of partition `tid` in position order and stops at the
/// first that fails.
pub fn validate_partition(
    tid: usize,
    block: &[u8],
    bounds: &[(usize, usize)],
    ptables: &[PositionIndex],
    tx_size: usize,
) -> (r: Outcome)
    requires
        tid < bounds@.len(),
        tid < ptables@.len(),
        bounds@[tid as int].0 <= bounds@[tid as int].1,
        REF_LEN <= tx_size <= MAX_DIGEST_INPUT,
        bounds@[tid as int].1 * tx_size <= block@.len(),
        forall|i: int| 0 <= i <= tid ==> index_fits(#[trigger] ptables@[i]),
    ensures
        outcome_correct(block@, tx_size as int, bounds@[tid as int], ptables@, tid as int, r),
{
    let low = bounds[tid].0;
    let high = bounds[tid].1;
    let mut n: usize = low;
    while n < high
        invariant
            low <= n <= high,
            low == bounds@[tid as int].0,
            high == bounds@[tid as int].1,
            tid < ptables@.len(),
            REF_LEN <= tx_size <= MAX_DIGEST_INPUT,
            high * tx_size <= block@.len(),
            forall|i: int| 0 <= i <= tid ==> index_fits(#[trigger] ptables@[i]),
            forall|m: int|
                low <= m < n ==> #[trigger] record_ok(block@, tx_size as int, ptables@, tid as int, m),
        decreases high - n,
    {
        proof {
            vstd::arithmetic::mul::lemma_mul_inequality(n as int + 1, high as int, tx_size as int);
        }
        if !has_sentinel_reference(n, block, tx_size) {
            let key = reference_of(n, block, tx_size);
            match find_reference(ptables, tid, &key) {
                Some(pos) => {
                    if pos > n {
                        assert(!record_ok(block@, tx_size as int, ptables@, tid as int, n as int));
                        return Outcome::OutOfOrder { position: n, depends_on: pos };
                    }
                },
                None => {
                    assert(!record_ok(block@, tx_size as int, ptables@, tid as int, n as int));
                    return Outcome::MissingInput { position: n };
                },
            }
        }
        n = n + 1;
    }
    Outcome::Valid
}

} // verus!
