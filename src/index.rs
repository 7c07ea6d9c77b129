use vstd::prelude::*;
use crate::codec::{record_id, txid, REF_LEN, MAX_DIGEST_INPUT};

verus! {

/// Identifiers of the records of one partition, in position order: entry `i`
/// belongs to position `low + i`.
pub struct PositionIndex {
    pub low: usize,
    pub ids: Vec<[u8; 32]>,
}

/// Offset of the last entry of `ids` equal to `key`, if any (a later position
/// overrides an earlier one with the same identifier).
pub open spec fn last_match(ids: Seq<[u8; 32]>, key: Seq<u8>) -> Option<int>
    decreases ids.len(),
{
    if ids.len() == 0 {
        None
    } else if ids.last()@ == key {
        Some(ids.len() - 1)
    } else {
        last_match(ids.drop_last(), key)
    }
}

/// Last position in `[lo, hi)` whose record identifier equals `key`, if any.
pub open spec fn last_in_range(block: Seq<u8>, stride: int, lo: int, hi: int, key: Seq<u8>) -> Option<
    int,
>
    decreases hi - lo,
{
    if hi <= lo {
        None
    } else if record_id(block, stride, hi - 1) == key {
        Some(hi - 1)
    } else {
        last_in_range(block, stride, lo, hi - 1, key)
    }
}

impl PositionIndex {
    /// The position that this index maps `key` to, if any.
    pub open spec fn lookup_spec(&self, key: Seq<u8>) -> Option<int> {
        match last_match(self.ids@, key) {
            Some(i) => Some(self.low + i),
            None => None,
        }
    }

    /// This index holds the identifiers of exactly the records of `[lo, hi)`.
    pub open spec fn built_for(&self, block: Seq<u8>, stride: int, lo: int, hi: int) -> bool {
        &&& self.low == lo
        &&& self.ids@.len() == hi - lo
        &&& forall|i: int|
            0 <= i < hi - lo ==> (#[trigger] self.ids@[i])@ == record_id(block, stride, lo + i)
    }

    /// Looks `key` up; among equal identifiers the highest position wins.
    pub fn get(&self, key: &[u8; 32]) -> (r: Option<usize>)
        requires
            self.low + self.ids@.len() <= usize::MAX,
        ensures
            r matches Some(p) ==> self.lookup_spec(key@) == Some(p as int),
            r is None ==> self.lookup_spec(key@) is None,
    {
        let mut i: usize = self.ids.len();
        assert(self.ids@.subrange(0, i as int) =~= self.ids@);
        while i > 0
            invariant
                i <= self.ids@.len(),
                self.low + self.ids@.len() <= usize::MAX,
                last_match(self.ids@, key@) == last_match(self.ids@.subrange(0, i as int), key@),
            decreases i,
        {
            let ghost prefix = self.ids@.subrange(0, i as int);
            assert(prefix.drop_last() =~= self.ids@.subrange(0, i - 1));
            if ids_equal(&self.ids[i - 1], key) {
                return Some(self.low + (i - 1));
            }
            i = i - 1;
        }
        assert(self.ids@.subrange(0, 0) =~= Seq::<[u8; 32]>::empty());
        None
    }
}

/// Byte-wise equality of two identifiers.
pub fn ids_equal(a: &[u8; 32], b: &[u8; 32]) -> (r: bool)
    ensures
        r == (a@ == b@),
{
    let mut i: usize = 0;
    while i < REF_LEN
        invariant
            i <= REF_LEN,
            a@.len() == REF_LEN,
            b@.len() == REF_LEN,
            forall|k: int| 0 <= k < i ==> #[trigger] a@[k] == b@[k],
        decreases REF_LEN - i,
    {
        if a[i] != b[i] {
            return false;
        }
        i = i + 1;
    }
    assert(a@ =~= b@);
    true
}

/// A built index answers like a scan of its range from the top.
pub proof fn lemma_lookup_matches_range(
    ix: PositionIndex,
    block: Seq<u8>,
    stride: int,
    lo: int,
    hi: int,
    key: Seq<u8>,
)
    requires
        lo <= hi,
        ix.built_for(block, stride, lo, hi),
    ensures
        ix.lookup_spec(key) == last_in_range(block, stride, lo, hi, key),
{
    lemma_last_match_prefix(ix.ids@, key, block, stride, lo, hi);
}

proof fn lemma_last_match_prefix(
    ids: Seq<[u8; 32]>,
    key: Seq<u8>,
    block: Seq<u8>,
    stride: int,
    lo: int,
    hi: int,
)
    requires
        lo <= hi,
        ids.len() == hi - lo,
        forall|i: int| 0 <= i < hi - lo ==> (#[trigger] ids[i])@ == record_id(block, stride, lo + i),
    ensures
        match last_match(ids, key) {
            Some(i) => Some(lo + i),
            None => None,
        } == last_in_range(block, stride, lo, hi, key),
    decreases hi - lo,
{
    if hi > lo {
        assert(ids.last() == ids[hi - lo - 1]);
        let rest = ids.drop_last();
        assert forall|i: int| 0 <= i < hi - 1 - lo implies (#[trigger] rest[i])@ == record_id(
            block,
            stride,
            lo + i,
        ) by {
            assert(rest[i] == ids[i]);
        }
        lemma_last_match_prefix(rest, key, block, stride, lo, hi - 1);
    }
}

/// Builds the index of the records in `[bound.0, bound.1)`, scanning them in order.
pub fn build_index(block: &[u8], tx_size: usize, bound: (usize, usize)) -> (r: PositionIndex)
    requires
        bound.0 <= bound.1,
        REF_LEN <= tx_size <= MAX_DIGEST_INPUT,
        bound.1 * tx_size <= block@.len(),
    ensures
        r.built_for(block@, tx_size as int, bound.0 as int, bound.1 as int),
{
    let mut ids: Vec<[u8; 32]> = Vec::new();
    let mut n: usize = bound.0;
    while n < bound.1
        invariant
            bound.0 <= n <= bound.1,
            REF_LEN <= tx_size <= MAX_DIGEST_INPUT,
            bound.1 * tx_size <= block@.len(),
            ids@.len() == n - bound.0,
            forall|i: int|
                0 <= i < n - bound.0 ==> (#[trigger] ids@[i])@ == record_id(
                    block@,
                    tx_size as int,
                    bound.0 + i,
                ),
        decreases bound.1 - n,
    {
        proof {
            vstd::arithmetic::mul::lemma_mul_inequality(n as int + 1, bound.1 as int, tx_size as int);
        }
        let id = txid(n, block, tx_size);
        ids.push(id);
        n = n + 1;
    }
    PositionIndex { low: bound.0, ids }
}

} // verus!
