use vstd::prelude::*;
use crate::index::PositionIndex;

verus! {

/// The contributions name each partition id of `[0, parts)` exactly once.
pub open spec fn contributions_complete(c: Seq<(usize, PositionIndex)>, parts: int) -> bool {
    &&& forall|i: int| 0 <= i < c.len() ==> (#[trigger] c[i]).0 < parts
    &&& forall|i: int, j: int| 0 <= i < j < c.len() ==> (#[trigger] c[i]).0 != (#[trigger] c[j]).0
    &&& forall|t: int| 0 <= t < parts ==> #[trigger] reported(c, t)
}

/// Some contribution carries partition id `t`.
pub open spec fn reported(c: Seq<(usize, PositionIndex)>, t: int) -> bool {
    exists|i: int| 0 <= i < c.len() && (#[trigger] c[i]).0 == t
}

/// Assembles the indexes reported by the builders, in any order, into one
/// collection ordered by partition id. Gives `None` unless every id in
/// `[0, num_threads)` was reported exactly once and no other id was.
pub fn collect_ptables(contributions: Vec<(usize, PositionIndex)>, num_threads: usize) -> (r:
    Option<Vec<PositionIndex>>)
    ensures
        r is Some <==> contributions_complete(contributions@, num_threads as int),
        r matches Some(v) ==> {
            &&& v@.len() == num_threads
            &&& forall|i: int|
                0 <= i < contributions@.len() ==> v@[(#[trigger] contributions@[i]).0 as int]
                    == contributions@[i].1
        },
{
    let ghost orig = contributions@;
    let mut rest = contributions;
    let mut slots: Vec<Option<PositionIndex>> = Vec::new();
    let mut t: usize = 0;
    while t < num_threads
        invariant
            t <= num_threads,
            orig == contributions@,
            slots@.len() == t,
            forall|k: int| 0 <= k < t ==> (#[trigger] slots@[k]) is None,
        decreases num_threads - t,
    {
        slots.push(None);
        t = t + 1;
    }
    while rest.len() > 0
        invariant
            orig == contributions@,
            rest@ == orig.subrange(0, rest@.len() as int),
            rest@.len() <= orig.len(),
            slots@.len() == num_threads,
            forall|j: int|
                rest@.len() <= j < orig.len() ==> (#[trigger] orig[j]).0 < num_threads
                    && slots@[orig[j].0 as int] == Some(orig[j].1),
            forall|i: int, j: int|
                rest@.len() <= i < j < orig.len() ==> (#[trigger] orig[i]).0 != (#[trigger] orig[j]).0,
            forall|k: int|
                0 <= k < num_threads && (#[trigger] slots@[k]) is Some ==> exists|j: int|
                    rest@.len() <= j < orig.len() && (#[trigger] orig[j]).0 == k,
        decreases rest@.len(),
    {
        let ghost k = rest@.len() - 1;
        let (tid, ix) = rest.pop().unwrap();
        assert(orig[k] == (tid, ix));
        if tid >= num_threads {
            assert(!contributions_complete(orig, num_threads as int));
            return None;
        }
        if slots[tid].is_some() {
            let ghost j = choose|j: int| k < j < orig.len() && (#[trigger] orig[j]).0 == tid;
            assert(orig[k].0 == orig[j].0);
            assert(!contributions_complete(orig, num_threads as int));
            return None;
        }
        slots[tid] = Some(ix);
    }
    assert(orig.subrange(0, 0).len() == 0);
    let ghost filled = slots@;
    let mut out: Vec<PositionIndex> = Vec::new();
    let mut t: usize = 0;
    while t < num_threads
        invariant
            t <= num_threads,
            orig == contributions@,
            filled.len() == num_threads,
            slots@ == filled.subrange(t as int, num_threads as int),
            out@.len() == t,
            forall|k: int| 0 <= k < t ==> filled[k] == Some(#[trigger] out@[k]),
            forall|j: int|
                0 <= j < orig.len() ==> (#[trigger] orig[j]).0 < num_threads && filled[orig[j].0 as int]
                    == Some(orig[j].1),
            forall|i: int, j: int|
                0 <= i < j < orig.len() ==> (#[trigger] orig[i]).0 != (#[trigger] orig[j]).0,
            forall|k: int|
                0 <= k < num_threads && (#[trigger] filled[k]) is Some ==> exists|j: int|
                    0 <= j < orig.len() && (#[trigger] orig[j]).0 == k,
        decreases num_threads - t,
    {
        let slot = slots.remove(0);
        assert(slot == filled[t as int]);
        match slot {
            Some(ix) => {
                out.push(ix);
            },
            None => {
                assert(!reported(orig, t as int));
                assert(!contributions_complete(orig, num_threads as int));
                return None;
            },
        }
        assert(slots@ =~= filled.subrange(t + 1, num_threads as int));
        t = t + 1;
    }
    assert forall|k: int| 0 <= k < num_threads implies #[trigger] reported(orig, k) by {
        assert(filled[k] == Some(out@[k]));
    }
    Some(out)
}

/// The run is valid exactly when every partition reported success.
pub fn aggregate_results(outcomes: &[bool]) -> (r: bool)
    ensures
        r == (forall|i: int| 0 <= i < outcomes@.len() ==> #[trigger] outcomes@[i]),
{
    let mut i: usize = 0;
    while i < outcomes.len()
        invariant
            i <= outcomes@.len(),
            forall|k: int| 0 <= k < i ==> #[trigger] outcomes@[k],
        decreases outcomes@.len() - i,
    {
        if !outcomes[i] {
            return false;
        }
        i = i + 1;
    }
    true
}

} // verus!
