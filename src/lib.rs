//! Checks that a block of fixed-size records is topologically ordered: every
//! record whose reference names another record of the block comes after it.
//! The block is split into contiguous partitions; each partition's index of
//! record identifiers is built on its own, and each partition is then
//! validated against the indexes of itself and the partitions before it.

use vstd::prelude::*;

pub mod codec;
pub mod partition;
pub mod index;
pub mod validate;
pub mod exchange;
pub mod pipeline;

verus! {

} // verus!
