//! What each side of a channel does to shared memory, and what follows for the channel as a whole.
//!
//! Each protocol is a pair of automata over the accesses that the two sides make, and a model of
//! the memory between them. An access takes effect at once, and the two sides' accesses interleave
//! in any way. The invariants hold after every access, and the laws are stated of every run.

pub mod handoff;
pub mod overwrite;
pub mod queue;
pub mod ring;
pub mod triple;

use vstd::prelude::*;

verus! {

/// `picked` are the values of `from` at the positions of `at`, which only go up: each value is
/// picked at most once, and in order.
pub open spec fn picks<T>(at: Seq<nat>, from: Seq<T>, picked: Seq<T>) -> bool {
    &&& at.len() == picked.len()
    &&& forall|i: int|
        0 <= i < at.len() ==> #[trigger] at[i] < from.len() && picked[i] == from[at[i] as int]
    &&& forall|i: int, j: int| 0 <= i < j < at.len() ==> #[trigger] at[i] < #[trigger] at[j]
}

} // verus!
