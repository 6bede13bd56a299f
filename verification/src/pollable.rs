//! The external capability consumed by the registry.
//!
//! A pollable is an externally defined resource that is identifiable by a
//! stable numeric handle and whose readiness can be checked for a whole batch
//! at once. The batch check is the one blocking operation of the system: it
//! returns only once at least one member of the batch is ready.

use vstd::prelude::*;

verus! {

/// A resource identifiable by a stable numeric handle.
pub trait WasiPollable: Sized {
    /// The identifier naming this resource. It is stable: the executable
    /// [`WasiPollable::handle`] always returns it. An implementation that
    /// does no ghost bookkeeping may leave the default in place.
    open spec fn id(&self) -> u32 {
        arbitrary()
    }

    /// Returns the resource's identifier.
    fn handle(&self) -> (h: u32)
        ensures
            h == self.id(),
    ;
}

/// A resource whose readiness can be checked in a batch.
pub trait WasiPoll: WasiPollable {
    /// Blocks until at least one resource of the non-empty batch is ready,
    /// then reports the set of ready resources as positions into the batch.
    ///
    /// The positions are pairwise distinct, each one names a batch member,
    /// and at least one is reported; the call must not be made on an empty
    /// batch, since nothing could ever end its wait.
    fn poll(batch: &Vec<&Self>) -> (ready: Vec<u32>)
        requires
            batch@.len() > 0,
        ensures
            ready@.len() > 0,
            forall|i: int| 0 <= i < ready@.len() ==> (ready@[i] as int) < batch@.len(),
            forall|i: int, j: int| 0 <= i < j < ready@.len() ==> ready@[i] != ready@[j],
    ;
}

} // verus!
