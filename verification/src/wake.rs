//! Resumption callbacks.
//!
//! A resumption callback is how a readiness round signals a suspended
//! computation that it may be re-attempted. The registry stores one callback
//! per registration and invokes it at most once, exactly when the awaited
//! resource becomes ready.

use vstd::prelude::*;

verus! {

/// A resumption callback for a suspended computation.
///
/// `wakes()` counts how often the callback has been invoked; every invocation
/// of [`Wake::wake`] increases it by exactly one. Contracts about a readiness
/// round are stated over this count: an entry's callback is invoked exactly
/// once when its resource becomes ready, and not at all when the entry is
/// cancelled.
pub trait Wake: Sized {
    /// How many times this callback has been invoked. An implementation
    /// with no ghost bookkeeping of its own may leave this default in
    /// place; the executable behaviour of `wake` is unaffected.
    open spec fn wakes(&self) -> nat {
        0
    }

    /// Invoke the callback once, signalling that the computation waiting
    /// behind it may be re-attempted.
    fn wake(&mut self)
        ensures
            final(self).wakes() == old(self).wakes() + 1,
    ;
}

/// A callback that performs no action when invoked.
///
/// The driver loop advances a computation directly, so being signalled is
/// redundant there: progress is paced by the readiness rounds themselves.
/// This callback satisfies the calling convention and nothing else.
pub struct NoopWaker {
    invocations: Ghost<nat>,
}

impl Wake for NoopWaker {
    closed spec fn wakes(&self) -> nat {
        self.invocations@
    }

    fn wake(&mut self) {
        let ghost n: nat = self.invocations@;
        self.invocations = Ghost(n + 1);
    }
}

/// Returns an inert resumption callback, never yet invoked.
pub fn noop_waker() -> (w: NoopWaker)
    ensures
        w.wakes() == 0,
{
    NoopWaker { invocations: Ghost(0) }
}

} // verus!
