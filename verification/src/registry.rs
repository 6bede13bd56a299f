//! The registry interface and the driver loop contract.
//!
//! A registry records which suspension points wait on which external
//! resources and drives readiness rounds. The driver loop, `block_on`,
//! alternates direct attempts to advance a computation with readiness
//! rounds, and reports [`Stalled`] when the computation is pending while
//! nothing is registered — the deadlock detector of the system.

use vstd::prelude::*;

use crate::wake::Wake;

verus! {

/// The outcome of one attempt to advance a suspend/resume computation.
pub enum Step<T> {
    /// The computation finished with this value.
    Ready(T),
    /// The computation suspended; it can only proceed after some resumption
    /// callback it registered has been invoked.
    Pending,
}

/// The terminal condition of the driver loop: the driven computation is
/// pending, yet no registration is left that an external event could wake.
/// Retrying cannot help; nothing would ever unblock the computation.
#[derive(Debug, PartialEq, Eq, Structural)]
pub struct Stalled;

impl Stalled {
    /// A human-readable description of the condition.
    pub fn message(&self) -> (s: &'static str)
        ensures
            s@ == "future stalled with no remaining pollables"@,
    {
        "future stalled with no remaining pollables"
    }
}

/// A registry of pending suspension points.
///
/// `pending()` is the number of registrations the registry currently holds;
/// `inv()` is its internal well-formedness. A registry is a logically
/// single-executor object: one driver loop owns it and drives both the
/// computation and the readiness rounds.
pub trait PollableRegistry: Sized {
    /// The external resource type awaited through this registry.
    type Pollable;

    /// The owning handle returned by registration. The caller keeps it alive
    /// for as long as the registration should stay live; dropping it before
    /// the resource is ready cancels the registration.
    type RegisteredPollable;

    /// The resumption callback type stored with each registration.
    type Waker: Wake;

    /// Internal well-formedness, established by construction and preserved
    /// by every operation.
    open spec fn inv(&self) -> bool {
        true
    }

    /// How many registrations the registry currently holds.
    open spec fn pending(&self) -> nat {
        0
    }

    /// Registers `pollable` to be watched; when it becomes ready, `waker`
    /// is invoked. Returns the owning handle for the registration.
    fn register_pollable(&mut self, waker: Self::Waker, pollable: Self::Pollable) -> (owned:
        Self::RegisteredPollable)
        requires
            old(self).inv(),
        ensures
            final(self).inv(),
    ;

    /// Drives one readiness round: purges cancelled registrations, and if
    /// any remain, waits for the external primitive and dispatches the
    /// resumption callbacks of everything that became ready.
    ///
    /// Returns `false` exactly when there was nothing to wait for; in that
    /// case the round was non-blocking and, if the registry was already
    /// empty, it was left untouched.
    fn poll(&mut self) -> (progress: bool)
        requires
            old(self).inv(),
        ensures
            final(self).inv(),
            !progress ==> final(self).pending() == 0,
            old(self).pending() == 0 ==> !progress && *final(self) == *old(self),
            progress ==> old(self).pending() > 0 && final(self).pending() < old(self).pending(),
    ;
}

/// The driver loop, available on every registry.
///
/// It stands apart from [`PollableRegistry`] only because its contract
/// speaks of the computations drivable by the registry; every registry
/// receives the one implementation below.
pub trait BlockOn: PollableRegistry {
    /// Runs `computation` to completion, driving readiness rounds whenever
    /// it suspends. Returns `Err(Stalled)` if the computation is pending
    /// while no registration is left to wait for.
    ///
    /// A value comes back exactly as the computation finishes with it: `Ok`
    /// carries the finished computation's outcome, and `Err(Stalled)` comes
    /// back only for a computation still unfinished when nothing was left
    /// to wait for. An already-complete computation yields its value with
    /// the registry untouched: no readiness round is driven for it. A
    /// computation that never registers anything and never completes stalls
    /// at once when the registry is empty, again leaving it untouched.
    fn block_on<C: Suspendable<Self>>(&mut self, computation: &mut C) -> (r: Result<
        C::Output,
        Stalled,
    >)
        requires
            old(self).inv(),
        ensures
            final(self).inv(),
            r matches Ok(v) ==> final(computation).complete() && v == final(computation).outcome(),
            r matches Err(_) ==> final(self).pending() == 0 && !final(computation).complete(),
            old(computation).complete() ==> r == Ok::<C::Output, Stalled>(
                old(computation).outcome(),
            ) && *final(self) == *old(self) && *final(computation) == *old(computation),
            old(computation).inert() && old(self).pending() == 0 ==> r == Err::<C::Output,
                Stalled,
            >(Stalled) && *final(self) == *old(self),
    ;
}

impl<R: PollableRegistry> BlockOn for R {
    fn block_on<C: Suspendable<R>>(&mut self, computation: &mut C) -> (r: Result<
        C::Output,
        Stalled,
    >) {
        loop
            invariant
                self.inv(),
                old(computation).complete() ==> *computation == *old(computation) && *self
                    == *old(self),
                old(computation).inert() && old(self).pending() == 0 ==> computation.inert()
                    && *self == *old(self),
            decreases computation.fuel(), self.pending(),
        {
            match computation.advance(self) {
                Step::Ready(value) => {
                    return Ok(value);
                },
                Step::Pending => {},
            }
            if !self.poll() {
                return Err(Stalled);
            }
        }
    }
}

/// A cooperative suspend/resume computation, drivable by a registry `R`.
///
/// The computation only makes progress when [`Suspendable::advance`] is
/// called; while advancing it may register resources with the registry it is
/// handed. `complete()` and `outcome()` describe its finished state;
/// `inert()` marks a computation that never registers anything and never
/// completes, the shape that the driver loop must report as stalled.
pub trait Suspendable<R: PollableRegistry>: Sized {
    /// The value the computation finishes with.
    type Output;

    /// Whether the computation has finished.
    open spec fn complete(&self) -> bool {
        false
    }

    /// The value of a finished computation.
    open spec fn outcome(&self) -> Self::Output {
        arbitrary()
    }

    /// Whether the computation registers nothing and never completes.
    open spec fn inert(&self) -> bool {
        false
    }

    /// A bound on the productive suspensions the computation has left. An
    /// attempt that suspends must either lower it or leave the registry no
    /// fuller than it found it; together with every readiness round removing
    /// at least one registration, this is what lets the driver loop
    /// terminate. The defaults of these four descriptions say nothing of a
    /// computation; an implementation overrides what it wants the driver
    /// loop's contract to know.
    open spec fn fuel(&self) -> nat {
        0
    }

    /// Attempt to advance the computation without blocking, registering any
    /// resources it newly awaits with `registry`.
    ///
    /// An already finished computation reports its value again and touches
    /// nothing. An inert computation stays inert, touches nothing, and is
    /// never ready.
    fn advance(&mut self, registry: &mut R) -> (step: Step<Self::Output>)
        requires
            old(registry).inv(),
        ensures
            final(registry).inv(),
            step matches Step::Ready(v) ==> final(self).complete() && v == final(self).outcome(),
            old(self).complete() ==> step == Step::Ready(old(self).outcome()) && *final(self)
                == *old(self) && *final(registry) == *old(registry),
            old(self).inert() ==> step == Step::Pending::<Self::Output> && final(self).inert()
                && *final(registry) == *old(registry),
            step matches Step::Pending ==> !final(self).complete(),
            step matches Step::Pending ==> final(self).fuel() < old(self).fuel() || (final(self).fuel() == old(self).fuel() && final(registry).pending() <= old(registry).pending()),
    ;
}

} // verus!
