//! A bridge between cooperative suspend/resume computations and an external
//! readiness-multiplexing primitive.
//!
//! The library keeps a registry of pending suspension points, each waiting on
//! an externally identified resource. One readiness round purges cancelled
//! registrations, asks the external primitive which resources are ready, and
//! invokes the resumption callbacks of exactly the ready ones. A driver loop
//! alternates attempts to advance a computation with readiness rounds, and
//! reports a stall when the computation is pending but nothing is registered.

pub mod pollable;
pub mod poller;
pub mod registry;
pub mod wake;

pub use pollable::WasiPoll;
pub use pollable::WasiPollable;
pub use poller::Poller;
pub use registry::BlockOn;
pub use registry::PollableRegistry;
pub use registry::Stalled;
pub use registry::Step;
pub use registry::Suspendable;
pub use wake::noop_waker;
pub use wake::NoopWaker;
pub use wake::Wake;
