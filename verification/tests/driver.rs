use std::cell::Cell;
use std::cell::RefCell;
use std::rc::Rc;

use wasi_poll::noop_waker;
use wasi_poll::BlockOn;
use wasi_poll::Poller;
use wasi_poll::Stalled;
use wasi_poll::Step;
use wasi_poll::Suspendable;
use wasi_poll::Wake;
use wasi_poll::WasiPoll;
use wasi_poll::WasiPollable;

struct Host {
    ready: RefCell<Vec<u32>>,
    checks: Cell<u32>,
}

impl Host {
    fn new() -> Rc<Host> {
        Rc::new(Host { ready: RefCell::new(Vec::new()), checks: Cell::new(0) })
    }
}

struct TestPollable {
    id: u32,
    host: Rc<Host>,
}

impl WasiPollable for TestPollable {
    fn handle(&self) -> u32 {
        self.id
    }
}

impl WasiPoll for TestPollable {
    fn poll(batch: &Vec<&Self>) -> Vec<u32> {
        let host = batch[0].host.clone();
        host.checks.set(host.checks.get() + 1);
        let ready = host.ready.borrow();
        let mut positions = Vec::new();
        for (i, p) in batch.iter().enumerate() {
            if ready.contains(&p.id) {
                positions.push(i as u32);
            }
        }
        assert!(!positions.is_empty(), "the batch check would block forever");
        positions
    }
}

#[derive(Clone)]
struct CountWaker {
    hits: Rc<Cell<u32>>,
}

impl CountWaker {
    fn new() -> CountWaker {
        CountWaker { hits: Rc::new(Cell::new(0)) }
    }
}

impl Wake for CountWaker {
    fn wake(&mut self) {
        self.hits.set(self.hits.get() + 1);
    }
}

type TestPoller = Poller<TestPollable, CountWaker>;

/// A computation that is complete from the start.
struct Done {
    value: u32,
}

impl Suspendable<TestPoller> for Done {
    type Output = u32;

    fn advance(&mut self, _registry: &mut TestPoller) -> Step<u32> {
        Step::Ready(self.value)
    }
}

/// A computation that registers nothing and never completes.
struct Inert {
    attempts: Rc<Cell<u32>>,
}

impl Suspendable<TestPoller> for Inert {
    type Output = u32;

    fn advance(&mut self, _registry: &mut TestPoller) -> Step<u32> {
        self.attempts.set(self.attempts.get() + 1);
        Step::Pending
    }
}

/// A computation that registers one resource on its first attempt, suspends,
/// and completes once it has been resumed.
struct WaitsOnce {
    host: Rc<Host>,
    handle: u32,
    waker: CountWaker,
    owned: Option<std::sync::Arc<TestPollable>>,
    started: bool,
}

impl Suspendable<TestPoller> for WaitsOnce {
    type Output = u32;

    fn advance(&mut self, registry: &mut TestPoller) -> Step<u32> {
        if !self.started {
            self.started = true;
            let pollable = TestPollable { id: self.handle, host: self.host.clone() };
            self.owned = Some(registry.register_pollable(self.waker.clone(), pollable));
            Step::Pending
        } else if self.waker.hits.get() > 0 {
            self.owned = None;
            Step::Ready(self.handle * 2)
        } else {
            Step::Pending
        }
    }
}

#[test]
fn complete_computation_returns_without_polling() {
    let host = Host::new();
    let mut poller = TestPoller::new();
    // a live registration that one readiness round would visibly dispatch
    let sentinel = CountWaker::new();
    let _owned = poller.register_pollable(
        sentinel.clone(),
        TestPollable { id: 9, host: host.clone() },
    );
    host.ready.borrow_mut().push(9);
    let mut computation = Done { value: 17 };
    let result = poller.block_on(&mut computation);
    assert_eq!(result, Ok(17));
    assert_eq!(poller.pending_count(), 1);
    assert_eq!(sentinel.hits.get(), 0);
    assert_eq!(host.checks.get(), 0);
}

#[test]
fn inert_computation_stalls_on_first_round() {
    let mut poller = TestPoller::new();
    let attempts = Rc::new(Cell::new(0));
    let mut computation = Inert { attempts: attempts.clone() };
    let result = poller.block_on(&mut computation);
    assert_eq!(result, Err(Stalled));
    assert_eq!(attempts.get(), 1);
    assert_eq!(poller.pending_count(), 0);
}

#[test]
fn driver_runs_suspended_computation_to_completion() {
    let host = Host::new();
    let mut poller = TestPoller::new();
    host.ready.borrow_mut().push(6);
    let waker = CountWaker::new();
    let mut computation = WaitsOnce {
        host: host.clone(),
        handle: 6,
        waker: waker.clone(),
        owned: None,
        started: false,
    };
    let result = poller.block_on(&mut computation);
    assert_eq!(result, Ok(12));
    assert!(computation.started);
    assert!(computation.owned.is_none());
    assert_eq!(waker.hits.get(), 1);
    assert_eq!(host.checks.get(), 1);
    assert_eq!(poller.pending_count(), 0);
}

#[test]
fn stalled_message_names_the_condition() {
    assert_eq!(Stalled.message(), "future stalled with no remaining pollables");
}

#[test]
fn noop_waker_is_inert() {
    let mut waker = noop_waker();
    waker.wake();
    waker.wake();
}
