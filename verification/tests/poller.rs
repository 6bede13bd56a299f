use std::cell::Cell;
use std::cell::RefCell;
use std::rc::Rc;

use wasi_poll::Poller;
use wasi_poll::Wake;
use wasi_poll::WasiPoll;
use wasi_poll::WasiPollable;

/// What the simulated external primitive reports: which handles are ready,
/// and whether the batch check was invoked at all.
struct Host {
    ready: RefCell<Vec<u32>>,
    checks: Cell<u32>,
}

impl Host {
    fn new() -> Rc<Host> {
        Rc::new(Host { ready: RefCell::new(Vec::new()), checks: Cell::new(0) })
    }

    fn mark_ready(&self, handle: u32) {
        self.ready.borrow_mut().push(handle);
    }
}

struct TestPollable {
    id: u32,
    host: Rc<Host>,
}

impl WasiPollable for TestPollable {
    fn handle(&self) -> u32 {
        self.id
    }
}

impl WasiPoll for TestPollable {
    fn poll(batch: &Vec<&Self>) -> Vec<u32> {
        let host = batch[0].host.clone();
        host.checks.set(host.checks.get() + 1);
        let ready = host.ready.borrow();
        let mut positions = Vec::new();
        for (i, p) in batch.iter().enumerate() {
            if ready.contains(&p.id) {
                positions.push(i as u32);
            }
        }
        assert!(!positions.is_empty(), "the batch check would block forever");
        positions
    }
}

#[derive(Clone)]
struct CountWaker {
    hits: Rc<Cell<u32>>,
}

impl CountWaker {
    fn new() -> CountWaker {
        CountWaker { hits: Rc::new(Cell::new(0)) }
    }
}

impl Wake for CountWaker {
    fn wake(&mut self) {
        self.hits.set(self.hits.get() + 1);
    }
}

fn pollable(host: &Rc<Host>, id: u32) -> TestPollable {
    TestPollable { id, host: host.clone() }
}

#[test]
fn ready_entries_are_dispatched_exactly() {
    let host = Host::new();
    let mut poller: Poller<TestPollable, CountWaker> = Poller::new();
    let c1 = CountWaker::new();
    let c2 = CountWaker::new();
    let c3 = CountWaker::new();
    let _o1 = poller.register_pollable(c1.clone(), pollable(&host, 1));
    let _o2 = poller.register_pollable(c2.clone(), pollable(&host, 2));
    let _o3 = poller.register_pollable(c3.clone(), pollable(&host, 3));
    assert_eq!(poller.pending_count(), 3);
    host.mark_ready(1);
    host.mark_ready(3);
    assert!(poller.poll());
    assert_eq!(poller.pending_count(), 1);
    assert_eq!(poller.pending_handles(), vec![2]);
    assert_eq!(c1.hits.get(), 1);
    assert_eq!(c2.hits.get(), 0);
    assert_eq!(c3.hits.get(), 1);
    assert_eq!(host.checks.get(), 1);
}

#[test]
fn empty_registry_polls_false_without_external_check() {
    let mut poller: Poller<TestPollable, CountWaker> = Poller::new();
    assert!(!poller.poll());
    assert_eq!(poller.pending_count(), 0);
}

#[test]
fn dropped_owner_is_purged_without_waking() {
    let host = Host::new();
    let mut poller: Poller<TestPollable, CountWaker> = Poller::new();
    let c1 = CountWaker::new();
    let c2 = CountWaker::new();
    let o1 = poller.register_pollable(c1.clone(), pollable(&host, 7));
    let _o2 = poller.register_pollable(c2.clone(), pollable(&host, 8));
    drop(o1);
    host.mark_ready(8);
    assert!(poller.poll());
    assert_eq!(c1.hits.get(), 0);
    assert_eq!(c2.hits.get(), 1);
    assert_eq!(poller.pending_count(), 0);
}

#[test]
fn sole_dropped_owner_makes_poll_false() {
    let host = Host::new();
    let mut poller: Poller<TestPollable, CountWaker> = Poller::new();
    let c1 = CountWaker::new();
    let o1 = poller.register_pollable(c1.clone(), pollable(&host, 5));
    drop(o1);
    assert!(!poller.poll());
    assert_eq!(c1.hits.get(), 0);
    assert_eq!(host.checks.get(), 0);
}

#[test]
fn two_resources_one_ready() {
    let host = Host::new();
    let mut poller: Poller<TestPollable, CountWaker> = Poller::new();
    let c1 = CountWaker::new();
    let c2 = CountWaker::new();
    let _o1 = poller.register_pollable(c1.clone(), pollable(&host, 10));
    let _o2 = poller.register_pollable(c2.clone(), pollable(&host, 20));
    host.mark_ready(10);
    assert!(poller.poll());
    assert_eq!(poller.pending_handles(), vec![20]);
    assert_eq!(c1.hits.get(), 1);
    assert_eq!(c2.hits.get(), 0);
}

#[test]
fn duplicate_handle_displaces_earlier_registration() {
    let host = Host::new();
    let mut poller: Poller<TestPollable, CountWaker> = Poller::new();
    let c1 = CountWaker::new();
    let c2 = CountWaker::new();
    let _o1 = poller.register_pollable(c1.clone(), pollable(&host, 4));
    let _o2 = poller.register_pollable(c2.clone(), pollable(&host, 4));
    assert_eq!(poller.pending_count(), 1);
    host.mark_ready(4);
    assert!(poller.poll());
    assert_eq!(c1.hits.get(), 0);
    assert_eq!(c2.hits.get(), 1);
}

#[test]
fn registration_keeps_table_order() {
    let host = Host::new();
    let mut poller: Poller<TestPollable, CountWaker> = Poller::new();
    for id in [3, 1, 2] {
        let _owned = poller.register_pollable(CountWaker::new(), pollable(&host, id));
        // the owner is dropped at once; the entry lingers until the next round
    }
    assert_eq!(poller.pending_handles(), vec![3, 1, 2]);
    assert!(!poller.poll());
    assert_eq!(poller.pending_count(), 0);
}

#[test]
fn purge_keeps_live_entries_and_collects_their_owners() {
    let host = Host::new();
    let mut poller: Poller<TestPollable, CountWaker> = Poller::new();
    let c1 = CountWaker::new();
    let c2 = CountWaker::new();
    let o1 = poller.register_pollable(c1.clone(), pollable(&host, 11));
    let _o2 = poller.register_pollable(c2.clone(), pollable(&host, 12));
    drop(o1);
    let batch = poller.purge();
    assert_eq!(batch.len(), 1);
    assert_eq!(batch[0].id, 12);
    assert_eq!(poller.pending_handles(), vec![12]);
    assert_eq!(c1.hits.get(), 0);
    assert_eq!(c2.hits.get(), 0);
}
