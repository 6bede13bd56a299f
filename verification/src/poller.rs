//! The registry implementation.
//!
//! A [`Poller`] keeps one entry per outstanding suspension point: the awaited
//! resource's handle, a non-owning reference to the resource, and the
//! resumption callback to invoke when the resource becomes ready. The owning
//! reference is returned to the caller at registration; the registry never
//! extends a resource's lifetime, and a registration whose owner has been
//! dropped is purged, silently, at the start of the next readiness round.

use std::sync::Arc;
use std::sync::Weak;
use vstd::prelude::*;

use crate::pollable::WasiPoll;
use crate::pollable::WasiPollable;
use crate::registry::PollableRegistry;
use crate::wake::Wake;

verus! {

/// The elements of `s` whose position is marked `true` in `marks`, in order.
pub open spec fn keep_marked<T>(s: Seq<T>, marks: Seq<bool>) -> Seq<T>
    recommends
        marks.len() == s.len(),
    decreases s.len(),
{
    if s.len() == 0 {
        Seq::empty()
    } else {
        let rest = keep_marked(s.drop_last(), marks.drop_last());
        if marks.len() == s.len() && marks.last() {
            rest.push(s.last())
        } else {
            rest
        }
    }
}

/// The elements of `s` whose position is marked `false` in `marks`, in order.
pub open spec fn drop_marked<T>(s: Seq<T>, marks: Seq<bool>) -> Seq<T>
    recommends
        marks.len() == s.len(),
    decreases s.len(),
{
    if s.len() == 0 {
        Seq::empty()
    } else {
        let rest = drop_marked(s.drop_last(), marks.drop_last());
        if marks.len() == s.len() && !marks.last() {
            rest.push(s.last())
        } else {
            rest
        }
    }
}

/// The table without its registration under handle `h`, other entries left
/// in order.
pub open spec fn remove_handle<W>(s: Seq<(u32, W)>, h: u32) -> Seq<(u32, W)>
    decreases s.len(),
{
    if s.len() == 0 {
        Seq::empty()
    } else if s.last().0 == h {
        remove_handle(s.drop_last(), h)
    } else {
        remove_handle(s.drop_last(), h).push(s.last())
    }
}

/// The mask over `n` table positions that is `true` exactly at the positions
/// listed in `ready`.
pub open spec fn ready_mask(n: nat, ready: Seq<u32>) -> Seq<bool> {
    Seq::new(n, |i: int| ready.contains(i as u32))
}

/// The handles of the pairs of `s`, in order.
pub open spec fn handles_of<W>(s: Seq<(u32, W)>) -> Seq<u32> {
    s.map_values(|p: (u32, W)| p.0)
}

/// The invocation record `after` extends `before` by exactly the entries of
/// `sel`, in order, each callback invoked exactly once more than it had been
/// when it stood in the table.
pub open spec fn extends_invoked<W: Wake>(
    before: Seq<(u32, W)>,
    after: Seq<(u32, W)>,
    sel: Seq<(u32, W)>,
) -> bool {
    &&& after.len() == before.len() + sel.len()
    &&& after.subrange(0, before.len() as int) == before
    &&& forall|j: int|
        0 <= j < sel.len() ==> (#[trigger] after[before.len() + j]).0 == sel[j].0 && after[
            before.len() + j
        ].1.wakes() == sel[j].1.wakes() + 1
}

/// No handle occurs twice among the pairs of `s`.
pub open spec fn distinct_handles<W>(s: Seq<(u32, W)>) -> bool {
    forall|i: int, j: int| 0 <= i < j < s.len() ==> (#[trigger] s[i]).0 != (#[trigger] s[j]).0
}

proof fn lemma_keep_marked_push<T>(s: Seq<T>, marks: Seq<bool>, e: T, b: bool)
    requires
        marks.len() == s.len(),
    ensures
        keep_marked(s.push(e), marks.push(b)) == if b {
            keep_marked(s, marks).push(e)
        } else {
            keep_marked(s, marks)
        },
{
    assert(s.push(e).drop_last() =~= s);
    assert(marks.push(b).drop_last() =~= marks);
}

proof fn lemma_drop_marked_push<T>(s: Seq<T>, marks: Seq<bool>, e: T, b: bool)
    requires
        marks.len() == s.len(),
    ensures
        drop_marked(s.push(e), marks.push(b)) == if !b {
            drop_marked(s, marks).push(e)
        } else {
            drop_marked(s, marks)
        },
{
    assert(s.push(e).drop_last() =~= s);
    assert(marks.push(b).drop_last() =~= marks);
}

/// Law: a marked selection never grows a sequence.
pub proof fn lemma_keep_marked_len<T>(s: Seq<T>, marks: Seq<bool>)
    ensures
        keep_marked(s, marks).len() <= s.len(),
        drop_marked(s, marks).len() <= s.len(),
    decreases s.len(),
{
    if s.len() > 0 {
        lemma_keep_marked_len(s.drop_last(), marks.drop_last());
    }
}

/// Law: the marked and the unmarked elements together are exactly the
/// sequence — a readiness round that removes the `k` ready entries leaves
/// precisely the other `n - k` in place.
pub proof fn lemma_marked_split<T>(s: Seq<T>, marks: Seq<bool>)
    requires
        marks.len() == s.len(),
    ensures
        keep_marked(s, marks).len() + drop_marked(s, marks).len() == s.len(),
    decreases s.len(),
{
    if s.len() > 0 {
        lemma_marked_split(s.drop_last(), marks.drop_last());
    }
}

proof fn lemma_keep_marked_nonempty<T>(s: Seq<T>, marks: Seq<bool>, i: int)
    requires
        marks.len() == s.len(),
        0 <= i < s.len(),
        marks[i],
    ensures
        keep_marked(s, marks).len() > 0,
    decreases s.len(),
{
    if i < s.len() - 1 {
        lemma_keep_marked_nonempty(s.drop_last(), marks.drop_last(), i);
    }
}

proof fn lemma_keep_marked_none<T>(s: Seq<T>, marks: Seq<bool>)
    requires
        marks.len() == s.len(),
        forall|i: int| 0 <= i < marks.len() ==> !marks[i],
    ensures
        keep_marked(s, marks).len() == 0,
    decreases s.len(),
{
    if s.len() > 0 {
        assert(!marks[s.len() - 1]);
        lemma_keep_marked_none(s.drop_last(), marks.drop_last());
    }
}

proof fn lemma_keep_marked_flip_one<T>(s: Seq<T>, m1: Seq<bool>, m2: Seq<bool>, p: int)
    requires
        m1.len() == s.len(),
        m2.len() == s.len(),
        0 <= p < s.len(),
        m1[p],
        !m2[p],
        forall|i: int| 0 <= i < s.len() && i != p ==> m1[i] == m2[i],
    ensures
        keep_marked(s, m1).len() == keep_marked(s, m2).len() + 1,
    decreases s.len(),
{
    if p == s.len() - 1 {
        assert(m1.drop_last() =~= m2.drop_last());
    } else {
        assert(m1[s.len() - 1] == m2[s.len() - 1]);
        lemma_keep_marked_flip_one(s.drop_last(), m1.drop_last(), m2.drop_last(), p);
    }
}

/// Law: when the reported-ready positions are pairwise distinct and in
/// range — as the external readiness contract promises — the mask they
/// induce selects exactly one table entry per reported position: a round
/// that dispatches them removes exactly `ready.len()` entries and invokes
/// exactly `ready.len()` callbacks.
pub proof fn lemma_ready_mask_count<T>(s: Seq<T>, ready: Seq<u32>)
    requires
        s.len() <= u32::MAX,
        forall|i: int| 0 <= i < ready.len() ==> (ready[i] as int) < s.len(),
        forall|i: int, j: int| 0 <= i < j < ready.len() ==> ready[i] != ready[j],
    ensures
        keep_marked(s, ready_mask(s.len(), ready)).len() == ready.len(),
    decreases ready.len(),
{
    let n = s.len();
    if ready.len() == 0 {
        assert forall|i: int| 0 <= i < n implies !ready_mask(n, ready)[i] by {
            if ready.contains(i as u32) {
                let j = choose|j: int| 0 <= j < ready.len() && ready[j] == i as u32;
            }
        }
        lemma_keep_marked_none(s, ready_mask(n, ready));
    } else {
        let rest = ready.drop_last();
        let x = ready.last();
        assert(forall|i: int, j: int| 0 <= i < j < rest.len() ==> rest[i] != rest[j]);
        lemma_ready_mask_count(s, rest);
        let m1 = ready_mask(n, ready);
        let m2 = ready_mask(n, rest);
        assert(m1[x as int]) by {
            assert(ready[ready.len() - 1] == x);
        }
        assert(!m2[x as int]) by {
            if rest.contains(x) {
                let j = choose|j: int| 0 <= j < rest.len() && rest[j] == x;
                assert(ready[j] == ready[ready.len() - 1]);
            }
        }
        assert forall|i: int| 0 <= i < n && i != x as int implies m1[i] == m2[i] by {
            if ready.contains(i as u32) {
                let j = choose|j: int| 0 <= j < ready.len() && ready[j] == i as u32;
                assert(j != ready.len() - 1) by {
                    if j == ready.len() - 1 {
                        assert(i as u32 == x);
                    }
                }
                assert(rest[j] == i as u32);
            }
            if rest.contains(i as u32) {
                let j = choose|j: int| 0 <= j < rest.len() && rest[j] == i as u32;
                assert(ready[j] == i as u32);
            }
        }
        lemma_keep_marked_flip_one(s, m1, m2, x as int);
    }
}

proof fn lemma_marked_distinct<W>(s: Seq<(u32, W)>, marks: Seq<bool>)
    requires
        marks.len() == s.len(),
        distinct_handles(s),
    ensures
        distinct_handles(keep_marked(s, marks)),
        distinct_handles(drop_marked(s, marks)),
        forall|h: u32| has_handle(keep_marked(s, marks), h) ==> has_handle(s, h),
        forall|h: u32| has_handle(drop_marked(s, marks), h) ==> has_handle(s, h),
    decreases s.len(),
{
    if s.len() > 0 {
        let s0 = s.drop_last();
        let m0 = marks.drop_last();
        assert(distinct_handles(s0));
        lemma_marked_distinct(s0, m0);
        assert forall|h: u32| has_handle(s0, h) implies has_handle(s, h) by {
            let i = choose|i: int| 0 <= i < s0.len() && s0[i].0 == h;
            assert(s[i].0 == h);
        }
        assert(forall|i: int| 0 <= i < s0.len() ==> (#[trigger] s0[i]).0 != s.last().0);
        assert forall|h: u32| has_handle(keep_marked(s, marks), h) implies has_handle(s, h) by {
            let k = keep_marked(s, marks);
            let i = choose|i: int| 0 <= i < k.len() && k[i].0 == h;
            if marks.len() == s.len() && marks.last() && i == k.len() - 1 {
                assert(s.last().0 == h);
                assert(s[s.len() - 1].0 == h);
            } else {
                assert(has_handle(keep_marked(s0, m0), h));
            }
        }
        assert forall|h: u32| has_handle(drop_marked(s, marks), h) implies has_handle(s, h) by {
            let k = drop_marked(s, marks);
            let i = choose|i: int| 0 <= i < k.len() && k[i].0 == h;
            if marks.len() == s.len() && !marks.last() && i == k.len() - 1 {
                assert(s[s.len() - 1].0 == h);
            } else {
                assert(has_handle(drop_marked(s0, m0), h));
            }
        }
        assert forall|i: int, j: int|
            0 <= i < j < keep_marked(s, marks).len() implies (#[trigger] keep_marked(s, marks)[i]).0
            != (#[trigger] keep_marked(s, marks)[j]).0 by {
            let k = keep_marked(s, marks);
            if marks.len() == s.len() && marks.last() && j == k.len() - 1 {
                assert(k[i] == keep_marked(s0, m0)[i]);
                assert(has_handle(s0, k[i].0));
                let p = choose|p: int| 0 <= p < s0.len() && s0[p].0 == k[i].0;
                assert(s[p].0 != s.last().0);
            } else {
                assert(k[i] == keep_marked(s0, m0)[i]);
                assert(k[j] == keep_marked(s0, m0)[j]);
            }
        }
        assert forall|i: int, j: int|
            0 <= i < j < drop_marked(s, marks).len() implies (#[trigger] drop_marked(s, marks)[i]).0
            != (#[trigger] drop_marked(s, marks)[j]).0 by {
            let k = drop_marked(s, marks);
            if marks.len() == s.len() && !marks.last() && j == k.len() - 1 {
                assert(k[i] == drop_marked(s0, m0)[i]);
                assert(has_handle(s0, k[i].0));
                let p = choose|p: int| 0 <= p < s0.len() && s0[p].0 == k[i].0;
                assert(s[p].0 != s.last().0);
            } else {
                assert(k[i] == drop_marked(s0, m0)[i]);
                assert(k[j] == drop_marked(s0, m0)[j]);
            }
        }
    }
}

/// Some pair of `s` carries handle `h`.
pub open spec fn has_handle<W>(s: Seq<(u32, W)>, h: u32) -> bool {
    exists|i: int| 0 <= i < s.len() && (#[trigger] s[i]).0 == h
}

proof fn lemma_remove_handle_absent<W>(s: Seq<(u32, W)>, h: u32)
    requires
        !has_handle(s, h),
    ensures
        remove_handle(s, h) == s,
    decreases s.len(),
{
    if s.len() > 0 {
        assert(s[s.len() - 1].0 != h);
        assert(!has_handle(s.drop_last(), h)) by {
            if has_handle(s.drop_last(), h) {
                let i = choose|i: int| 0 <= i < s.len() - 1 && s.drop_last()[i].0 == h;
                assert(s[i].0 == h);
            }
        }
        lemma_remove_handle_absent(s.drop_last(), h);
        assert(remove_handle(s, h) =~= s);
    } else {
        assert(remove_handle(s, h) =~= s);
    }
}

proof fn lemma_remove_handle_found<W>(s: Seq<(u32, W)>, h: u32, at: int)
    requires
        distinct_handles(s),
        0 <= at < s.len(),
        s[at].0 == h,
    ensures
        remove_handle(s, h) == s.remove(at),
    decreases s.len(),
{
    if at == s.len() - 1 {
        assert(!has_handle(s.drop_last(), h)) by {
            if has_handle(s.drop_last(), h) {
                let i = choose|i: int| 0 <= i < s.len() - 1 && s.drop_last()[i].0 == h;
                assert(s[i].0 == h);
            }
        }
        lemma_remove_handle_absent(s.drop_last(), h);
        assert(remove_handle(s, h) =~= s.remove(at));
    } else {
        assert(s.last().0 != h);
        assert(s.drop_last()[at].0 == h);
        assert(distinct_handles(s.drop_last()));
        lemma_remove_handle_found(s.drop_last(), h, at);
        assert(remove_handle(s, h) =~= s.remove(at));
    }
}

/// No position of `remove_handle(s, h)` carries handle `h`.
proof fn lemma_remove_handle_free<W>(s: Seq<(u32, W)>, h: u32, i: int)
    requires
        0 <= i < remove_handle(s, h).len(),
    ensures
        remove_handle(s, h)[i].0 != h,
    decreases s.len(),
{
    if s.len() > 0 {
        if s.last().0 == h {
            lemma_remove_handle_free(s.drop_last(), h, i);
        } else {
            if i < remove_handle(s, h).len() - 1 {
                lemma_remove_handle_free(s.drop_last(), h, i);
            }
        }
    }
}

/// Two equal suffixes agree pointwise.
proof fn lemma_suffix_eq<T>(a: Seq<T>, b: Seq<T>, i: int, k: int)
    requires
        0 <= i <= a.len(),
        0 <= k <= b.len(),
        a.subrange(i, a.len() as int) == b.subrange(k, b.len() as int),
    ensures
        a.len() - i == b.len() - k,
        forall|x: int| i <= x < a.len() ==> (#[trigger] a[x]) == b[k + x - i],
{
    assert(a.subrange(i, a.len() as int).len() == a.len() - i);
    assert(b.subrange(k, b.len() as int).len() == b.len() - k);
    assert forall|x: int| i <= x < a.len() implies (#[trigger] a[x]) == b[k + x - i] by {
        assert(a.subrange(i, a.len() as int)[x - i] == a[x]);
        assert(b.subrange(k, b.len() as int)[x - i] == b[k + x - i]);
        assert(a.subrange(i, a.len() as int)[x - i] == b.subrange(k, b.len() as int)[x - i]);
    }
}

/// Whether `v` holds `x`.
fn vec_contains_u32(v: &Vec<u32>, x: u32) -> (b: bool)
    ensures
        b == v@.contains(x),
{
    let mut i: usize = 0;
    while i < v.len()
        invariant
            i <= v@.len(),
            forall|j: int| 0 <= j < i ==> v@[j] != x,
        decreases v@.len() - i,
    {
        if v[i] == x {
            assert(v@[i as int] == x);
            return true;
        }
        i += 1;
    }
    false
}

/// The mask over `n` table positions that [`ready_mask`] describes: `true`
/// exactly at the positions listed in `ready`.
fn mask_of_ready(n: usize, ready: &Vec<u32>) -> (m: Vec<bool>)
    ensures
        m@ == ready_mask(n as nat, ready@),
{
    let mut m: Vec<bool> = Vec::new();
    let mut i: usize = 0;
    while i < n
        invariant
            i <= n,
            m@ == ready_mask(i as nat, ready@),
        decreases n - i,
    {
        let hit = vec_contains_u32(ready, i as u32);
        m.push(hit);
        proof {
            assert(ready_mask((i + 1) as nat, ready@) =~= ready_mask(i as nat, ready@).push(
                ready@.contains(i as u32),
            ));
        }
        i += 1;
    }
    m
}

/// The opaque holder of a std weak reference; the verifier sees nothing
/// inside it.
#[verifier::external_body]
#[verifier::reject_recursive_types(P)]
struct WeakCell<P> {
    inner: Weak<P>,
}

/// A non-owning reference to a registered resource, together with a ghost
/// copy of that resource's handle, recorded when the reference is made.
///
/// It can be turned back into an owning reference only while the owning
/// handle returned by registration is still alive; afterwards the attempt
/// fails, which is how cancellation is observed. Constructed only by
/// [`weak_from`], so `target_id` is always the handle of the resource the
/// cell points to — [`try_upgrade`]'s contract rests on that.
#[verifier::reject_recursive_types(P)]
struct WeakRef<P> {
    cell: WeakCell<P>,
    target_id: Ghost<u32>,
}

/// Relies on std's `Arc::downgrade`: the result is a non-owning reference to
/// the same allocation as `owner`.
#[verifier::external_body]
fn downgrade_cell<P>(owner: &Arc<P>) -> (c: WeakCell<P>) {
    WeakCell { inner: Arc::downgrade(owner) }
}

/// A non-owning reference to `owner`'s resource, remembering its handle.
fn weak_from<P: WasiPollable>(owner: &Arc<P>) -> (w: WeakRef<P>)
    ensures
        w.target_id@ == (**owner).id(),
{
    let cell = downgrade_cell(owner);
    WeakRef { cell, target_id: Ghost((**owner).id()) }
}

/// Relies on std's `Weak::upgrade`: the result is `Some` only while at least
/// one owning reference to the allocation is still alive, and it is then an
/// owning reference to the very resource the weak reference was made from —
/// the one whose handle `target_id` recorded at construction. Whether `Some`
/// or `None` comes back depends on what the rest of the program has dropped,
/// so nothing is promised about which.
#[verifier::external_body]
fn try_upgrade<P: WasiPollable>(w: &WeakRef<P>) -> (r: Option<Arc<P>>)
    ensures
        r matches Some(a) ==> (*a).id() == w.target_id@,
{
    w.cell.inner.upgrade()
}

/// A registry of pending suspension points, keyed by resource handle.
///
/// Logically it is the table `self@`: a sequence of (handle, callback)
/// pairs, one per outstanding registration, with pairwise distinct handles.
/// It is created once per driver loop and owned by it; registration and
/// readiness rounds take it exclusively, so one round at a time runs.
#[verifier::reject_recursive_types(P)]
pub struct Poller<P: WasiPoll, W: Wake> {
    entries: Vec<(u32, W)>,
    resources: Vec<WeakRef<P>>,
    invocations: Ghost<Seq<(u32, W)>>,
    checks: Ghost<Seq<Seq<u32>>>,
}

impl<P: WasiPoll, W: Wake> Poller<P, W> {
    /// The registration table: one (handle, callback) pair per entry, in
    /// table order.
    pub closed spec fn view(&self) -> Seq<(u32, W)> {
        self.entries@
    }

    /// The record of every resumption callback the registry has invoked, in
    /// invocation order: the entry's handle and the callback just after its
    /// one invocation. Readiness rounds append to it; nothing else touches
    /// it, so a purge leaves it exactly as it was.
    pub closed spec fn invoked(&self) -> Seq<(u32, W)> {
        self.invocations@
    }

    /// The record of every batch handed to the external readiness check, in
    /// call order, each batch as the handles of the resources it carried, in
    /// batch order.
    pub closed spec fn checked(&self) -> Seq<Seq<u32>> {
        self.checks@
    }

    /// The handle each entry's stored non-owning resource reference points
    /// at, in table order.
    pub closed spec fn resource_ids(&self) -> Seq<u32> {
        self.resources@.map_values(|r: WeakRef<P>| r.target_id@)
    }

    /// Well-formedness: a handle appears at most once in the table, and
    /// each entry's non-owning resource reference points at the resource
    /// bearing that entry's handle.
    pub closed spec fn wf(&self) -> bool {
        &&& distinct_handles(self.entries@)
        &&& self.resources@.len() == self.entries@.len()
        &&& forall|i: int|
            0 <= i < self.entries@.len() ==> (#[trigger] self.resources@[i]).target_id@
                == self.entries@[i].0
    }

    /// Well-formedness seen from outside: no two registrations share a
    /// handle, and each entry's stored resource reference targets the
    /// resource with that entry's handle.
    pub proof fn lemma_wf_distinct(&self)
        requires
            self.wf(),
        ensures
            distinct_handles(self@),
            self.resource_ids().len() == self@.len(),
            forall|i: int| 0 <= i < self@.len() ==> self.resource_ids()[i] == (
            #[trigger] self@[i]).0,
    {
    }

    /// An empty registry.
    pub fn new() -> (r: Self)
        ensures
            r@ == Seq::<(u32, W)>::empty(),
            r.invoked() == Seq::<(u32, W)>::empty(),
            r.checked() == Seq::<Seq<u32>>::empty(),
            r.wf(),
    {
        let r = Poller {
            entries: Vec::new(),
            resources: Vec::new(),
            invocations: Ghost(Seq::empty()),
            checks: Ghost(Seq::empty()),
        };
        proof {
            assert(r@ =~= Seq::<(u32, W)>::empty());
        }
        r
    }

    /// The index of the registration under handle `h`, if any.
    fn find_handle(&self, h: u32) -> (r: Option<usize>)
        ensures
            match r {
                Some(i) => i < self@.len() && self@[i as int].0 == h,
                None => !has_handle(self@, h),
            },
    {
        let n = self.entries.len();
        let mut i: usize = 0;
        while i < n
            invariant
                i <= n,
                n == self@.len(),
                forall|j: int| 0 <= j < i ==> (#[trigger] self@[j]).0 != h,
            decreases n - i,
        {
            if self.entries[i].0 == h {
                return Some(i);
            }
            i += 1;
        }
        None
    }

    /// Registers `pollable` to be watched under `waker`.
    ///
    /// The new registration is appended under the resource's handle; an
    /// earlier registration under the same handle is displaced, its callback
    /// silently discarded. The stored non-owning reference points at the
    /// very resource the returned owning reference carries (`wf`, through
    /// [`Poller::resource_ids`], ties it to the entry's handle). No callback
    /// is invoked and no external check made. The returned owning reference
    /// controls the registration's life: dropping it before the resource is
    /// ready cancels the registration at the start of the next readiness
    /// round.
    pub fn register_pollable(&mut self, waker: W, pollable: P) -> (owned: Arc<P>)
        requires
            old(self).wf(),
        ensures
            final(self).wf(),
            final(self)@ == remove_handle(old(self)@, pollable.id()).push(
                (pollable.id(), waker),
            ),
            *owned == pollable,
            final(self).invoked() == old(self).invoked(),
            final(self).checked() == old(self).checked(),
    {
        let h = pollable.handle();
        let owned = Arc::new(pollable);
        let resource = weak_from(&owned);
        match self.find_handle(h) {
            Some(i) => {
                self.entries.remove(i);
                self.resources.remove(i);
                proof {
                    lemma_remove_handle_found(old(self)@, h, i as int);
                    assert forall|a: int, b: int|
                        0 <= a < b < self@.len() implies (#[trigger] self@[a]).0 != (
                    #[trigger] self@[b]).0 by {
                        assert(self@[a] == if a < i { old(self)@[a] } else { old(self)@[a + 1] });
                        assert(self@[b] == if b < i { old(self)@[b] } else { old(self)@[b + 1] });
                    }
                    assert forall|x: int|
                        0 <= x < self.entries@.len() implies (#[trigger] self.resources@[x]).target_id@
                        == self.entries@[x].0 by {
                        assert(self.entries@[x] == if x < i {
                            old(self).entries@[x]
                        } else {
                            old(self).entries@[x + 1]
                        });
                        assert(self.resources@[x] == if x < i {
                            old(self).resources@[x]
                        } else {
                            old(self).resources@[x + 1]
                        });
                    }
                }
            },
            None => {
                proof {
                    lemma_remove_handle_absent(old(self)@, h);
                }
            },
        }
        proof {
            assert(self@ == remove_handle(old(self)@, h));
        }
        let ghost mid = self@;
        self.entries.push((h, waker));
        self.resources.push(resource);
        proof {
            assert(!has_handle(mid, h)) by {
                if has_handle(mid, h) {
                    let i = choose|i: int| 0 <= i < mid.len() && mid[i].0 == h;
                    lemma_remove_handle_free(old(self)@, h, i);
                }
            }
            assert forall|a: int, b: int|
                0 <= a < b < self@.len() implies (#[trigger] self@[a]).0 != (
            #[trigger] self@[b]).0 by {
                if b == self@.len() - 1 {
                    assert(mid[a].0 != h);
                }
            }
            assert((*owned).id() == h);
        }
        owned
    }

    /// One purge pass: removes every registration whose owning reference has
    /// been dropped, and turns each surviving registration's non-owning
    /// reference into a temporary owning one, in table order.
    ///
    /// No resumption callback is invoked — the invocation record is left
    /// exactly as it was — and no external check is made: the surviving
    /// entries are exactly a marked selection of the old table, each left
    /// untouched, callback included, and the cancelled ones are simply
    /// gone, their callbacks discarded rather than invoked. The returned
    /// batch carries, in table order, one owning reference per surviving
    /// entry, each to the resource bearing that entry's handle. A table
    /// that was empty is left entirely alone.
    pub fn purge(&mut self) -> (batch: Vec<Arc<P>>)
        requires
            old(self).wf(),
        ensures
            final(self).wf(),
            batch@.len() == final(self)@.len(),
            forall|i: int|
                0 <= i < batch@.len() ==> (*(#[trigger] batch@[i])).id() == final(self)@[i].0,
            exists|marks: Seq<bool>|
                marks.len() == old(self)@.len() && final(self)@ == keep_marked(old(self)@, marks),
            final(self).invoked() == old(self).invoked(),
            final(self).checked() == old(self).checked(),
            old(self)@.len() == 0 ==> *final(self) == *old(self),
    {
        if self.entries.len() == 0 {
            let batch: Vec<Arc<P>> = Vec::new();
            proof {
                let marks = Seq::<bool>::empty();
                assert(self@ =~= keep_marked(old(self)@, marks));
                assert(marks.len() == old(self)@.len() && self@ == keep_marked(old(self)@, marks));
            }
            return batch;
        }
        let ghost orig = self@;
        let mut batch: Vec<Arc<P>> = Vec::new();
        let mut i: usize = 0;
        let ghost mut marks = Seq::<bool>::empty();
        let ghost mut k: int = 0;
        while i < self.entries.len()
            invariant
                self.resources@.len() == self.entries@.len(),
                distinct_handles(self@),
                forall|x: int|
                    0 <= x < self.entries@.len() ==> (#[trigger] self.resources@[x]).target_id@
                        == self.entries@[x].0,
                self.invocations@ == old(self).invocations@,
                self.checks@ == old(self).checks@,
                i <= self@.len(),
                batch@.len() == i,
                forall|j: int| 0 <= j < i ==> (*(#[trigger] batch@[j])).id() == self@[j].0,
                0 <= k <= orig.len(),
                marks.len() == k,
                self@.subrange(0, i as int) == keep_marked(orig.subrange(0, k), marks),
                self@.subrange(i as int, self@.len() as int) == orig.subrange(k, orig.len() as int),
            decreases orig.len() - k,
        {
            let ghost cur = self@;
            proof {
                lemma_suffix_eq(cur, orig, i as int, k);
                assert(cur[i as int] == orig[k]);
            }
            match try_upgrade(&self.resources[i]) {
                Some(arc) => {
                    proof {
                        assert((*arc).id() == self.resources@[i as int].target_id@);
                        assert((*arc).id() == cur[i as int].0);
                    }
                    batch.push(arc);
                    proof {
                        lemma_keep_marked_push(orig.subrange(0, k), marks, orig[k], true);
                        assert(orig.subrange(0, k + 1) =~= orig.subrange(0, k).push(orig[k]));
                        assert(cur.subrange(0, i + 1 as int) =~= cur.subrange(0, i as int).push(
                            cur[i as int],
                        ));
                        assert(cur.subrange(i + 1 as int, cur.len() as int) =~= orig.subrange(
                            k + 1,
                            orig.len() as int,
                        ));
                        marks = marks.push(true);
                        k = k + 1;
                    }
                    i += 1;
                },
                None => {
                    self.entries.remove(i);
                    self.resources.remove(i);
                    proof {
                        let next = self@;
                        assert(next =~= cur.remove(i as int));
                        lemma_keep_marked_push(orig.subrange(0, k), marks, orig[k], false);
                        assert(orig.subrange(0, k + 1) =~= orig.subrange(0, k).push(orig[k]));
                        assert(next.subrange(0, i as int) =~= cur.subrange(0, i as int));
                        assert(next.subrange(i as int, next.len() as int) =~= orig.subrange(
                            k + 1,
                            orig.len() as int,
                        ));
                        assert forall|a: int, b: int|
                            0 <= a < b < next.len() implies (#[trigger] next[a]).0 != (
                        #[trigger] next[b]).0 by {
                            assert(next[a] == if a < i { cur[a] } else { cur[a + 1] });
                            assert(next[b] == if b < i { cur[b] } else { cur[b + 1] });
                        }
                        assert forall|x: int|
                            0 <= x < self.entries@.len() implies (
                        #[trigger] self.resources@[x]).target_id@ == self.entries@[x].0 by {
                            if x >= i {
                                assert(self.entries@[x] == cur[x + 1]);
                            }
                        }
                        marks = marks.push(false);
                        k = k + 1;
                    }
                },
            }
        }
        proof {
            assert(k == orig.len());
            assert(orig.subrange(0, k) =~= orig);
            assert(self@.subrange(0, i as int) =~= self@);
            assert(self@ == keep_marked(orig, marks));
        }
        batch
    }

    /// One dispatch pass: removes the registrations at the positions marked
    /// `true` and invokes each removed registration's resumption callback
    /// exactly once, in table order, returning the invoked callbacks.
    ///
    /// The unmarked registrations are left exactly as they were, in order;
    /// in particular their callbacks are not invoked. The invocation record
    /// grows by exactly the dispatched entries, and no external check is
    /// made.
    pub fn dispatch_ready(&mut self, marks: &Vec<bool>) -> (woken: Vec<W>)
        requires
            old(self).wf(),
            marks@.len() == old(self)@.len(),
        ensures
            final(self).wf(),
            final(self)@ == drop_marked(old(self)@, marks@),
            woken@.len() == keep_marked(old(self)@, marks@).len(),
            forall|j: int|
                0 <= j < woken@.len() ==> #[trigger] woken@[j].wakes() == keep_marked(
                    old(self)@,
                    marks@,
                )[j].1.wakes() + 1,
            extends_invoked(
                old(self).invoked(),
                final(self).invoked(),
                keep_marked(old(self)@, marks@),
            ),
            final(self).checked() == old(self).checked(),
    {
        let ghost orig = self@;
        let total = marks.len();
        let mut woken: Vec<W> = Vec::new();
        let mut i: usize = 0;
        let mut pos: usize = 0;
        proof {
            assert(self.invocations@.subrange(0, self.invocations@.len() as int)
                =~= self.invocations@);
        }
        while i < self.entries.len()
            invariant
                self.resources@.len() == self.entries@.len(),
                forall|x: int|
                    0 <= x < self.entries@.len() ==> (#[trigger] self.resources@[x]).target_id@
                        == self.entries@[x].0,
                self.checks@ == old(self).checks@,
                extends_invoked(
                    old(self).invocations@,
                    self.invocations@,
                    keep_marked(orig.subrange(0, pos as int), marks@.subrange(0, pos as int)),
                ),
                marks@.len() == orig.len(),
                total == marks@.len(),
                i <= self@.len(),
                pos <= orig.len(),
                i <= pos,
                self@.subrange(0, i as int) == drop_marked(
                    orig.subrange(0, pos as int),
                    marks@.subrange(0, pos as int),
                ),
                self@.subrange(i as int, self@.len() as int) == orig.subrange(
                    pos as int,
                    orig.len() as int,
                ),
                woken@.len() == keep_marked(
                    orig.subrange(0, pos as int),
                    marks@.subrange(0, pos as int),
                ).len(),
                forall|j: int|
                    0 <= j < woken@.len() ==> #[trigger] woken@[j].wakes() == keep_marked(
                        orig.subrange(0, pos as int),
                        marks@.subrange(0, pos as int),
                    )[j].1.wakes() + 1,
            decreases orig.len() - pos,
        {
            let ghost cur = self@;
            proof {
                lemma_suffix_eq(cur, orig, i as int, pos as int);
                assert(pos < orig.len());
                assert(orig.len() == marks@.len());
                assert(cur[i as int] == orig[pos as int]);
                assert(orig.subrange(0, pos + 1 as int) =~= orig.subrange(0, pos as int).push(
                    orig[pos as int],
                ));
                assert(marks@.subrange(0, pos + 1 as int) =~= marks@.subrange(0, pos as int).push(
                    marks@[pos as int],
                ));
                lemma_keep_marked_push(
                    orig.subrange(0, pos as int),
                    marks@.subrange(0, pos as int),
                    orig[pos as int],
                    marks@[pos as int],
                );
                lemma_drop_marked_push(
                    orig.subrange(0, pos as int),
                    marks@.subrange(0, pos as int),
                    orig[pos as int],
                    marks@[pos as int],
                );
            }
            if marks[pos] {
                let ghost pre_resources = self.resources@;
                let (handle, mut callback) = self.entries.remove(i);
                self.resources.remove(i);
                callback.wake();
                proof {
                    let ghost before = self.invocations@;
                    self.invocations = Ghost(self.invocations@.push((handle, callback)));
                    assert(self.invocations@.subrange(0, before.len() as int) =~= before);
                    assert(before.subrange(0, old(self).invocations@.len() as int)
                        =~= old(self).invocations@);
                    assert(self.invocations@.subrange(0, old(self).invocations@.len() as int)
                        =~= old(self).invocations@);
                }
                woken.push(callback);
                proof {
                    let next = self@;
                    assert(next =~= cur.remove(i as int));
                    assert(next.subrange(0, i as int) =~= cur.subrange(0, i as int));
                    assert(next.subrange(i as int, next.len() as int) =~= orig.subrange(
                        pos + 1 as int,
                        orig.len() as int,
                    ));
                    assert(woken@.last().wakes() == orig[pos as int].1.wakes() + 1);
                    assert(handle == orig[pos as int].0);
                    assert forall|x: int|
                        0 <= x < self.entries@.len() implies (
                    #[trigger] self.resources@[x]).target_id@ == self.entries@[x].0 by {
                        if x >= i {
                            assert(self.entries@[x] == cur[x + 1]);
                            assert(self.resources@[x] == pre_resources[x + 1]);
                        }
                    }
                }
            } else {
                i += 1;
                proof {
                    assert(cur.subrange(0, i as int) =~= cur.subrange(0, i - 1 as int).push(
                        cur[i - 1 as int],
                    ));
                    assert(cur.subrange(i as int, cur.len() as int) =~= orig.subrange(
                        pos + 1 as int,
                        orig.len() as int,
                    ));
                }
            }
            pos += 1;
        }
        proof {
            assert(pos == orig.len());
            assert(orig.subrange(0, pos as int) =~= orig);
            assert(marks@.subrange(0, pos as int) =~= marks@);
            assert(self@.subrange(0, i as int) =~= self@);
            lemma_marked_distinct(orig, marks@);
        }
        woken
    }

    /// One readiness round.
    ///
    /// First every cancelled registration — one whose owning reference has
    /// been dropped — is purged, without invoking its callback. If nothing
    /// is left, the round returns `false` at once, without consulting the
    /// external primitive: the invocation and check records are untouched,
    /// and an already-empty registry is left exactly as it was. Otherwise
    /// the external readiness check is made, once, over exactly the
    /// surviving resources in table order — the check record grows by that
    /// one batch, and this is where the calling thread may block — and
    /// every reported-ready registration is removed, its resumption
    /// callback invoked exactly once, in table order, as the invocation
    /// record shows; at least one is, so a round that returns `true` always
    /// shrinks the table. The round returns `true` exactly when the purge
    /// left something to wait for; the two marked selections below are its
    /// purge (kept = survived) and its dispatch (kept = dispatched).
    pub fn poll(&mut self) -> (progress: bool)
        requires
            old(self).wf(),
        ensures
            final(self).wf(),
            old(self)@.len() == 0 ==> !progress && *final(self) == *old(self),
            !progress ==> final(self)@.len() == 0 && final(self).invoked() == old(self).invoked()
                && final(self).checked() == old(self).checked(),
            progress ==> old(self)@.len() > 0 && final(self)@.len() < old(self)@.len(),
            exists|pm: Seq<bool>, dm: Seq<bool>|
                #![trigger drop_marked(keep_marked(old(self)@, pm), dm)]
                {
                    &&& pm.len() == old(self)@.len()
                    &&& dm.len() == keep_marked(old(self)@, pm).len()
                    &&& final(self)@ == drop_marked(keep_marked(old(self)@, pm), dm)
                    &&& (progress <==> keep_marked(old(self)@, pm).len() > 0)
                    &&& (progress ==> keep_marked(keep_marked(old(self)@, pm), dm).len() > 0)
                    &&& extends_invoked(
                        old(self).invoked(),
                        final(self).invoked(),
                        keep_marked(keep_marked(old(self)@, pm), dm),
                    )
                    &&& final(self).checked() == if progress {
                        old(self).checked().push(handles_of(keep_marked(old(self)@, pm)))
                    } else {
                        old(self).checked()
                    }
                },
    {
        let batch = self.purge();
        let ghost purge_marks = choose|marks: Seq<bool>|
            marks.len() == old(self)@.len() && self@ == keep_marked(old(self)@, marks);
        if self.entries.len() == 0 {
            proof {
                let dm = Seq::<bool>::empty();
                let live = keep_marked(old(self)@, purge_marks);
                assert(self@ =~= drop_marked(live, dm));
                assert(self.invocations@.subrange(0, old(self).invocations@.len() as int)
                    =~= old(self).invocations@);
                assert(keep_marked(live, dm) =~= Seq::<(u32, W)>::empty());
                assert({
                    &&& purge_marks.len() == old(self)@.len()
                    &&& dm.len() == live.len()
                    &&& self@ == drop_marked(keep_marked(old(self)@, purge_marks), dm)
                    &&& !(keep_marked(old(self)@, purge_marks).len() > 0)
                    &&& extends_invoked(
                        old(self).invoked(),
                        self.invoked(),
                        keep_marked(keep_marked(old(self)@, purge_marks), dm),
                    )
                    &&& self.checked() == old(self).checked()
                });
            }
            return false;
        }
        proof {
            lemma_keep_marked_len(old(self)@, purge_marks);
        }
        let ghost mid = self@;
        let mut refs: Vec<&P> = Vec::new();
        let mut i: usize = 0;
        while i < batch.len()
            invariant
                refs@.len() == i,
                i <= batch@.len(),
            decreases batch@.len() - i,
        {
            refs.push(arc_borrow(&batch[i]));
            i += 1;
        }
        proof {
            self.checks = Ghost(self.checks@.push(handles_of(mid)));
        }
        let ready = P::poll(&refs);
        let marks = mask_of_ready(self.entries.len(), &ready);
        proof {
            assert(marks@[ready@[0] as int]);
            lemma_keep_marked_nonempty(mid, marks@, ready@[0] as int);
            lemma_marked_split(mid, marks@);
        }
        let _woken = self.dispatch_ready(&marks);
        proof {
            let dm = marks@;
            let live = keep_marked(old(self)@, purge_marks);
            assert(live == mid);
            assert({
                &&& purge_marks.len() == old(self)@.len()
                &&& dm.len() == live.len()
                &&& self@ == drop_marked(keep_marked(old(self)@, purge_marks), dm)
                &&& keep_marked(old(self)@, purge_marks).len() > 0
                &&& keep_marked(keep_marked(old(self)@, purge_marks), dm).len() > 0
                &&& extends_invoked(
                    old(self).invoked(),
                    self.invoked(),
                    keep_marked(keep_marked(old(self)@, purge_marks), dm),
                )
                &&& self.checked() == old(self).checked().push(
                    handles_of(keep_marked(old(self)@, purge_marks)),
                )
            });
        }
        true
    }

    /// How many registrations the registry currently holds.
    pub fn pending_count(&self) -> (n: usize)
        ensures
            n == self@.len(),
    {
        self.entries.len()
    }

    /// The handles of the current registrations, in table order.
    pub fn pending_handles(&self) -> (hs: Vec<u32>)
        ensures
            hs@.len() == self@.len(),
            forall|i: int| 0 <= i < hs@.len() ==> hs@[i] == (#[trigger] self@[i]).0,
    {
        let mut hs: Vec<u32> = Vec::new();
        let mut i: usize = 0;
        while i < self.entries.len()
            invariant
                i <= self@.len(),
                hs@.len() == i,
                forall|j: int| 0 <= j < i ==> hs@[j] == (#[trigger] self@[j]).0,
            decreases self@.len() - i,
        {
            hs.push(self.entries[i].0);
            i += 1;
        }
        hs
    }
}

/// Relies on std's `Arc` deref: a shared borrow of the owned value.
#[verifier::external_body]
fn arc_borrow<P>(owner: &Arc<P>) -> (r: &P)
    ensures
        *r == **owner,
{
    &**owner
}

impl<P: WasiPoll, W: Wake> PollableRegistry for Poller<P, W> {
    type Pollable = P;

    type RegisteredPollable = Arc<P>;

    type Waker = W;

    closed spec fn inv(&self) -> bool {
        self.wf()
    }

    closed spec fn pending(&self) -> nat {
        self@.len()
    }

    fn register_pollable(&mut self, waker: W, pollable: P) -> (owned: Arc<P>) {
        Poller::register_pollable(self, waker, pollable)
    }

    fn poll(&mut self) -> (progress: bool) {
        Poller::poll(self)
    }
}

impl<P: WasiPoll, W: Wake> Default for Poller<P, W> {
    /// An empty registry.
    fn default() -> (r: Self)
        ensures
            r@ == Seq::<(u32, W)>::empty(),
            r.invoked() == Seq::<(u32, W)>::empty(),
            r.checked() == Seq::<Seq<u32>>::empty(),
            r.wf(),
    {
        Poller::new()
    }
}

} // verus!

