//! A naive software timer: schedule deferred actions by logical deadline and
//! drive them by polling.
//!
//! A [`Timer`] owns a multiset of pending events, each a deadline paired with
//! a one-shot action. `add` schedules an event; `tick(now)` fires every event
//! whose deadline is at most `now`, earliest deadline first, invoking each
//! action exactly once and removing it from the pending set.

use vstd::multiset::Multiset;
use vstd::prelude::*;

verus! {

/// A pending event: a one-shot `action` to invoke once time reaches `deadline`.
pub struct Event<F> {
    pub deadline: u64,
    pub action: F,
}

/// The events of `s` ordered by deadline, earliest first.
pub open spec fn deadline_ordered<F>(s: Seq<Event<F>>) -> bool {
    forall|i: int, j: int|
        0 <= i <= j < s.len() ==> #[trigger] s[i].deadline <= #[trigger] s[j].deadline
}

/// Every action of `s` may be invoked (its precondition holds on no arguments).
pub open spec fn invocable<F: FnOnce()>(s: Seq<Event<F>>) -> bool {
    forall|i: int| 0 <= i < s.len() ==> call_requires(#[trigger] s[i].action, ())
}

/// The events of `s` that a tick at time `now` fires, in firing order.
pub open spec fn matured<F>(s: Seq<Event<F>>, now: u64) -> Seq<Event<F>> {
    s.filter(|e: Event<F>| e.deadline <= now)
}

/// The events of `s` that a tick at time `now` leaves pending, in order.
pub open spec fn still_pending<F>(s: Seq<Event<F>>, now: u64) -> Seq<Event<F>> {
    s.filter(|e: Event<F>| e.deadline > now)
}

/// Complete drain: once `now` has reached every pending deadline, a tick
/// fires the whole pending set, in order, and leaves nothing behind. With
/// `tick`'s contract this says every scheduled action whose deadline is ever
/// reached gets invoked.
pub proof fn lemma_tick_fires_all<F>(s: Seq<Event<F>>, now: u64)
    requires
        forall|i: int| 0 <= i < s.len() ==> #[trigger] s[i].deadline <= now,
    ensures
        matured(s, now) == s,
        still_pending(s, now) == Seq::<Event<F>>::empty(),
    decreases s.len(),
{
    reveal(Seq::filter);
    if s.len() != 0 {
        assert(forall|i: int|
            0 <= i < s.drop_last().len() ==> #[trigger] s.drop_last()[i].deadline <= now);
        lemma_tick_fires_all(s.drop_last(), now);
        assert(matured(s, now) =~= s);
        assert(still_pending(s, now) =~= Seq::<Event<F>>::empty());
    } else {
        assert(matured(s, now) =~= s);
        assert(still_pending(s, now) =~= Seq::<Event<F>>::empty());
    }
}

/// No-op tick: while `now` is short of every pending deadline, a tick fires
/// nothing and leaves the pending set exactly as it was.
pub proof fn lemma_tick_fires_none<F>(s: Seq<Event<F>>, now: u64)
    requires
        forall|i: int| 0 <= i < s.len() ==> #[trigger] s[i].deadline > now,
    ensures
        matured(s, now) == Seq::<Event<F>>::empty(),
        still_pending(s, now) == s,
    decreases s.len(),
{
    reveal(Seq::filter);
    if s.len() != 0 {
        assert(forall|i: int|
            0 <= i < s.drop_last().len() ==> #[trigger] s.drop_last()[i].deadline > now);
        lemma_tick_fires_none(s.drop_last(), now);
        assert(matured(s, now) =~= Seq::<Event<F>>::empty());
        assert(still_pending(s, now) =~= s);
    } else {
        assert(matured(s, now) =~= Seq::<Event<F>>::empty());
        assert(still_pending(s, now) =~= s);
    }
}

/// Cutting a pending set at index `k`, where everything before `k` has
/// matured and everything from `k` on has not, identifies the two sides with
/// `matured` and `still_pending`.
proof fn lemma_cut_rec<F>(s: Seq<Event<F>>, k: int, now: u64)
    requires
        0 <= k <= s.len(),
        forall|j: int| 0 <= j < k ==> (#[trigger] s[j]).deadline <= now,
        forall|j: int| k <= j < s.len() ==> (#[trigger] s[j]).deadline > now,
    ensures
        matured(s, now) == s.subrange(0, k),
        still_pending(s, now) == s.subrange(k, s.len() as int),
    decreases s.len(),
{
    reveal(Seq::filter);
    if s.len() == 0 {
        assert(matured(s, now) =~= s.subrange(0, k));
        assert(still_pending(s, now) =~= s.subrange(k, s.len() as int));
    } else if k == s.len() {
        lemma_cut_rec(s.drop_last(), k - 1, now);
        assert(matured(s, now) =~= s.subrange(0, k));
        assert(still_pending(s, now) =~= s.subrange(k, s.len() as int));
    } else {
        lemma_cut_rec(s.drop_last(), k, now);
        assert(matured(s, now) =~= s.subrange(0, k));
        assert(still_pending(s, now) =~= s.subrange(k, s.len() as int));
    }
}

/// The cut of `lemma_cut_rec` on a deadline-ordered, invocable pending set:
/// both sides are again deadline-ordered and invocable, and every matured
/// deadline is at most `now`.
proof fn lemma_cut_at_now<F: FnOnce()>(s: Seq<Event<F>>, k: int, now: u64)
    requires
        deadline_ordered(s),
        invocable(s),
        0 <= k <= s.len(),
        forall|j: int| 0 <= j < k ==> (#[trigger] s[j]).deadline <= now,
        forall|j: int| k <= j < s.len() ==> (#[trigger] s[j]).deadline > now,
    ensures
        matured(s, now) == s.subrange(0, k),
        still_pending(s, now) == s.subrange(k, s.len() as int),
        deadline_ordered(s.subrange(0, k)),
        deadline_ordered(s.subrange(k, s.len() as int)),
        invocable(s.subrange(0, k)),
        invocable(s.subrange(k, s.len() as int)),
        forall|i: int|
            0 <= i < s.subrange(0, k).len() ==> #[trigger] s.subrange(0, k)[i].deadline <= now,
{
    let a = s.subrange(0, k);
    let b = s.subrange(k, s.len() as int);
    assert forall|p: int, q: int| 0 <= p <= q < a.len() implies #[trigger] a[p].deadline
        <= #[trigger] a[q].deadline by {
        assert(a[p] == s[p] && a[q] == s[q]);
    }
    assert forall|p: int, q: int| 0 <= p <= q < b.len() implies #[trigger] b[p].deadline
        <= #[trigger] b[q].deadline by {
        assert(b[p] == s[p + k] && b[q] == s[q + k]);
    }
    assert forall|i: int| 0 <= i < a.len() implies call_requires(#[trigger] a[i].action, ()) by {
        assert(a[i] == s[i]);
    }
    assert forall|i: int| 0 <= i < b.len() implies call_requires(#[trigger] b[i].action, ()) by {
        assert(b[i] == s[i + k]);
    }
    assert forall|i: int| 0 <= i < a.len() implies #[trigger] a[i].deadline <= now by {
        assert(a[i] == s[i]);
    }
    lemma_cut_rec(s, k, now);
}

/// No premature firing: a tick at time `now` fires only events whose
/// deadline is at most `now`, and keeps pending only events whose deadline
/// exceeds `now`.
pub proof fn lemma_no_premature_firing<F>(s: Seq<Event<F>>, now: u64)
    ensures
        forall|i: int|
            0 <= i < matured(s, now).len() ==> (#[trigger] matured(s, now)[i]).deadline <= now,
        forall|i: int|
            0 <= i < still_pending(s, now).len()
                ==> (#[trigger] still_pending(s, now)[i]).deadline > now,
{
    broadcast use vstd::seq_lib::group_filter_ensures;

}

/// Exactly once per tick: the events a tick fires and the events it leaves
/// pending together account for every pending event, with its multiplicity;
/// none is fired twice, none is lost.
pub proof fn lemma_tick_partition<F>(s: Seq<Event<F>>, now: u64)
    ensures
        matured(s, now).to_multiset().add(still_pending(s, now).to_multiset())
            == s.to_multiset(),
    decreases s.len(),
{
    reveal(Seq::filter);
    broadcast use vstd::seq_lib::to_multiset_build;
    broadcast use vstd::seq_lib::to_multiset_len;
    broadcast use vstd::multiset::lemma_multiset_empty_len;
    broadcast use vstd::multiset::group_multiset_axioms;

    if s.len() == 0 {
        vstd::seq_lib::to_multiset_len(s);
        vstd::multiset::lemma_multiset_empty_len(s.to_multiset());
        assert(s.to_multiset() =~= Multiset::<Event<F>>::empty());
        assert(matured(s, now).to_multiset().add(still_pending(s, now).to_multiset())
            =~= s.to_multiset());
    } else {
        let dl = s.drop_last();
        lemma_tick_partition(dl, now);
        assert(s =~= dl.push(s.last()));
        assert(dl.push(s.last()).to_multiset() == dl.to_multiset().insert(s.last()));
        if s.last().deadline <= now {
            assert(matured(s, now) == matured(dl, now).push(s.last()));
            assert(still_pending(s, now) == still_pending(dl, now));
            assert(matured(dl, now).push(s.last()).to_multiset() == matured(
                dl,
                now,
            ).to_multiset().insert(s.last()));
            assert(matured(s, now).to_multiset().add(still_pending(s, now).to_multiset())
                =~= s.to_multiset());
        } else {
            assert(matured(s, now) == matured(dl, now));
            assert(still_pending(s, now) == still_pending(dl, now).push(s.last()));
            assert(still_pending(dl, now).push(s.last()).to_multiset() == still_pending(
                dl,
                now,
            ).to_multiset().insert(s.last()));
            assert(matured(s, now).to_multiset().add(still_pending(s, now).to_multiset())
                =~= s.to_multiset());
        }
    }
}

/// Exactly once across two ticks: whatever the first tick fires, the second
/// fires only from what the first left pending, so across both ticks every
/// event is fired at most once and accounted for.
pub proof fn lemma_two_ticks_fire_apart<F>(s: Seq<Event<F>>, now1: u64, now2: u64)
    ensures
        matured(s, now1).to_multiset().add(
            matured(still_pending(s, now1), now2).to_multiset(),
        ).add(still_pending(still_pending(s, now1), now2).to_multiset()) == s.to_multiset(),
{
    broadcast use vstd::multiset::group_multiset_axioms;

    lemma_tick_partition(s, now1);
    lemma_tick_partition(still_pending(s, now1), now2);
    assert(matured(s, now1).to_multiset().add(
        matured(still_pending(s, now1), now2).to_multiset(),
    ).add(still_pending(still_pending(s, now1), now2).to_multiset()) =~= s.to_multiset());
}

/// Idempotent drain: a second tick at the same time, or at any earlier time,
/// with no additions in between, fires nothing and changes nothing.
pub proof fn lemma_tick_idempotent<F>(s: Seq<Event<F>>, now: u64, later: u64)
    requires
        later <= now,
    ensures
        matured(still_pending(s, now), later) == Seq::<Event<F>>::empty(),
        still_pending(still_pending(s, now), later) == still_pending(s, now),
{
    broadcast use vstd::seq_lib::group_filter_ensures;

    let rest = still_pending(s, now);
    assert(forall|i: int| 0 <= i < rest.len() ==> (#[trigger] rest[i]).deadline > later);
    lemma_tick_fires_none(rest, later);
}

/// In-order firing: on a deadline-ordered pending set, a tick both fires and
/// keeps events in non-decreasing deadline order; actions run earliest
/// deadline first, with ties in an unspecified order.
pub proof fn lemma_fired_in_deadline_order<F: FnOnce()>(s: Seq<Event<F>>, now: u64)
    requires
        deadline_ordered(s),
        invocable(s),
    ensures
        deadline_ordered(matured(s, now)),
        deadline_ordered(still_pending(s, now)),
        invocable(matured(s, now)),
        invocable(still_pending(s, now)),
    decreases s.len(),
{
    if s.len() == 0 {
        lemma_tick_fires_none(s, now);
    } else if s.last().deadline <= now {
        assert forall|j: int| 0 <= j < s.len() implies (#[trigger] s[j]).deadline <= now by {
            assert(s[j].deadline <= s[s.len() - 1].deadline);
        }
        lemma_cut_at_now(s, s.len() as int, now);
        assert(s.subrange(0, s.len() as int) == s);
    } else {
        let k = lemma_sorted_cut_exists(s, now);
        lemma_cut_at_now(s, k, now);
    }
}

/// On a deadline-ordered pending set there is a cut index: everything before
/// it matured, everything from it on did not.
proof fn lemma_sorted_cut_exists<F>(s: Seq<Event<F>>, now: u64) -> (k: int)
    requires
        deadline_ordered(s),
    ensures
        0 <= k <= s.len(),
        forall|j: int| 0 <= j < k ==> (#[trigger] s[j]).deadline <= now,
        forall|j: int| k <= j < s.len() ==> (#[trigger] s[j]).deadline > now,
    decreases s.len(),
{
    if s.len() == 0 {
        0
    } else if s.last().deadline <= now {
        let n = s.len() as int;
        assert forall|j: int| 0 <= j < n implies (#[trigger] s[j]).deadline <= now by {
            assert(s[j].deadline <= s[n - 1].deadline);
        }
        n
    } else {
        let dl = s.drop_last();
        assert forall|p: int, q: int| 0 <= p <= q < dl.len() implies (#[trigger] dl[p]).deadline
            <= (#[trigger] dl[q]).deadline by {
            assert(dl[p] == s[p] && dl[q] == s[q]);
        }
        let k = lemma_sorted_cut_exists(dl, now);
        assert forall|j: int| 0 <= j < k implies (#[trigger] s[j]).deadline <= now by {
            assert(s[j] == dl[j]);
        }
        assert forall|j: int| k <= j < s.len() implies (#[trigger] s[j]).deadline > now by {
            if j < s.len() - 1 {
                assert(s[j] == dl[j]);
            }
        }
        k
    }
}

/// A timer: a pending set of events, held ordered by deadline so that the
/// earliest event is always at the front.
///
/// Actions must be `Send + Sync`: they may be invoked from whichever thread
/// drives `tick`, not only the one that scheduled them.
pub struct Timer<F> {
    events: Vec<Event<F>>,
}

impl<F> View for Timer<F> {
    type V = Seq<Event<F>>;

    closed spec fn view(&self) -> Seq<Event<F>> {
        self.events@
    }
}

impl<F: FnOnce() + Send + Sync> Timer<F> {
    /// The timer's invariant: pending events are ordered by deadline and
    /// every stored action may still be invoked.
    pub open spec fn wf(self) -> bool {
        deadline_ordered(self@) && invocable(self@)
    }

    /// Creates an empty timer.
    pub fn new() -> (t: Self)
        ensures
            t.wf(),
            t@ == Seq::<Event<F>>::empty(),
    {
        Timer { events: Vec::new() }
    }

    /// Schedules `action` to fire once a tick reaches `deadline`.
    ///
    /// Any deadline is accepted, including one already in the past relative
    /// to earlier ticks; the action is never invoked here, only by `tick`.
    /// The pending set grows by exactly this one event.
    #[verifier::rlimit(50)]
    pub fn add(&mut self, deadline: u64, action: F)
        requires
            old(self).wf(),
            call_requires(action, ()),
        ensures
            final(self).wf(),
            final(self)@.to_multiset() == old(self)@.to_multiset().insert(
                (Event { deadline, action }),
            ),
            final(self)@.len() == old(self)@.len() + 1,
    {
        let ghost s0 = self@;
        let n = self.events.len();
        let mut i: usize = 0;
        while i < n && self.events[i].deadline <= deadline
            invariant
                i <= n,
                n == self@.len(),
                self@ == s0,
                old(self).wf(),
                forall|j: int| 0 <= j < i ==> #[trigger] self@[j].deadline <= deadline,
            decreases n - i,
        {
            i = i + 1;
        }
        proof {
            broadcast use vstd::seq_lib::to_multiset_insert;

            let ev = (Event { deadline, action });
            s0.insert_ensures(i as int, ev);
            assert forall|p: int, q: int|
                0 <= p <= q < s0.insert(i as int, ev).len() implies #[trigger] s0.insert(
                i as int,
                ev,
            )[p].deadline <= #[trigger] s0.insert(i as int, ev)[q].deadline by {
                let t = s0.insert(i as int, ev);
                if p < i && q > i {
                    assert(t[p] == s0[p] && t[q] == s0[q - 1]);
                    if q - 1 >= i {
                        assert(s0[i as int].deadline > deadline);
                    }
                }
            }
        }
        self.events.insert(i, Event { deadline, action });
    }

    /// Removes and returns every pending event whose deadline is at most
    /// `now`, in non-decreasing deadline order, leaving exactly the events
    /// whose deadline exceeds `now` pending.
    ///
    /// Ties between equal deadlines come out in an order the timer does not
    /// promise. The caller owns the returned events and may invoke their
    /// actions; `tick` does exactly that.
    #[verifier::rlimit(50)]
    pub fn drain(&mut self, now: u64) -> (fired: Vec<Event<F>>)
        requires
            old(self).wf(),
        ensures
            final(self).wf(),
            final(self)@ == still_pending(old(self)@, now),
            fired@ == matured(old(self)@, now),
            deadline_ordered(fired@),
            invocable(fired@),
            forall|i: int| 0 <= i < fired@.len() ==> #[trigger] fired@[i].deadline <= now,
    {
        let ghost s0 = self@;
        let n = self.events.len();
        let mut k: usize = 0;
        while k < n && self.events[k].deadline <= now
            invariant
                k <= n,
                n == self@.len(),
                self@ == s0,
                old(self).wf(),
                forall|j: int| 0 <= j < k ==> #[trigger] s0[j].deadline <= now,
            decreases n - k,
        {
            k = k + 1;
        }
        proof {
            if k < n {
                assert forall|i: int| k <= i < s0.len() implies #[trigger] s0[i].deadline
                    > now by {
                    assert(s0[k as int].deadline <= s0[i].deadline);
                }
            }
            lemma_cut_at_now(s0, k as int, now);
        }
        let mut rest = self.events.split_off(k);
        core::mem::swap(&mut self.events, &mut rest);
        proof {
            assert(rest@ == s0.subrange(0, k as int));
            assert(self@ == s0.subrange(k as int, s0.len() as int));
        }
        rest
    }

    /// Fires every matured event: while the earliest pending deadline is at
    /// most `now`, removes that event and invokes its action, so actions run
    /// in non-decreasing deadline order, each exactly once, synchronously in
    /// the calling context. Events whose deadline exceeds `now` stay pending,
    /// untouched. On an empty timer, or with `now` short of every deadline,
    /// this is a no-op; `now` may also lag behind an earlier tick.
    ///
    /// Afterwards the postcondition of every fired action holds of the unit
    /// result its invocation returned.
    pub fn tick(&mut self, now: u64)
        requires
            old(self).wf(),
        ensures
            final(self).wf(),
            final(self)@ == still_pending(old(self)@, now),
            forall|i: int|
                0 <= i < old(self)@.len() && (#[trigger] old(self)@[i]).deadline <= now
                    ==> call_ensures(old(self)@[i].action, (), ()),
    {
        let ghost s0 = self@;
        let ghost mut k: int = 0;
        loop
            invariant
                0 <= k <= s0.len(),
                deadline_ordered(s0),
                invocable(s0),
                self@ == s0.subrange(k, s0.len() as int),
                forall|i: int| 0 <= i < k ==> (#[trigger] s0[i]).deadline <= now,
                forall|i: int| 0 <= i < k ==> call_ensures((#[trigger] s0[i]).action, (), ()),
            ensures
                0 <= k <= s0.len(),
                self@ == s0.subrange(k, s0.len() as int),
                forall|i: int| 0 <= i < k ==> (#[trigger] s0[i]).deadline <= now,
                forall|i: int| 0 <= i < k ==> call_ensures((#[trigger] s0[i]).action, (), ()),
                forall|i: int| k <= i < s0.len() ==> (#[trigger] s0[i]).deadline > now,
            decreases s0.len() - k,
        {
            if self.events.len() == 0 {
                break;
            }
            if self.events[0].deadline > now {
                proof {
                    assert(self@[0] == s0[k]);
                    assert forall|i: int| k <= i < s0.len() implies (#[trigger] s0[i]).deadline
                        > now by {
                        assert(s0[k].deadline <= s0[i].deadline);
                    }
                }
                break;
            }
            let ev = self.events.remove(0);
            proof {
                assert(ev == s0[k]);
                k = k + 1;
                assert(self@ =~= s0.subrange(k, s0.len() as int));
            }
            let act = ev.action;
            act();
        }
        proof {
            lemma_cut_at_now(s0, k, now);
        }
    }
}

impl<F: FnOnce() + Send + Sync> Default for Timer<F> {
    /// An empty timer.
    fn default() -> (t: Self)
        ensures
            t.wf(),
            t@ == Seq::<Event<F>>::empty(),
    {
        Timer::new()
    }
}

} // verus!
