//! The registry of host timer callbacks.
//!
//! The host hands out a timer id for each `setTimeout` / `setInterval` and
//! later calls the guest back with it. The registry keeps the callback of
//! every live timer and the ids cleared while their callback was running.
//! Dispatching a timer is split in two around the callback call, which the
//! embedding application makes: [`TimerRegistry::begin_dispatch`] takes the
//! entry out, [`TimerRegistry::finish_dispatch`] decides whether it stays.

use std::collections::{HashMap, HashSet};
use vstd::prelude::*;

verus! {

broadcast use vstd::std_specs::hash::group_hash_axioms;

/// A registered timer callback.
pub struct TimerEntry<C> {
    /// True for an interval, false for a timeout.
    pub repeating: bool,
    /// The callback.
    pub callback: C,
}

/// The contents of a timer registry: live callbacks by timer id, and the
/// ids cleared since their entry was taken out for dispatch.
pub struct TimerState<C> {
    pub callbacks: Map<i64, TimerEntry<C>>,
    pub cancelled: Set<i64>,
}

/// Registering a callback for a timer: ids that are not positive are
/// ignored; otherwise the entry replaces any earlier one and the id is no
/// longer marked cleared.
pub open spec fn after_store<C>(s: TimerState<C>, timer_id: i64, entry: TimerEntry<C>) -> TimerState<C> {
    if timer_id <= 0 {
        s
    } else {
        TimerState {
            callbacks: s.callbacks.insert(timer_id, entry),
            cancelled: s.cancelled.remove(timer_id),
        }
    }
}

/// Clearing a timer: ids that are not positive are ignored; otherwise its
/// callback is dropped and the id is marked cleared.
pub open spec fn after_clear<C>(s: TimerState<C>, timer_id: i64) -> TimerState<C> {
    if timer_id <= 0 {
        s
    } else {
        TimerState {
            callbacks: s.callbacks.remove(timer_id),
            cancelled: s.cancelled.insert(timer_id),
        }
    }
}

/// Taking a timer's entry out for dispatch.
pub open spec fn after_take<C>(s: TimerState<C>, timer_id: i64) -> TimerState<C> {
    TimerState { callbacks: s.callbacks.remove(timer_id), ..s }
}

/// After a timer's callback ran: an interval that was not cleared meanwhile
/// is registered again; the cleared mark of the id is dropped either way.
pub open spec fn after_finish<C>(s: TimerState<C>, timer_id: i64, entry: TimerEntry<C>) -> TimerState<C> {
    if entry.repeating && !s.cancelled.contains(timer_id) {
        TimerState { callbacks: s.callbacks.insert(timer_id, entry), ..s }
    } else {
        TimerState { cancelled: s.cancelled.remove(timer_id), ..s }
    }
}

/// The registry of host timer callbacks.
pub struct TimerRegistry<C> {
    callbacks: HashMap<i64, TimerEntry<C>>,
    cancelled: HashSet<i64>,
}

impl<C> View for TimerRegistry<C> {
    type V = TimerState<C>;

    closed spec fn view(&self) -> TimerState<C> {
        TimerState { callbacks: self.callbacks@, cancelled: self.cancelled@ }
    }
}

impl<C> TimerRegistry<C> {
    /// An empty registry.
    pub fn new() -> (r: TimerRegistry<C>)
        ensures
            r@.callbacks == Map::<i64, TimerEntry<C>>::empty(),
            r@.cancelled == Set::<i64>::empty(),
    {
        TimerRegistry { callbacks: HashMap::new(), cancelled: HashSet::new() }
    }

    /// Registers the callback of a timer (see [`after_store`]).
    pub fn store(&mut self, timer_id: i64, entry: TimerEntry<C>)
        ensures
            final(self)@ == after_store(old(self)@, timer_id, entry),
    {
        if timer_id <= 0 {
            return;
        }
        self.cancelled.remove(&timer_id);
        self.callbacks.insert(timer_id, entry);
    }

    /// Drops the callback of a timer and marks it cleared (see
    /// [`after_clear`]).
    pub fn remove(&mut self, timer_id: i64)
        ensures
            final(self)@ == after_clear(old(self)@, timer_id),
    {
        if timer_id <= 0 {
            return;
        }
        self.callbacks.remove(&timer_id);
        self.cancelled.insert(timer_id);
    }

    /// Registers the one-shot callback of a timeout the host created.
    pub fn set_timeout(&mut self, timer_id: i64, callback: C) -> (r: i64)
        ensures
            r == timer_id,
            final(self)@ == after_store(
                old(self)@,
                timer_id,
                TimerEntry { repeating: false, callback },
            ),
    {
        self.store(timer_id, TimerEntry { repeating: false, callback });
        timer_id
    }

    /// Registers the repeating callback of an interval the host created. An
    /// interval never cleared runs at every firing (see
    /// [`lemma_interval_runs_every_time`]).
    pub fn set_interval(&mut self, timer_id: i64, callback: C) -> (r: i64)
        ensures
            r == timer_id,
            final(self)@ == after_store(
                old(self)@,
                timer_id,
                TimerEntry { repeating: true, callback },
            ),
    {
        self.store(timer_id, TimerEntry { repeating: true, callback });
        timer_id
    }

    /// Forgets a timeout the host was asked to clear.
    pub fn clear_timeout(&mut self, timer_id: i64)
        ensures
            final(self)@ == after_clear(old(self)@, timer_id),
    {
        self.remove(timer_id);
    }

    /// Forgets an interval the host was asked to clear.
    pub fn clear_interval(&mut self, timer_id: i64)
        ensures
            final(self)@ == after_clear(old(self)@, timer_id),
    {
        self.remove(timer_id);
    }

    /// Takes out the entry of a timer the host fired, if it is registered.
    /// The caller runs its callback, then hands it to
    /// [`Self::finish_dispatch`].
    pub fn begin_dispatch(&mut self, timer_id: i64) -> (r: Option<TimerEntry<C>>)
        ensures
            final(self)@ == after_take(old(self)@, timer_id),
            old(self)@.callbacks.contains_key(timer_id) ==> r == Some(
                old(self)@.callbacks[timer_id],
            ),
            !old(self)@.callbacks.contains_key(timer_id) ==> r is None,
    {
        let r = self.callbacks.remove(&timer_id);
        proof {
            assert(self@.callbacks =~= old(self)@.callbacks.remove(timer_id));
        }
        r
    }

    /// Settles a timer whose callback ran (see [`after_finish`]).
    pub fn finish_dispatch(&mut self, timer_id: i64, entry: TimerEntry<C>)
        ensures
            final(self)@ == after_finish(old(self)@, timer_id, entry),
    {
        if entry.repeating {
            let cancelled = self.cancelled.remove(&timer_id);
            if !cancelled {
                self.callbacks.insert(timer_id, entry);
            }
        } else {
            self.cancelled.remove(&timer_id);
        }
        proof {
            assert(self@.cancelled =~= after_finish(old(self)@, timer_id, entry).cancelled);
        }
    }

    /// True when a callback is registered for the timer.
    pub fn is_registered(&self, timer_id: i64) -> (r: bool)
        ensures
            r == self@.callbacks.contains_key(timer_id),
    {
        self.callbacks.contains_key(&timer_id)
    }
}

/// An interval cleared while its callback runs is not registered again,
/// and leaves no cleared mark behind.
pub proof fn lemma_cleared_interval_stops<C>(s: TimerState<C>, timer_id: i64, entry: TimerEntry<C>)
    requires
        timer_id > 0,
        entry.repeating,
    ensures
        ({
            let t = after_finish(after_clear(after_take(s, timer_id), timer_id), timer_id, entry);
            !t.callbacks.contains_key(timer_id) && !t.cancelled.contains(timer_id)
        }),
{
}

/// A timeout fires once: after its callback ran it is no longer
/// registered.
pub proof fn lemma_timeout_fires_once<C>(s: TimerState<C>, timer_id: i64, entry: TimerEntry<C>)
    requires
        !entry.repeating,
    ensures
        !after_finish(after_take(s, timer_id), timer_id, entry).callbacks.contains_key(timer_id),
{
}

/// An interval whose callback ran without clearing it stays registered
/// with the same entry.
pub proof fn lemma_interval_repeats<C>(s: TimerState<C>, timer_id: i64, entry: TimerEntry<C>)
    requires
        entry.repeating,
        !s.cancelled.contains(timer_id),
    ensures
        after_finish(after_take(s, timer_id), timer_id, entry).callbacks.contains_key(timer_id),
        after_finish(after_take(s, timer_id), timer_id, entry).callbacks[timer_id] == entry,
{
}

/// The registry after the host fires timer `timer_id` `k` times with no
/// clearing in between, and how many of those firings ran a callback: a
/// firing runs the callback when one is registered, then settles it.
pub open spec fn dispatched<C>(s: TimerState<C>, timer_id: i64, k: nat) -> (TimerState<C>, nat)
    decreases k,
{
    if k == 0 {
        (s, 0)
    } else {
        let (t, n) = dispatched(s, timer_id, (k - 1) as nat);
        if t.callbacks.contains_key(timer_id) {
            (after_finish(after_take(t, timer_id), timer_id, t.callbacks[timer_id]), n + 1)
        } else {
            (after_take(t, timer_id), n)
        }
    }
}

/// An interval that is never cleared runs its callback at every firing:
/// after `k` firings it ran `k` times and is still registered with the
/// same entry.
pub proof fn lemma_interval_runs_every_time<C>(s: TimerState<C>, timer_id: i64, entry: TimerEntry<C>, k: nat)
    requires
        entry.repeating,
        s.callbacks.contains_key(timer_id),
        s.callbacks[timer_id] == entry,
        !s.cancelled.contains(timer_id),
    ensures
        dispatched(s, timer_id, k).1 == k,
        dispatched(s, timer_id, k).0.callbacks.contains_key(timer_id),
        dispatched(s, timer_id, k).0.callbacks[timer_id] == entry,
        !dispatched(s, timer_id, k).0.cancelled.contains(timer_id),
    decreases k,
{
    if k > 0 {
        lemma_interval_runs_every_time(s, timer_id, entry, (k - 1) as nat);
    }
}

/// A timer registered again after being cleared is live again.
pub proof fn lemma_store_after_clear<C>(s: TimerState<C>, timer_id: i64, entry: TimerEntry<C>)
    requires
        timer_id > 0,
    ensures
        after_store(after_clear(s, timer_id), timer_id, entry).callbacks[timer_id] == entry,
        !after_store(after_clear(s, timer_id), timer_id, entry).cancelled.contains(timer_id),
{
}

} // verus!
