use crate::utils::btree_multi_map::{entry_lt, has_entry, sorted_entries, BTreeMultiMap};
use vstd::prelude::*;

verus! {

/// How long the timer thread waits on top of an idle check before it stops
/// itself, in nanoseconds.
pub const IDLE_WINDOW_NANOS: u64 = 4_000_000_000;

/// The upper bound on a wait while any wall-clock deadline is pending, in
/// nanoseconds: it bounds the drift after a system-clock jump.
pub const WALLCLOCK_RECHECK_CAP_NANOS: u64 = 1_000_000_000;

/// A point in time for the timer service: nanoseconds on the monotonic
/// clock, or nanoseconds of wall-clock time.
#[derive(Debug, Clone, Copy, PartialEq, Eq, Hash, Structural)]
pub enum AnyTime {
    Monotonic(u64),
    Wallclock(u64),
}

/// What the timer service should do next: invoke an action whose deadline
/// has arrived, wait no longer than the given span, or go idle because no
/// deadline is stored.
pub enum TimerStep<V> {
    Idle,
    Call(V),
    Wait(u64),
}

/// The deadline store of the timer service: one ordered multimap per clock,
/// and the flag that says whether the service thread is running.
pub struct TimerData<V> {
    actions_monotonic: BTreeMultiMap<V>,
    actions_wallclock: BTreeMultiMap<V>,
    is_running: bool,
}

impl<V> TimerData<V> {
    /// The monotonic-clock entries, earliest first.
    pub closed spec fn monotonic(&self) -> Seq<(u64, usize, V)> {
        self.actions_monotonic.view()
    }

    /// The wall-clock entries, earliest first.
    pub closed spec fn wallclock(&self) -> Seq<(u64, usize, V)> {
        self.actions_wallclock.view()
    }

    pub closed spec fn running(&self) -> bool {
        self.is_running
    }

    pub open spec fn wf(&self) -> bool {
        &&& sorted_entries(self.monotonic())
        &&& sorted_entries(self.wallclock())
    }

    /// The earliest monotonic deadline has arrived.
    pub open spec fn monotonic_due(&self, now: u64) -> bool {
        self.monotonic().len() > 0 && now >= self.monotonic()[0].0
    }

    /// The earliest wall-clock deadline has arrived.
    pub open spec fn wallclock_due(&self, now: u64) -> bool {
        self.wallclock().len() > 0 && now >= self.wallclock()[0].0
    }

    /// How long the service should wait when deadlines are stored but none
    /// is due. A pending wall-clock deadline caps the wait, so that a
    /// system-clock jump is noticed soon; with only monotonic deadlines the
    /// wait runs to the earliest of them.
    pub open spec fn wait_span(&self, now_monotonic: u64, now_wallclock: u64) -> u64 {
        let base: u64 = if self.monotonic().len() > 0 {
            (self.monotonic()[0].0 - now_monotonic) as u64
        } else {
            u64::MAX
        };
        if self.wallclock().len() > 0 {
            let wall: u64 = (self.wallclock()[0].0 - now_wallclock) as u64;
            let least: u64 = if base <= wall {
                base
            } else {
                wall
            };
            if least <= WALLCLOCK_RECHECK_CAP_NANOS {
                least
            } else {
                WALLCLOCK_RECHECK_CAP_NANOS
            }
        } else {
            base
        }
    }

    pub fn new() -> (r: Self)
        ensures
            r.wf(),
            r.monotonic() == Seq::<(u64, usize, V)>::empty(),
            r.wallclock() == Seq::<(u64, usize, V)>::empty(),
            !r.running(),
    {
        TimerData {
            actions_monotonic: BTreeMultiMap::new(),
            actions_wallclock: BTreeMultiMap::new(),
            is_running: false,
        }
    }

    pub fn is_running(&self) -> (r: bool)
        ensures
            r == self.running(),
    {
        self.is_running
    }

    pub fn set_running(&mut self, running: bool)
        ensures
            final(self).running() == running,
            final(self).monotonic() == old(self).monotonic(),
            final(self).wallclock() == old(self).wallclock(),
    {
        self.is_running = running;
    }

    /// One decision of the service loop: invoke the earliest due monotonic
    /// action; failing that, the earliest due wall-clock action; failing
    /// that, say how long to wait — going idle exactly when nothing at all
    /// is stored.
    pub fn step(&mut self, now_monotonic: u64, now_wallclock: u64) -> (r: TimerStep<V>)
        requires
            old(self).wf(),
        ensures
            final(self).wf(),
            final(self).running() == old(self).running(),
            old(self).monotonic_due(now_monotonic) ==> {
                &&& r == TimerStep::Call(old(self).monotonic()[0].2)
                &&& final(self).monotonic() == old(self).monotonic().remove(0)
                &&& final(self).wallclock() == old(self).wallclock()
            },
            !old(self).monotonic_due(now_monotonic) && old(self).wallclock_due(now_wallclock)
                ==> {
                &&& r == TimerStep::Call(old(self).wallclock()[0].2)
                &&& final(self).wallclock() == old(self).wallclock().remove(0)
                &&& final(self).monotonic() == old(self).monotonic()
            },
            !old(self).monotonic_due(now_monotonic) && !old(self).wallclock_due(now_wallclock)
                ==> {
                &&& final(self).monotonic() == old(self).monotonic()
                &&& final(self).wallclock() == old(self).wallclock()
                &&& (r == TimerStep::<V>::Idle <==> (old(self).monotonic().len() == 0 && old(
                    self,
                ).wallclock().len() == 0))
                &&& (old(self).monotonic().len() > 0 || old(self).wallclock().len() > 0) ==> r
                    == TimerStep::<V>::Wait(old(self).wait_span(now_monotonic, now_wallclock))
            },
    {
        let mut next: u64 = u64::MAX;
        let mut stored = false;
        match self.actions_monotonic.first_key_id() {
            Some((key, id)) => {
                if now_monotonic >= key {
                    let removed = self.actions_monotonic.remove(key, id);
                    match removed {
                        Some(action) => {
                            proof {
                                lemma_first_removal(old(self).monotonic(), key, id);
                            }
                            return TimerStep::Call(action);
                        },
                        None => {
                            proof {
                                assert(has_entry(old(self).monotonic(), key, id));
                            }
                            vstd::pervasive::unreached()
                        },
                    }
                }
                next = key - now_monotonic;
                stored = true;
            },
            None => {},
        }
        match self.actions_wallclock.first_key_id() {
            Some((key, id)) => {
                if now_wallclock >= key {
                    let removed = self.actions_wallclock.remove(key, id);
                    match removed {
                        Some(action) => {
                            proof {
                                lemma_first_removal(old(self).wallclock(), key, id);
                            }
                            return TimerStep::Call(action);
                        },
                        None => {
                            proof {
                                assert(has_entry(old(self).wallclock(), key, id));
                            }
                            vstd::pervasive::unreached()
                        },
                    }
                }
                let wall = key - now_wallclock;
                if wall < next {
                    next = wall;
                }
                if next > WALLCLOCK_RECHECK_CAP_NANOS {
                    next = WALLCLOCK_RECHECK_CAP_NANOS;
                }
                stored = true;
            },
            None => {},
        }
        if stored {
            TimerStep::Wait(next)
        } else {
            TimerStep::Idle
        }
    }

    /// Stores an action under its deadline. Returns the id that makes the
    /// entry removable, and whether the stored deadline is now the earliest
    /// of its clock — in that case the service thread must be signalled or
    /// started.
    pub fn spawn_at(&mut self, action: V, at: AnyTime) -> (r: (usize, bool))
        requires
            old(self).wf(),
        ensures
            final(self).wf(),
            final(self).running() == old(self).running(),
            at matches AnyTime::Monotonic(t) ==> {
                &&& final(self).wallclock() == old(self).wallclock()
                &&& r.1 == (old(self).monotonic().len() == 0 || t < old(self).monotonic()[0].0)
                &&& !has_entry(old(self).monotonic(), t, r.0)
                &&& exists|pos: int|
                    0 <= pos <= old(self).monotonic().len() && final(self).monotonic() == old(
                        self,
                    ).monotonic().insert(pos, (t, r.0, action))
            },
            at matches AnyTime::Wallclock(t) ==> {
                &&& final(self).monotonic() == old(self).monotonic()
                &&& r.1 == (old(self).wallclock().len() == 0 || t < old(self).wallclock()[0].0)
                &&& !has_entry(old(self).wallclock(), t, r.0)
                &&& exists|pos: int|
                    0 <= pos <= old(self).wallclock().len() && final(self).wallclock() == old(
                        self,
                    ).wallclock().insert(pos, (t, r.0, action))
            },
    {
        match at {
            AnyTime::Monotonic(t) => {
                let wake = is_wake_with(&self.actions_monotonic, t);
                let id = self.actions_monotonic.insert(t, action);
                (id, wake)
            },
            AnyTime::Wallclock(t) => {
                let wake = is_wake_with(&self.actions_wallclock, t);
                let id = self.actions_wallclock.insert(t, action);
                (id, wake)
            },
        }
    }

    /// Removes a stored entry; a no-op when the action already fired.
    /// Returns whether both maps are now empty, in which case the service
    /// thread is signalled so it can check its idle window.
    pub fn cancel(&mut self, at: AnyTime, id: usize) -> (both_empty: bool)
        requires
            old(self).wf(),
        ensures
            final(self).wf(),
            final(self).running() == old(self).running(),
            at matches AnyTime::Monotonic(t) ==> {
                &&& final(self).wallclock() == old(self).wallclock()
                &&& !has_entry(final(self).monotonic(), t, id)
                &&& (has_entry(old(self).monotonic(), t, id) ==> exists|j: int|
                    #![auto]
                    0 <= j < old(self).monotonic().len() && old(self).monotonic()[j].0 == t && old(
                        self,
                    ).monotonic()[j].1 == id && final(self).monotonic() == old(
                        self,
                    ).monotonic().remove(j))
                &&& (!has_entry(old(self).monotonic(), t, id) ==> final(self).monotonic() == old(
                    self,
                ).monotonic())
            },
            at matches AnyTime::Wallclock(t) ==> {
                &&& final(self).monotonic() == old(self).monotonic()
                &&& !has_entry(final(self).wallclock(), t, id)
                &&& (has_entry(old(self).wallclock(), t, id) ==> exists|j: int|
                    #![auto]
                    0 <= j < old(self).wallclock().len() && old(self).wallclock()[j].0 == t && old(
                        self,
                    ).wallclock()[j].1 == id && final(self).wallclock() == old(
                        self,
                    ).wallclock().remove(j))
                &&& (!has_entry(old(self).wallclock(), t, id) ==> final(self).wallclock() == old(
                    self,
                ).wallclock())
            },
            both_empty == (final(self).monotonic().len() == 0 && final(self).wallclock().len()
                == 0),
    {
        match at {
            AnyTime::Monotonic(t) => {
                let removed = self.actions_monotonic.remove(t, id);
                proof {
                    if has_entry(old(self).monotonic(), t, id) {
                        let j = choose|j: int|
                            #![auto]
                            0 <= j < old(self).monotonic().len() && old(self).monotonic()[j] == (
                            t,
                            id,
                            removed.unwrap(),
                            ) && self.monotonic() == old(self).monotonic().remove(j);
                        lemma_removed_entry_gone(old(self).monotonic(), j, t, id);
                    }
                }
            },
            AnyTime::Wallclock(t) => {
                let removed = self.actions_wallclock.remove(t, id);
                proof {
                    if has_entry(old(self).wallclock(), t, id) {
                        let j = choose|j: int|
                            #![auto]
                            0 <= j < old(self).wallclock().len() && old(self).wallclock()[j] == (
                            t,
                            id,
                            removed.unwrap(),
                            ) && self.wallclock() == old(self).wallclock().remove(j);
                        lemma_removed_entry_gone(old(self).wallclock(), j, t, id);
                    }
                }
            },
        }
        self.actions_monotonic.is_empty() && self.actions_wallclock.is_empty()
    }
}

/// Whether the service thread has sat unused for the whole idle window and
/// may mark itself stopped.
pub fn idle_window_elapsed(now_monotonic: u64, last_used: u64) -> (r: bool)
    requires
        last_used <= now_monotonic,
    ensures
        r == (now_monotonic - last_used >= IDLE_WINDOW_NANOS),
{
    now_monotonic - last_used >= IDLE_WINDOW_NANOS
}

/// Whether storing a deadline `at` would make it the earliest of its map,
/// so that the waiting service thread must be woken to re-check.
pub fn is_wake_with<V>(actions: &BTreeMultiMap<V>, at: u64) -> (r: bool)
    requires
        actions.wf(),
    ensures
        r == (actions.view().len() == 0 || at < actions.view()[0].0),
{
    match actions.first_key() {
        Some(key) => at < key,
        None => true,
    }
}

/// In a strictly sorted entry sequence, removing the first entry is the
/// same as removing any entry that carries the first entry's key and id.
proof fn lemma_first_removal<V>(s: Seq<(u64, usize, V)>, key: u64, id: usize)
    requires
        forall|i: int, j: int| 0 <= i < j < s.len() ==> entry_lt(s[i], s[j]),
        s.len() > 0,
        s[0].0 == key,
        s[0].1 == id,
    ensures
        forall|j: int|
            #![auto]
            0 <= j < s.len() && s[j].0 == key && s[j].1 == id ==> j == 0 && s.remove(j)
                == s.remove(0),
{
    assert forall|j: int| #![auto] 0 <= j < s.len() && s[j].0 == key && s[j].1 == id implies j == 0
        && s.remove(j) == s.remove(0) by {
        if j > 0 {
            assert(entry_lt(s[0], s[j]));
        }
    }
}

/// Cancellation: once a timer entry is removed, no entry with its key and
/// id remains, so no later service step — which only ever returns an entry
/// still present in a map — can invoke its action.
pub proof fn lemma_cancelled_never_fires<V>(s: Seq<(u64, usize, V)>, j: int, key: u64, id: usize)
    requires
        forall|i1: int, i2: int| 0 <= i1 < i2 < s.len() ==> entry_lt(s[i1], s[i2]),
        0 <= j < s.len(),
        s[j].0 == key,
        s[j].1 == id,
    ensures
        !has_entry(s.remove(j), key, id),
{
    lemma_removed_entry_gone(s, j, key, id);
}

/// Removing the one entry that carries a key and id leaves no entry with
/// that key and id behind.
proof fn lemma_removed_entry_gone<V>(s: Seq<(u64, usize, V)>, j: int, key: u64, id: usize)
    requires
        forall|i1: int, i2: int| 0 <= i1 < i2 < s.len() ==> entry_lt(s[i1], s[i2]),
        0 <= j < s.len(),
        s[j].0 == key,
        s[j].1 == id,
    ensures
        !has_entry(s.remove(j), key, id),
{
    s.remove_ensures(j);
    assert forall|idx: int|
        0 <= idx < s.remove(j).len() implies !(s.remove(j)[idx].0 == key && s.remove(j)[idx].1
        == id) by {
        if idx < j {
            assert(s.remove(j)[idx] == s[idx]);
            assert(entry_lt(s[idx], s[j]));
        } else {
            assert(s.remove(j)[idx] == s[idx + 1]);
            assert(entry_lt(s[j], s[idx + 1]));
        }
    }
}

} // verus!
