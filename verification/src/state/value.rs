use crate::state_container::{wake_transition, StateContext, StateKey};
use crate::utils::usize_set::insert_transition;
use vstd::prelude::*;

verus! {

/// A tracked value: reading it registers a dependency, writing it wakes
/// every waiter whose last evaluation read it.
pub struct Value<T> {
    value: T,
    key: StateKey,
}

impl<T> Value<T> {
    /// The payload.
    pub closed spec fn value_spec(&self) -> T {
        self.value
    }

    /// The source key that identifies this value in the graph.
    pub closed spec fn key_spec(&self) -> StateKey {
        self.key
    }

    /// The id of this value's source node.
    pub open spec fn key_id(&self) -> usize {
        self.key_spec().id()
    }

    /// Builds a tracked value around a fresh source key.
    pub fn new<V>(value: T, cx: &mut StateContext<V>) -> (r: Self)
        requires
            old(cx).wf(),
        ensures
            final(cx).wf(),
            r.value_spec() == value,
            r.key_spec().live(final(cx)),
            !old(cx).graph().sources().contains(r.key_id()),
            final(cx).graph().sources() == old(cx).graph().sources().insert(r.key_id()),
            final(cx).graph().targets() == old(cx).graph().targets(),
            final(cx).graph().edges() == old(cx).graph().edges(),
            final(cx).accum() == old(cx).accum(),
            final(cx).deadline() == old(cx).deadline(),
            final(cx).pending_actions() == old(cx).pending_actions(),
            forall|y: int| final(cx).waker_slot(y) == old(cx).waker_slot(y),
    {
        let key = StateKey::new(cx);
        Value { value, key }
    }

    /// Reads the payload and registers this value as a dependency of the
    /// current evaluation.
    pub fn get<'a, V>(&'a self, cx: &mut StateContext<V>) -> (r: &'a T)
        requires
            old(cx).wf(),
        ensures
            final(cx).wf(),
            *r == self.value_spec(),
            insert_transition(old(cx).accum(), final(cx).accum(), self.key_id()),
            final(cx).accum().contains(self.key_id()),
            final(cx).graph() == old(cx).graph(),
            final(cx).deadline() == old(cx).deadline(),
            final(cx).pending_actions() == old(cx).pending_actions(),
            forall|y: int| final(cx).waker_slot(y) == old(cx).waker_slot(y),
    {
        self.key.watch(cx);
        &self.value
    }

    /// Replaces the payload, waking every waiter that read this value in
    /// its last evaluation.
    pub fn set<V>(&mut self, value: T, cx: &mut StateContext<V>)
        requires
            old(cx).wf(),
        ensures
            final(cx).wf(),
            final(self).value_spec() == value,
            final(self).key_spec() == old(self).key_spec(),
            wake_transition(*old(cx), *final(cx), old(self).key_id()),
    {
        self.key.notify(cx);
        self.value = value;
    }

    /// Takes the value apart for teardown: the payload and the source key,
    /// which the owner hands back to the container for removal.
    pub fn into_parts(self) -> (r: (T, StateKey))
        ensures
            r.0 == self.value_spec(),
            r.1 == self.key_spec(),
    {
        let Value { value, key } = self;
        (value, key)
    }

    /// Hands out the payload for mutation: current observers are woken
    /// eagerly, and the value is re-registered as a dependency because the
    /// caller may mutate it.
    pub fn get_mut<'a, V>(&'a mut self, cx: &mut StateContext<V>) -> (r: &'a mut T)
        requires
            old(cx).wf(),
        ensures
            final(cx).wf(),
            *r == old(self).value_spec(),
            final(self).value_spec() == *final(r),
            final(self).key_spec() == old(self).key_spec(),
            final(cx).graph() == old(cx).graph(),
            insert_transition(old(cx).accum(), final(cx).accum(), old(self).key_id()),
            final(cx).deadline() == old(cx).deadline(),
            forall|y: usize|
                #![auto]
                old(cx).graph().has_edge(old(self).key_id(), y) ==> final(cx).waker_slot(
                    y as int,
                ) is None,
            forall|y: usize|
                #![auto]
                !old(cx).graph().has_edge(old(self).key_id(), y) ==> final(cx).waker_slot(y as int)
                    == old(cx).waker_slot(y as int),
            forall|a: V|
                #![auto]
                final(cx).pending_actions().contains(a) <==> (old(cx).pending_actions().contains(a)
                    || crate::state_container::slot_wakeable(*old(cx), old(self).key_id(), a)),
    {
        self.key.notify(cx);
        let ghost mid = *cx;
        self.key.watch(cx);
        proof {
            let k = old(self).key_id();
            assert(crate::state_container::wake_transition(*old(cx), mid, k));
            assert(cx.pending_actions() == mid.pending_actions());
            assert forall|a: V|
                #![auto]
                cx.pending_actions().contains(a) <==> (old(cx).pending_actions().contains(a)
                    || crate::state_container::slot_wakeable(*old(cx), k, a)) by {
                assert(mid.pending_actions().contains(a) <==> (old(cx).pending_actions().contains(
                    a,
                ) || crate::state_container::slot_wakeable(*old(cx), k, a)));
            }
        }
        &mut self.value
    }
}

} // verus!
