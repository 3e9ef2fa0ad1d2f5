use crate::state_container::{wake_transition, Poll, StateContext, StateKey};
use crate::utils::usize_set::insert_transition;
use std::collections::VecDeque;
use vstd::prelude::*;

verus! {

/// A queue for use inside the state behind a container.
///
/// When the queue is empty and an attempt is made to retrieve a value, the
/// queue registers itself as a dependency of the evaluation. When an item
/// is pushed into an empty queue, it notifies its dependents.
pub struct Queue<T> {
    items: VecDeque<T>,
    key: StateKey,
}

impl<T> Queue<T> {
    /// The queued items, front first.
    pub closed spec fn items_spec(&self) -> Seq<T> {
        self.items@
    }

    /// The source key that identifies this queue in the graph.
    pub closed spec fn key_spec(&self) -> StateKey {
        self.key
    }

    /// The id of this queue's source node.
    pub open spec fn key_id(&self) -> usize {
        self.key_spec().id()
    }

    /// Creates a new empty queue around a fresh source key.
    pub fn new<V>(cx: &mut StateContext<V>) -> (r: Self)
        requires
            old(cx).wf(),
        ensures
            final(cx).wf(),
            r.items_spec() == Seq::<T>::empty(),
            r.key_spec().live(final(cx)),
            !old(cx).graph().sources().contains(r.key_id()),
            final(cx).graph().sources() == old(cx).graph().sources().insert(r.key_id()),
            final(cx).graph().targets() == old(cx).graph().targets(),
            final(cx).graph().edges() == old(cx).graph().edges(),
            final(cx).accum() == old(cx).accum(),
            final(cx).deadline() == old(cx).deadline(),
            final(cx).pending_actions() == old(cx).pending_actions(),
            forall|y: int| final(cx).waker_slot(y) == old(cx).waker_slot(y),
    {
        let key = StateKey::new(cx);
        Queue { items: VecDeque::new(), key }
    }

    /// Appends an item. If the queue was empty before the push, its
    /// dependents are notified that something arrived; otherwise nothing in
    /// the context moves.
    pub fn push<V>(&mut self, item: T, cx: &mut StateContext<V>)
        requires
            old(cx).wf(),
        ensures
            final(cx).wf(),
            final(self).items_spec() == old(self).items_spec().push(item),
            final(self).key_spec() == old(self).key_spec(),
            old(self).items_spec().len() == 0 ==> wake_transition(
                *old(cx),
                *final(cx),
                old(self).key_id(),
            ),
            old(self).items_spec().len() > 0 ==> *final(cx) == *old(cx),
    {
        if self.items.len() == 0 {
            self.key.notify(cx);
        }
        self.items.push_back(item);
    }

    /// Gives up the queue's source key for teardown, dropping any queued
    /// items; the owner hands the key back to the container for removal.
    pub fn into_key(self) -> (r: StateKey)
        ensures
            r == self.key_spec(),
    {
        let Queue { items: _, key } = self;
        key
    }

    /// Takes the front item when there is one; an empty queue registers
    /// itself as a dependency and reports pending.
    pub fn pop<V>(&mut self, cx: &mut StateContext<V>) -> (r: Poll<T>)
        requires
            old(cx).wf(),
        ensures
            final(cx).wf(),
            final(self).key_spec() == old(self).key_spec(),
            old(self).items_spec().len() > 0 ==> {
                &&& r == Poll::Ready(old(self).items_spec()[0])
                &&& final(self).items_spec() == old(self).items_spec().skip(1)
                &&& *final(cx) == *old(cx)
            },
            old(self).items_spec().len() == 0 ==> {
                &&& r is Pending
                &&& final(self).items_spec() == old(self).items_spec()
                &&& pending_watch_effect(*old(cx), *final(cx), old(self).key_id())
            },
    {
        match self.items.pop_front() {
            Some(item) => {
                proof {
                    assert(self.items@ =~= old(self).items_spec().skip(1));
                }
                Poll::Ready(item)
            },
            None => {
                self.key.watch(cx);
                Poll::Pending
            },
        }
    }
}

/// What registering a dependency on pending does to the context: the key
/// joins the accumulator and everything else stays put.
pub open spec fn pending_watch_effect<V>(
    pre: StateContext<V>,
    post: StateContext<V>,
    k: usize,
) -> bool {
    &&& insert_transition(pre.accum(), post.accum(), k)
    &&& post.accum().contains(k)
    &&& post.graph() == pre.graph()
    &&& post.deadline() == pre.deadline()
    &&& post.pending_actions() == pre.pending_actions()
    &&& forall|y: int| post.waker_slot(y) == pre.waker_slot(y)
}

/// A detached drain buffer for a queue: fetching swaps the queue's whole
/// content into the reader, and draining the reader afterwards touches the
/// graph no further.
pub struct QueueReader<T> {
    items: VecDeque<T>,
}

impl<T> QueueReader<T> {
    /// The fetched items not yet drained, front first.
    pub closed spec fn items_spec(&self) -> Seq<T> {
        self.items@
    }

    /// Creates an empty reader.
    pub fn new() -> (r: Self)
        ensures
            r.items_spec() == Seq::<T>::empty(),
    {
        QueueReader { items: VecDeque::new() }
    }

    /// Makes items available to drain: ready at once while the reader still
    /// holds some, ready after swapping the queue's content in when the
    /// queue has any, and otherwise pending with a dependency registered on
    /// the queue.
    pub fn fetch<V>(&mut self, queue: &mut Queue<T>, cx: &mut StateContext<V>) -> (r: Poll<()>)
        requires
            old(cx).wf(),
        ensures
            final(cx).wf(),
            final(queue).key_spec() == old(queue).key_spec(),
            old(self).items_spec().len() > 0 ==> {
                &&& r == Poll::Ready(())
                &&& *final(self) == *old(self)
                &&& *final(queue) == *old(queue)
                &&& *final(cx) == *old(cx)
            },
            old(self).items_spec().len() == 0 && old(queue).items_spec().len() > 0 ==> {
                &&& r == Poll::Ready(())
                &&& final(self).items_spec() == old(queue).items_spec()
                &&& final(queue).items_spec() == Seq::<T>::empty()
                &&& *final(cx) == *old(cx)
            },
            old(self).items_spec().len() == 0 && old(queue).items_spec().len() == 0 ==> {
                &&& r is Pending
                &&& *final(self) == *old(self)
                &&& final(queue).items_spec() == old(queue).items_spec()
                &&& pending_watch_effect(*old(cx), *final(cx), old(queue).key_id())
            },
    {
        if self.items.len() > 0 {
            Poll::Ready(())
        } else if queue.items.len() > 0 {
            core::mem::swap(&mut self.items, &mut queue.items);
            Poll::Ready(())
        } else {
            queue.key.watch(cx);
            Poll::Pending
        }
    }

    /// Drains the next fetched item; draining never touches the graph.
    pub fn next(&mut self) -> (r: Option<T>)
        ensures
            old(self).items_spec().len() > 0 ==> r == Some(old(self).items_spec()[0]) && final(self).items_spec() == old(self).items_spec().skip(1),
            old(self).items_spec().len() == 0 ==> r is None && final(self).items_spec() == old(
                self,
            ).items_spec(),
    {
        let r = self.items.pop_front();
        proof {
            if old(self).items_spec().len() > 0 {
                assert(self.items@ =~= old(self).items_spec().skip(1));
            }
        }
        r
    }
}

/// The queue-reader round trip: two pushes into an empty queue, a fetch and
/// a drain hand the consumer exactly the two items in order, and a further
/// fetch on the now-empty pair reports pending after registering the queue
/// as a dependency.
pub proof fn lemma_queue_reader_round_trip<T>(
    q0: Seq<T>,
    a: T,
    b: T,
    fetched: Seq<T>,
    first: T,
    rest: Seq<T>,
    second: T,
    after: Seq<T>,
)
    requires
        q0.len() == 0,
        fetched == q0.push(a).push(b),
        first == fetched[0],
        rest == fetched.skip(1),
        second == rest[0],
        after == rest.skip(1),
    ensures
        first == a,
        second == b,
        after.len() == 0,
{
    assert(fetched =~= seq![a, b]);
    assert(rest =~= seq![b]);
    assert(after =~= Seq::<T>::empty());
}

} // verus!
