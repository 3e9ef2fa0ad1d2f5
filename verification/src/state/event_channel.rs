use crate::state_container::{wake_transition, StateContext, StateKey};
use crate::utils::shared_queue::{
    dec_at, prune_result, SharedQueue, SharedQueueCursor, SharedQueueReader,
};
use vstd::prelude::*;

verus! {

/// A run of `n` count slots that nobody holds yet.
pub open spec fn zero_counts(n: nat) -> Seq<usize> {
    Seq::new(n, |i: int| 0usize)
}

/// A broadcast channel inside the state: an append-only log with
/// reference-counted cursors, plus a source key. Every send notifies the
/// key — consumers keep their own positions, so emptiness plays no role.
pub struct EventChannel<T> {
    queue: SharedQueue<T>,
    key: StateKey,
}

impl<T> EventChannel<T> {
    /// The shared log behind the channel.
    pub closed spec fn log(&self) -> SharedQueue<T> {
        self.queue
    }

    /// The source key that identifies this channel in the graph.
    pub closed spec fn key_spec(&self) -> StateKey {
        self.key
    }

    /// The id of this channel's source node.
    pub open spec fn key_id(&self) -> usize {
        self.key_spec().id()
    }

    pub open spec fn wf(&self) -> bool {
        self.log().wf()
    }

    /// Creates a channel with an empty log around a fresh source key.
    pub fn new<V>(cx: &mut StateContext<V>) -> (r: Self)
        requires
            old(cx).wf(),
        ensures
            final(cx).wf(),
            r.wf(),
            r.log().values() == Seq::<T>::empty(),
            r.log().rcs() == seq![0usize],
            r.key_spec().live(final(cx)),
            !old(cx).graph().sources().contains(r.key_id()),
            final(cx).graph().sources() == old(cx).graph().sources().insert(r.key_id()),
            final(cx).graph().targets() == old(cx).graph().targets(),
            final(cx).graph().edges() == old(cx).graph().edges(),
            final(cx).accum() == old(cx).accum(),
            final(cx).deadline() == old(cx).deadline(),
            final(cx).pending_actions() == old(cx).pending_actions(),
            forall|y: int| final(cx).waker_slot(y) == old(cx).waker_slot(y),
    {
        let key = StateKey::new(cx);
        EventChannel { queue: SharedQueue::new(), key }
    }

    /// Gives up the channel's source key for teardown, dropping the log;
    /// the owner hands the key back to the container for removal. Every
    /// cursor must have been given back first.
    pub fn into_key(self) -> (r: StateKey)
        ensures
            r == self.key_spec(),
    {
        let EventChannel { queue: _, key } = self;
        key
    }

    /// Appends one event and notifies the channel's dependents,
    /// unconditionally: consumers hold positions, not counts.
    pub fn send<V>(&mut self, value: T, cx: &mut StateContext<V>)
        requires
            old(cx).wf(),
            old(self).wf(),
        ensures
            final(cx).wf(),
            final(self).wf(),
            final(self).key_spec() == old(self).key_spec(),
            final(self).log().base() == old(self).log().base(),
            (old(self).log().values().len() == 0 && old(self).log().rcs()[0] == 0) ==> final(self).log().values() == old(self).log().values() && final(self).log().rcs() == old(
                self,
            ).log().rcs(),
            !(old(self).log().values().len() == 0 && old(self).log().rcs()[0] == 0) ==> final(self).log().values() == old(self).log().values().push(value) && final(self).log().rcs()
                == old(self).log().rcs().push(0usize),
            wake_transition(*old(cx), *final(cx), old(self).key_id()),
    {
        self.queue.push(value);
        self.key.notify(cx);
    }

    /// Appends a batch of events, then notifies once.
    pub fn send_all<V>(&mut self, values: Vec<T>, cx: &mut StateContext<V>)
        requires
            old(cx).wf(),
            old(self).wf(),
        ensures
            final(cx).wf(),
            final(self).wf(),
            final(self).key_spec() == old(self).key_spec(),
            final(self).log().base() == old(self).log().base(),
            (old(self).log().values().len() == 0 && old(self).log().rcs()[0] == 0) ==> final(self).log().values() == old(self).log().values() && final(self).log().rcs() == old(
                self,
            ).log().rcs(),
            !(old(self).log().values().len() == 0 && old(self).log().rcs()[0] == 0) ==> final(self).log().values() == old(self).log().values() + values@ && final(self).log().rcs()
                == old(self).log().rcs() + zero_counts(values@.len()),
            wake_transition(*old(cx), *final(cx), old(self).key_id()),
    {
        let ghost suppressed = old(self).log().values().len() == 0 && old(self).log().rcs()[0]
            == 0;
        let ghost all = values@;
        let mut values = values;
        let ghost mut k: int = 0;
        proof {
            assert(values@ =~= all.skip(0));
            assert(self.log().values() =~= old(self).log().values() + all.take(0));
        }
        while values.len() > 0
            invariant
                old(self).wf(),
                self.wf(),
                0 <= k <= all.len(),
                values@ == all.skip(k),
                self.key == old(self).key_spec(),
                self.log().base() == old(self).log().base(),
                suppressed == (old(self).log().values().len() == 0 && old(self).log().rcs()[0]
                    == 0),
                suppressed ==> self.log().values() == old(self).log().values()
                    && self.log().rcs() == old(self).log().rcs(),
                !suppressed ==> self.log().values() == old(self).log().values() + all.take(k),
                !suppressed ==> self.log().rcs() == old(self).log().rcs() + zero_counts(
                    k as nat,
                ),
            decreases values@.len(),
        {
            let value = values.remove(0);
            proof {
                assert(all.skip(k)[0] == all[k]);
                assert(values@ =~= all.skip(k + 1));
                if !suppressed {
                    assert(self.log().rcs()[0] == old(self).log().rcs()[0]);
                    assert(self.log().values().len() > 0 || self.log().rcs()[0] != 0);
                }
            }
            self.queue.push(value);
            proof {
                if !suppressed {
                    assert(self.log().values() =~= old(self).log().values() + all.take(k + 1));
                    assert(self.log().rcs() =~= old(self).log().rcs() + zero_counts(
                        (k + 1) as nat,
                    ));
                }
                k = k + 1;
            }
        }
        proof {
            if !suppressed {
                assert(all.skip(k).len() == 0);
                assert(k == all.len());
                assert(all.take(all.len() as int) =~= all);
            }
        }
        self.key.notify(cx);
    }

    /// Creates a cursor at the end of the log: the subscription it belongs
    /// to observes only events sent from now on.
    pub fn create_cursor(&mut self) -> (c: SharedQueueCursor)
        requires
            old(self).wf(),
            old(self).log().rcs()[old(self).log().values().len() as int] < usize::MAX,
        ensures
            final(self).wf(),
            final(self).key_spec() == old(self).key_spec(),
            final(self).log().values() == old(self).log().values(),
            final(self).log().base() == old(self).log().base(),
            final(self).log().rcs() == old(self).log().rcs().update(
                old(self).log().values().len() as int,
                (old(self).log().rcs()[old(self).log().values().len() as int] + 1) as usize,
            ),
            final(self).log().valid_cursor(c),
            final(self).log().pos(c) == old(self).log().values().len(),
    {
        self.queue.create_cursor()
    }

    /// Gives a cursor back when its subscription ends; events no remaining
    /// cursor can reach are pruned.
    pub fn drop_cursor(&mut self, cursor: SharedQueueCursor)
        requires
            old(self).wf(),
            old(self).log().valid_cursor(cursor),
        ensures
            final(self).wf(),
            final(self).key_spec() == old(self).key_spec(),
            exists|k: int|
                prune_result(
                    old(self).log(),
                    final(self).log(),
                    dec_at(old(self).log().rcs(), old(self).log().pos(cursor)),
                    k,
                ),
    {
        let ghost pre = self.queue;
        self.queue.drop_cursor(cursor);
        proof {
            let k = choose|k: int|
                prune_result(pre, self.queue, dec_at(pre.rcs(), pre.pos(cursor)), k);
            assert(prune_result(
                old(self).log(),
                self.log(),
                dec_at(old(self).log().rcs(), old(self).log().pos(cursor)),
                k,
            ));
        }
    }

    /// Begins a reading pass over the newly available events.
    pub fn read(&self, cursor: &SharedQueueCursor) -> (r: SharedQueueReader)
        requires
            self.wf(),
            self.log().valid_cursor(*cursor),
        ensures
            r.start() == self.log().pos(*cursor),
            r.at() == self.log().pos(*cursor),
    {
        self.queue.read(cursor)
    }

    /// Hands out the next newly available event, in insertion order.
    pub fn read_next<'a>(&'a self, reader: &mut SharedQueueReader) -> (r: Option<&'a T>)
        requires
            0 <= old(reader).at(),
        ensures
            final(reader).start() == old(reader).start(),
            old(reader).at() < self.log().values().len() ==> {
                &&& r matches Some(v) && *v == self.log().values()[old(reader).at()]
                &&& final(reader).at() == old(reader).at() + 1
            },
            old(reader).at() >= self.log().values().len() ==> r is None && final(reader).at()
                == old(reader).at(),
    {
        reader.pop(&self.queue)
    }

    /// Hands out every newly available event in one pass: the contiguous
    /// suffix of the log from the pass's position to its end, in insertion
    /// order, each event at most once.
    pub fn read_rest<'a>(&'a self, reader: &mut SharedQueueReader) -> (r: Vec<&'a T>)
        requires
            0 <= old(reader).at() <= self.log().values().len(),
        ensures
            final(reader).start() == old(reader).start(),
            final(reader).at() == self.log().values().len(),
            r@.len() == self.log().values().len() - old(reader).at(),
            forall|i: int|
                0 <= i < r@.len() ==> *(#[trigger] r@[i]) == self.log().values()[old(reader).at()
                    + i],
    {
        reader.drain(&self.queue)
    }

    /// Ends a reading pass: the cursor advances to where the pass stopped.
    pub fn commit_read(&mut self, cursor: &mut SharedQueueCursor, reader: SharedQueueReader)
        requires
            old(self).wf(),
            old(self).log().valid_cursor(*old(cursor)),
            reader.start() == old(self).log().pos(*old(cursor)),
            reader.start() <= reader.at() <= old(self).log().values().len(),
            old(self).log().rcs()[reader.at()] < usize::MAX,
        ensures
            final(self).wf(),
            final(self).key_spec() == old(self).key_spec(),
            final(self).log().valid_cursor(*final(cursor)),
            exists|k: int|
                #![trigger prune_result(
                    old(self).log(),
                    final(self).log(),
                    dec_at(
                        crate::utils::shared_queue::inc_at(old(self).log().rcs(), reader.at()),
                        reader.start(),
                    ),
                    k,
                )]
                {
                    &&& prune_result(
                        old(self).log(),
                        final(self).log(),
                        dec_at(
                            crate::utils::shared_queue::inc_at(old(self).log().rcs(), reader.at()),
                            reader.start(),
                        ),
                        k,
                    )
                    &&& k <= reader.at()
                    &&& final(self).log().pos(*final(cursor)) == reader.at() - k
                },
    {
        let ghost pre = self.queue;
        self.queue.commit_read(cursor, reader);
        proof {
            let mid = dec_at(
                crate::utils::shared_queue::inc_at(pre.rcs(), reader.at()),
                reader.start(),
            );
            let k = choose|k: int|
                prune_result(pre, self.queue, mid, k) && k <= reader.at() && self.queue.pos(
                    *cursor,
                ) == reader.at() - k;
            assert(prune_result(old(self).log(), self.log(), mid, k));
        }
    }

    /// Registers the channel as a dependency of the current evaluation, as
    /// a drained subscription does before reporting pending.
    pub fn watch<V>(&self, cx: &mut StateContext<V>)
        requires
            old(cx).wf(),
        ensures
            final(cx).wf(),
            crate::state::queue::pending_watch_effect(*old(cx), *final(cx), self.key_id()),
    {
        self.key.watch(cx);
    }
}

} // verus!
