use std::collections::VecDeque;
use vstd::prelude::*;
use vstd::wrapping::usize_specs;

verus! {

/// A consumer's position in a `SharedQueue`, kept as a wrapped age so that
/// pruning the log never invalidates it.
pub struct SharedQueueCursor {
    age: usize,
}

impl SharedQueueCursor {
    pub closed spec fn age_spec(&self) -> usize {
        self.age
    }
}

/// A reading pass over a `SharedQueue`: it remembers where the cursor stood
/// when the pass began and how far it has advanced since.
pub struct SharedQueueReader {
    index_old: usize,
    index: usize,
}

impl SharedQueueReader {
    /// Where the pass began.
    pub closed spec fn start(&self) -> int {
        self.index_old as int
    }

    /// The next position the pass will hand out.
    pub closed spec fn at(&self) -> int {
        self.index as int
    }

    /// Hands out the value at the current position and advances, or nothing
    /// once the log's end is reached.
    pub fn pop<'a, T>(&mut self, queue: &'a SharedQueue<T>) -> (r: Option<&'a T>)
        requires
            0 <= old(self).at(),
        ensures
            final(self).start() == old(self).start(),
            old(self).at() < queue.values().len() ==> {
                &&& r matches Some(v) && *v == queue.values()[old(self).at()]
                &&& final(self).at() == old(self).at() + 1
            },
            old(self).at() >= queue.values().len() ==> r is None && final(self).at() == old(
                self,
            ).at(),
    {
        if self.index < queue.values.len() {
            let v = &queue.values[self.index];
            self.index += 1;
            Some(v)
        } else {
            None
        }
    }

    /// Hands out every remaining value up to the log's end: exactly the
    /// contiguous suffix of the log that starts at the pass's current
    /// position, in insertion order, each value at most once per pass.
    pub fn drain<'a, T>(&mut self, queue: &'a SharedQueue<T>) -> (r: Vec<&'a T>)
        requires
            0 <= old(self).at() <= queue.values().len(),
        ensures
            final(self).start() == old(self).start(),
            final(self).at() == queue.values().len(),
            r@.len() == queue.values().len() - old(self).at(),
            forall|i: int|
                0 <= i < r@.len() ==> *(#[trigger] r@[i]) == queue.values()[old(self).at() + i],
    {
        let mut r: Vec<&'a T> = Vec::new();
        while self.index < queue.values.len()
            invariant
                old(self).at() <= self.at() <= queue.values().len(),
                self.start() == old(self).start(),
                r@.len() == self.at() - old(self).at(),
                forall|i: int|
                    0 <= i < r@.len() ==> *(#[trigger] r@[i]) == queue.values()[old(self).at()
                        + i],
            decreases queue.values().len() - self.at(),
        {
            let ghost prev = r@;
            let v = &queue.values[self.index];
            self.index += 1;
            r.push(v);
            proof {
                assert forall|i: int|
                    0 <= i < r@.len() implies *(#[trigger] r@[i]) == queue.values()[old(self).at()
                        + i] by {
                    if i < r@.len() - 1 {
                        assert(r@[i] == prev[i]);
                    } else {
                        assert(r@[i] == v);
                    }
                }
            }
        }
        r
    }
}

/// An append-only log shared by several consumers. Each position carries a
/// reference count of the cursors standing on it (one extra slot counts the
/// cursors at the end), and the prefix that no cursor can reach any more is
/// pruned away.
pub struct SharedQueue<T> {
    values: VecDeque<T>,
    ref_counts: Vec<usize>,
    age_base: usize,
}

/// Describes the prefix that pruning removes: `k` zero-count positions,
/// stopping at the first retained one (or at the end of the values).
pub open spec fn pruned_to(rcs: Seq<usize>, vlen: int, k: int) -> bool {
    &&& 0 <= k <= vlen
    &&& forall|j: int| 0 <= j < k ==> rcs[j] == 0
    &&& (k == vlen || rcs[k] > 0)
}

/// The counts with position `i` counted once more.
pub open spec fn inc_at(rcs: Seq<usize>, i: int) -> Seq<usize> {
    rcs.update(i, (rcs[i] + 1) as usize)
}

/// The counts with position `i` counted once less.
pub open spec fn dec_at(rcs: Seq<usize>, i: int) -> Seq<usize> {
    rcs.update(i, (rcs[i] - 1) as usize)
}

/// After a decrement, the log holds the old values and counts with the
/// unreachable prefix of `k` positions pruned away and the base advanced by
/// as much.
pub open spec fn prune_result<T>(
    pre: SharedQueue<T>,
    post: SharedQueue<T>,
    mid: Seq<usize>,
    k: int,
) -> bool {
    &&& pruned_to(mid, pre.values().len() as int, k)
    &&& post.values() == pre.values().skip(k)
    &&& post.rcs() == mid.skip(k)
    &&& post.base() == usize_specs::wrapping_add(pre.base(), k as usize)
}

impl<T> SharedQueue<T> {
    /// The retained values, oldest first.
    pub closed spec fn values(&self) -> Seq<T> {
        self.values@
    }

    /// The per-position cursor counts; the last entry counts the cursors at
    /// the end of the log.
    pub closed spec fn rcs(&self) -> Seq<usize> {
        self.ref_counts@
    }

    /// The wrapped age of the oldest retained position.
    pub closed spec fn base(&self) -> usize {
        self.age_base
    }

    /// One count slot per value plus the end slot; a non-empty log always
    /// retains its front for some cursor.
    pub open spec fn wf(&self) -> bool {
        &&& self.rcs().len() == self.values().len() + 1
        &&& (self.values().len() > 0 ==> self.rcs()[0] > 0)
    }

    /// The position of `c` in this log.
    pub open spec fn pos(&self, c: SharedQueueCursor) -> int {
        usize_specs::wrapping_sub(c.age_spec(), self.base()) as int
    }

    /// A cursor whose position lies in the log and is counted there.
    pub open spec fn valid_cursor(&self, c: SharedQueueCursor) -> bool {
        &&& 0 <= self.pos(c) <= self.values().len()
        &&& self.rcs()[self.pos(c)] >= 1
    }

    pub fn new() -> (r: Self)
        ensures
            r.wf(),
            r.values() == Seq::<T>::empty(),
            r.rcs() == seq![0usize],
            r.base() == 0,
    {
        let r = SharedQueue { values: VecDeque::new(), ref_counts: vec![0], age_base: 0 };
        proof {
            assert(r.rcs() =~= seq![0usize]);
        }
        r
    }

    fn end_age(&self) -> (r: usize)
        ensures
            r == usize_specs::wrapping_add(self.base(), self.values().len() as usize),
    {
        self.age_base.wrapping_add(self.values.len())
    }

    fn age_to_index(&self, age: usize) -> (r: usize)
        ensures
            r == usize_specs::wrapping_sub(age, self.base()),
    {
        age.wrapping_sub(self.age_base)
    }

    fn increment_ref_count(&mut self, index: usize)
        requires
            index < old(self).rcs().len(),
            old(self).rcs()[index as int] < usize::MAX,
        ensures
            final(self).values() == old(self).values(),
            final(self).base() == old(self).base(),
            final(self).rcs() == old(self).rcs().update(
                index as int,
                (old(self).rcs()[index as int] + 1) as usize,
            ),
    {
        let c = self.ref_counts[index];
        self.ref_counts[index] = c + 1;
    }

    fn decrement_ref_count(&mut self, index: usize)
        requires
            old(self).rcs().len() == old(self).values().len() + 1,
            index < old(self).rcs().len(),
            old(self).rcs()[index as int] >= 1,
        ensures
            final(self).wf(),
            exists|k: int|
                prune_result(
                    *old(self),
                    *final(self),
                    dec_at(old(self).rcs(), index as int),
                    k,
                ),
    {
        let ghost mid = dec_at(old(self).rcs(), index as int);
        let ghost vlen = old(self).values().len() as int;
        let c = self.ref_counts[index];
        self.ref_counts[index] = c - 1;
        proof {
            assert(self.rcs() == mid);
            assert(self.values() == old(self).values());
            lemma_wadd_zero(old(self).base());
        }
        let current_len = self.values.len();
        proof {
            assert(vlen == current_len as int);
        }
        let ghost mut k: int = 0;
        while self.values.len() > 0 && self.ref_counts[0] == 0
            invariant
                0 <= k <= vlen,
                vlen == old(self).values().len(),
                vlen <= usize::MAX,
                mid.len() == vlen + 1,
                self.values() == old(self).values().skip(k),
                self.rcs() == mid.skip(k),
                self.base() == usize_specs::wrapping_add(old(self).base(), k as usize),
                forall|j: int| 0 <= j < k ==> mid[j] == 0,
            decreases vlen - k,
        {
            proof {
                assert(mid.skip(k)[0] == mid[k]);
            }
            self.values.pop_front();
            self.ref_counts.remove(0);
            let ghost prev_base = self.age_base;
            self.age_base = self.age_base.wrapping_add(1);
            proof {
                assert(self.values() =~= old(self).values().skip(k + 1));
                assert(self.rcs() =~= mid.skip(k + 1));
                lemma_wadd_step(old(self).base(), k as usize);
                k = k + 1;
            }
        }
        proof {
            if self.values.len() > 0 {
                assert(self.rcs()[0] == mid.skip(k)[0]);
                assert(k < vlen);
            }
            assert(pruned_to(mid, vlen, k));
            assert(prune_result(*old(self), *self, mid, k));
        }
    }

    /// How many values the log retains.
    pub fn values_len(&self) -> (r: usize)
        ensures
            r == self.values().len(),
    {
        self.values.len()
    }

    /// How many count slots the log keeps: one per value plus the end slot.
    pub fn ref_counts_len(&self) -> (r: usize)
        ensures
            r == self.rcs().len(),
    {
        self.ref_counts.len()
    }

    /// Makes room for `additional` further values.
    pub fn reserve(&mut self, additional: usize)
        ensures
            final(self).values() == old(self).values(),
            final(self).rcs() == old(self).rcs(),
            final(self).base() == old(self).base(),
    {
        self.values.reserve(additional);
    }

    /// Creates a cursor standing at the current end of the log, so that it
    /// observes only values pushed from now on.
    pub fn create_cursor(&mut self) -> (c: SharedQueueCursor)
        requires
            old(self).wf(),
            old(self).rcs()[old(self).values().len() as int] < usize::MAX,
        ensures
            final(self).wf(),
            final(self).values() == old(self).values(),
            final(self).base() == old(self).base(),
            final(self).rcs() == old(self).rcs().update(
                old(self).values().len() as int,
                (old(self).rcs()[old(self).values().len() as int] + 1) as usize,
            ),
            final(self).valid_cursor(c),
            final(self).pos(c) == old(self).values().len(),
    {
        let len = self.values.len();
        self.increment_ref_count(len);
        let age = self.end_age();
        proof {
            lemma_wrap_roundtrip(self.base(), self.values().len() as usize);
        }
        SharedQueueCursor { age }
    }

    /// Gives a cursor back: its position stops being counted and the log
    /// prunes whatever no remaining cursor can reach.
    pub fn drop_cursor(&mut self, cursor: SharedQueueCursor)
        requires
            old(self).wf(),
            old(self).valid_cursor(cursor),
        ensures
            final(self).wf(),
            exists|k: int|
                prune_result(
                    *old(self),
                    *final(self),
                    dec_at(old(self).rcs(), old(self).pos(cursor)),
                    k,
                ),
    {
        let index = self.age_to_index(cursor.age);
        self.decrement_ref_count(index);
    }

    /// Appends a value, except when nothing could ever read it: an empty log
    /// with no cursor at its end swallows pushes.
    pub fn push(&mut self, value: T)
        requires
            old(self).wf(),
        ensures
            final(self).wf(),
            final(self).base() == old(self).base(),
            (old(self).values().len() == 0 && old(self).rcs()[0] == 0) ==> {
                &&& final(self).values() == old(self).values()
                &&& final(self).rcs() == old(self).rcs()
            },
            !(old(self).values().len() == 0 && old(self).rcs()[0] == 0) ==> {
                &&& final(self).values() == old(self).values().push(value)
                &&& final(self).rcs() == old(self).rcs().push(0usize)
            },
    {
        if self.values.len() == 0 && self.ref_counts[0] == 0 {
            return ;
        }
        self.values.push_back(value);
        self.ref_counts.push(0);
    }

    /// Begins a reading pass at the cursor's position.
    pub fn read(&self, cursor: &SharedQueueCursor) -> (r: SharedQueueReader)
        requires
            self.wf(),
            self.valid_cursor(*cursor),
        ensures
            r.start() == self.pos(*cursor),
            r.at() == self.pos(*cursor),
    {
        let index = self.age_to_index(cursor.age);
        SharedQueueReader { index_old: index, index }
    }

    /// Ends a reading pass: the cursor advances to where the pass stopped,
    /// the pass's old position stops being counted, and unreachable values
    /// are pruned.
    pub fn commit_read(&mut self, cursor: &mut SharedQueueCursor, reader: SharedQueueReader)
        requires
            old(self).wf(),
            old(self).valid_cursor(*old(cursor)),
            reader.start() == old(self).pos(*old(cursor)),
            reader.start() <= reader.at() <= old(self).values().len(),
            old(self).rcs()[reader.at()] < usize::MAX,
        ensures
            final(self).wf(),
            final(self).valid_cursor(*final(cursor)),
            exists|k: int|
                #![trigger prune_result(
                    *old(self),
                    *final(self),
                    dec_at(inc_at(old(self).rcs(), reader.at()), reader.start()),
                    k,
                )]
                {
                    &&& prune_result(
                        *old(self),
                        *final(self),
                        dec_at(inc_at(old(self).rcs(), reader.at()), reader.start()),
                        k,
                    )
                    &&& k <= reader.at()
                    &&& final(self).pos(*final(cursor)) == reader.at() - k
                },
    {
        let new_age = self.age_base.wrapping_add(reader.index);
        cursor.age = new_age;
        self.increment_ref_count(reader.index);
        let ghost up = self.rcs();
        let ghost pre_dec = *self;
        self.decrement_ref_count(reader.index_old);
        proof {
            assert(up == inc_at(old(self).rcs(), reader.at()));
            let mid = dec_at(up, reader.start());
            let k = choose|k: int| prune_result(pre_dec, *self, mid, k);
            assert(prune_result(pre_dec, *self, mid, k));
            assert(prune_result(*old(self), *self, mid, k));
            assert(mid[reader.at()] >= 1);
            assert(k <= reader.at());
            lemma_wrap_roundtrip(old(self).base(), reader.index);
            lemma_wrap_shift(old(self).base(), new_age, k as usize);
            assert(self.pos(*cursor) == reader.at() - k);
            assert(self.rcs()[self.pos(*cursor)] == mid[reader.at()]);
        }
    }
}

/// Subtracting the base after adding it gives the index back, wrapping or
/// not.
proof fn lemma_wrap_roundtrip(base: usize, i: usize)
    ensures
        usize_specs::wrapping_sub(usize_specs::wrapping_add(base, i), base) == i,
{
}

/// Adding nothing changes nothing.
proof fn lemma_wadd_zero(base: usize)
    ensures
        usize_specs::wrapping_add(base, 0) == base,
{
}

/// Advancing the base one step at a time agrees with advancing it at once.
proof fn lemma_wadd_step(base: usize, k: usize)
    requires
        k < usize::MAX,
    ensures
        usize_specs::wrapping_add(usize_specs::wrapping_add(base, k), 1) == usize_specs::wrapping_add(
            base,
            (k + 1) as usize,
        ),
{
}

/// Pruning `k` positions moves every position at or past `k` down by `k`.
proof fn lemma_wrap_shift(base: usize, age: usize, k: usize)
    requires
        usize_specs::wrapping_sub(age, base) >= k,
    ensures
        usize_specs::wrapping_sub(age, usize_specs::wrapping_add(base, k))
            == usize_specs::wrapping_sub(age, base) - k,
{
}

/// The values a pass delivers form a contiguous run of the log in insertion
/// order, and a later pass resumes exactly where an earlier one stopped,
/// pruning only shifting positions, never content.
pub proof fn lemma_event_order<T>(v: Seq<T>, k: int, a: int, b: int)
    requires
        0 <= k <= a <= b <= v.len(),
    ensures
        v.skip(k).subrange(a - k, b - k) == v.subrange(a, b),
{
    assert(v.skip(k).subrange(a - k, b - k) =~= v.subrange(a, b));
}

/// A cursor taken at the end of the log observes exactly what is appended
/// afterwards, and nothing of what was sent before.
pub proof fn lemma_late_cursor<T>(pre: Seq<T>, appended: Seq<T>)
    ensures
        (pre + appended).skip(pre.len() as int) == appended,
        (pre + appended).subrange(0, pre.len() as int) == pre,
{
    assert((pre + appended).skip(pre.len() as int) =~= appended);
    assert((pre + appended).subrange(0, pre.len() as int) =~= pre);
}

/// In a well-formed log every retained value has a cursor position at or
/// before it, so it is still reachable; conversely pruning removes exactly
/// the prefix that no cursor position retains.
pub proof fn lemma_cursor_retention<T>(q: SharedQueue<T>, i: int)
    requires
        q.wf(),
        0 <= i < q.values().len(),
    ensures
        exists|j: int| 0 <= j <= i && q.rcs()[j] > 0,
{
    assert(q.rcs()[0] > 0);
}

} // verus!
