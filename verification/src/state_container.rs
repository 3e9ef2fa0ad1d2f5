use crate::utils::bipartite_graph::{BipartiteGraph, XKey, YKey};
use crate::utils::inf_vec::InfVec;
use crate::utils::usize_set::{insert_transition, USizeSet};
use vstd::prelude::*;

verus! {

/// The outcome of polling: a value, or the promise of a later wake-up.
pub enum Poll<T> {
    Ready(T),
    Pending,
}

/// The merge of a newly requested deadline into the pending one: the
/// effective deadline is the earlier of the two.
pub open spec fn merged_deadline(current: Option<u64>, at: u64) -> Option<u64> {
    match current {
        Some(w) => if w <= at {
            Some(w)
        } else {
            Some(at)
        },
        None => Some(at),
    }
}

/// The dependency-tracking core that every evaluation runs against: the
/// source-to-target graph, one waker slot per target, the accumulator of
/// sources watched by the current evaluation, the pending deadline, and the
/// actions taken out of their slots, waiting to be invoked by the host once
/// the state is unlocked.
///
/// The action type is a parameter: the core stores, takes and hands back
/// actions without ever looking inside one.
pub struct StateContext<V> {
    g: BipartiteGraph,
    wakers: InfVec<V>,
    wake_at: Option<u64>,
    source_set: USizeSet,
    pending: Vec<V>,
}

impl<V> StateContext<V> {
    /// The dependency graph.
    pub closed spec fn graph(&self) -> BipartiteGraph {
        self.g
    }

    /// The action stored for target `y`, if any.
    pub closed spec fn waker_slot(&self, y: int) -> Option<V> {
        self.wakers.slot(y)
    }

    /// The source-set accumulator of the current evaluation.
    pub closed spec fn accum(&self) -> USizeSet {
        self.source_set
    }

    /// The earliest deadline requested during the current evaluation.
    pub closed spec fn deadline(&self) -> Option<u64> {
        self.wake_at
    }

    /// The actions taken out of their slots and not yet handed to the host.
    pub closed spec fn pending_actions(&self) -> Seq<V> {
        self.pending@
    }

    /// The graph and the accumulator are each well formed.
    pub open spec fn wf(&self) -> bool {
        &&& self.graph().wf()
        &&& self.accum().wf()
    }

    pub fn new() -> (r: Self)
        ensures
            r.wf(),
            r.graph().sources() == Set::<usize>::empty(),
            r.graph().targets() == Set::<usize>::empty(),
            r.graph().edges() == Map::<usize, (usize, usize)>::empty(),
            forall|y: int| r.waker_slot(y) is None,
            r.deadline() is None,
            r.accum().members() == Seq::<usize>::empty(),
            r.pending_actions() == Seq::<V>::empty(),
    {
        StateContext {
            g: BipartiteGraph::new(),
            wakers: InfVec::new(),
            wake_at: None,
            source_set: USizeSet::new(),
            pending: Vec::new(),
        }
    }

    /// Opens an evaluation: whatever deadline an earlier evaluation left
    /// behind is forgotten.
    pub fn begin_evaluation(&mut self)
        requires
            old(self).wf(),
        ensures
            final(self).wf(),
            final(self).deadline() is None,
            final(self).graph() == old(self).graph(),
            final(self).accum() == old(self).accum(),
            final(self).pending_actions() == old(self).pending_actions(),
            forall|y: int| final(self).waker_slot(y) == old(self).waker_slot(y),
    {
        self.wake_at = None;
    }

    /// Empties the source-set accumulator, as every dependency-registering
    /// evaluation does before it runs.
    pub fn clear_sources(&mut self)
        requires
            old(self).wf(),
        ensures
            final(self).wf(),
            final(self).accum().members() == Seq::<usize>::empty(),
            final(self).graph() == old(self).graph(),
            final(self).deadline() == old(self).deadline(),
            final(self).pending_actions() == old(self).pending_actions(),
            forall|y: int| final(self).waker_slot(y) == old(self).waker_slot(y),
    {
        self.source_set.clear();
    }

    /// Asks to be woken at `at`: the pending deadline becomes the earlier of
    /// the current one and `at`.
    pub fn notify_at(&mut self, at: u64)
        requires
            old(self).wf(),
        ensures
            final(self).wf(),
            final(self).deadline() == merged_deadline(old(self).deadline(), at),
            final(self).graph() == old(self).graph(),
            final(self).accum() == old(self).accum(),
            final(self).pending_actions() == old(self).pending_actions(),
            forall|y: int| final(self).waker_slot(y) == old(self).waker_slot(y),
    {
        match self.wake_at {
            Some(wake_at) => {
                if wake_at <= at {
                    return ;
                }
            },
            None => {},
        }
        self.wake_at = Some(at);
    }

    /// Whether a key still names a source that is present in the graph.
    pub fn source_live(&self, key: &StateKey) -> (r: bool)
        ensures
            r == key.live(self),
    {
        self.g.contains_x(key.x)
    }

    /// The deadline the current evaluation has asked for, if any.
    pub fn pending_deadline(&self) -> (r: Option<u64>)
        ensures
            r == self.deadline(),
    {
        self.wake_at
    }

    /// Hands the taken actions over to the host, which invokes them once the
    /// state is unlocked; the context keeps none of them.
    pub fn take_pending(&mut self) -> (r: Vec<V>)
        requires
            old(self).wf(),
        ensures
            final(self).wf(),
            r@ == old(self).pending_actions(),
            final(self).pending_actions() == Seq::<V>::empty(),
            final(self).graph() == old(self).graph(),
            final(self).accum() == old(self).accum(),
            final(self).deadline() == old(self).deadline(),
            forall|y: int| final(self).waker_slot(y) == old(self).waker_slot(y),
    {
        let mut r: Vec<V> = Vec::new();
        core::mem::swap(&mut r, &mut self.pending);
        r
    }
}

impl<V> StateContext<V> {
    /// Empties the slot of every target adjacent to `x` and keeps the taken
    /// actions for the host.
    fn wake(&mut self, x: XKey)
        requires
            old(self).wf(),
        ensures
            final(self).wf(),
            wake_transition(*old(self), *final(self), x.0),
    {
        let ys = self.g.ys_from_x(x);
        let mut i: usize = 0;
        while i < ys.len()
            invariant
                old(self).wf(),
                i <= ys@.len(),
                self.g == old(self).g,
                self.source_set == old(self).source_set,
                self.wake_at == old(self).wake_at,
                forall|yk: YKey| #[trigger] ys@.contains(yk) <==> old(self).g.has_edge(x.0, yk.0),
                forall|y: usize|
                    (exists|j: int| 0 <= j < i && (#[trigger] ys@[j]).0 == y) ==> self.wakers.slot(
                        y as int,
                    ) is None,
                forall|y: usize|
                    #![auto]
                    !(exists|j: int| 0 <= j < i && (#[trigger] ys@[j]).0 == y)
                        ==> self.wakers.slot(y as int) == old(self).wakers.slot(y as int),
                forall|a: V|
                    #![auto]
                    self.pending@.contains(a) <==> (old(self).pending@.contains(a) || exists|
                        j: int,
                    |
                        0 <= j < i && old(self).wakers.slot((#[trigger] ys@[j]).0 as int) == Some(
                            a,
                        )),
                self.pending@.len() >= old(self).pending@.len(),
                self.pending@.take(old(self).pending@.len() as int) == old(self).pending@,
                (forall|j: int|
                    0 <= j < i ==> old(self).wakers.slot((#[trigger] ys@[j]).0 as int) is None)
                    ==> self.pending@ == old(self).pending@,
            decreases ys@.len() - i,
        {
            let yk = ys[i];
            let taken = self.wakers.take(yk.0);
            let ghost pend_prev = self.pending@;
            let ghost slot_before = old(self).wakers.slot(yk.0 as int);
            let ghost was_processed = exists|j: int| 0 <= j < i && (#[trigger] ys@[j]).0 == yk.0;
            match taken {
                Some(a) => {
                    self.pending.push(a);
                    proof {
                        assert(!was_processed);
                        assert(slot_before == Some(a));
                        assert(self.pending@[self.pending@.len() - 1] == a);
                        assert(self.pending@.take(old(self).pending@.len() as int) =~= old(
                            self,
                        ).pending@);
                        assert(old(self).wakers.slot(ys@[i as int].0 as int) is Some);
                        assert forall|a2: V| #![auto] self.pending@.contains(a2) implies (old(
                            self,
                        ).pending@.contains(a2) || exists|j: int|
                            0 <= j < i + 1 && old(self).wakers.slot((#[trigger] ys@[j]).0 as int)
                                == Some(a2)) by {
                            let idx = choose|idx: int|
                                0 <= idx < self.pending@.len() && self.pending@[idx] == a2;
                            if idx < pend_prev.len() {
                                assert(pend_prev[idx] == a2);
                                assert(pend_prev.contains(a2));
                            } else {
                                assert(old(self).wakers.slot(ys@[i as int].0 as int) == Some(a2));
                            }
                        }
                        assert forall|a2: V|
                            #![auto]
                            (old(self).pending@.contains(a2) || exists|j: int|
                                0 <= j < i + 1 && old(self).wakers.slot(
                                    (#[trigger] ys@[j]).0 as int,
                                ) == Some(a2)) implies self.pending@.contains(a2) by {
                            if old(self).pending@.contains(a2) {
                                let idx = choose|idx: int|
                                    0 <= idx < pend_prev.len() && pend_prev[idx] == a2;
                                assert(self.pending@[idx] == a2);
                            } else {
                                let j = choose|j: int|
                                    0 <= j < i + 1 && old(self).wakers.slot(
                                        (#[trigger] ys@[j]).0 as int,
                                    ) == Some(a2);
                                if j < i as int {
                                    assert(pend_prev.contains(a2));
                                    let idx = choose|idx: int|
                                        0 <= idx < pend_prev.len() && pend_prev[idx] == a2;
                                    assert(self.pending@[idx] == a2);
                                } else {
                                    assert(a2 == a);
                                    assert(self.pending@[self.pending@.len() - 1] == a2);
                                }
                            }
                        }
                    }
                },
                None => {
                    proof {
                        if !was_processed {
                            assert(slot_before is None);
                        }
                        assert forall|a2: V|
                            #![auto]
                            (old(self).pending@.contains(a2) || exists|j: int|
                                0 <= j < i + 1 && old(self).wakers.slot(
                                    (#[trigger] ys@[j]).0 as int,
                                ) == Some(a2)) implies self.pending@.contains(a2) by {
                            if !old(self).pending@.contains(a2) {
                                let j = choose|j: int|
                                    0 <= j < i + 1 && old(self).wakers.slot(
                                        (#[trigger] ys@[j]).0 as int,
                                    ) == Some(a2);
                                if j == i as int {
                                    if was_processed {
                                        let j2 = choose|j2: int|
                                            0 <= j2 < i && (#[trigger] ys@[j2]).0 == yk.0;
                                        assert(old(self).wakers.slot(ys@[j2].0 as int) == Some(
                                            a2,
                                        ));
                                    } else {
                                        assert(false);
                                    }
                                }
                            }
                        }
                    }
                },
            }
            proof {
                assert forall|y: usize|
                    (exists|j: int| 0 <= j < i + 1 && (#[trigger] ys@[j]).0 == y) implies
                    self.wakers.slot(y as int) is None by {}
            }
            i += 1;
        }
        proof {
            assert forall|y: usize| #![auto] old(self).g.has_edge(x.0, y) implies self.wakers.slot(
                y as int,
            ) is None by {
                assert(ys@.contains(YKey(y)));
                let j = choose|j: int| 0 <= j < ys@.len() && ys@[j] == YKey(y);
                assert((ys@[j]).0 == y);
            }
            assert forall|y: usize| #![auto] !old(self).g.has_edge(x.0, y) implies self.wakers.slot(
                y as int,
            ) == old(self).wakers.slot(y as int) by {
                if exists|j: int| 0 <= j < ys@.len() && (#[trigger] ys@[j]).0 == y {
                    let j = choose|j: int| 0 <= j < ys@.len() && (#[trigger] ys@[j]).0 == y;
                    assert(ys@.contains(ys@[j]));
                    assert(old(self).g.has_edge(x.0, y));
                }
            }
            assert forall|a: V| #![auto] self.pending_actions().contains(a) implies (old(
                self,
            ).pending_actions().contains(a) || slot_wakeable(*old(self), x.0, a)) by {
                if !old(self).pending@.contains(a) {
                    let j = choose|j: int|
                        0 <= j < ys@.len() && old(self).wakers.slot((#[trigger] ys@[j]).0 as int)
                            == Some(a);
                    assert(ys@.contains(ys@[j]));
                    assert(old(self).g.has_edge(x.0, ys@[j].0));
                    assert(old(self).graph().has_edge(x.0, ys@[j].0) && old(self).waker_slot(
                        ys@[j].0 as int,
                    ) == Some(a));
                    assert(slot_wakeable(*old(self), x.0, a));
                }
            }
            assert forall|a: V|
                #![auto]
                (old(self).pending_actions().contains(a) || slot_wakeable(
                    *old(self),
                    x.0,
                    a,
                )) implies self.pending_actions().contains(a) by {
                if !old(self).pending@.contains(a) {
                    let y = choose|y: usize|
                        #![auto]
                        old(self).graph().has_edge(x.0, y) && old(self).waker_slot(y as int)
                            == Some(a);
                    assert(ys@.contains(YKey(y)));
                    let j = choose|j: int| 0 <= j < ys@.len() && ys@[j] == YKey(y);
                    assert(old(self).wakers.slot(ys@[j].0 as int) == Some(a));
                }
            }
            if forall|y: usize|
                #![auto]
                old(self).graph().has_edge(x.0, y) ==> old(self).waker_slot(y as int) is None {
                assert forall|j: int|
                    0 <= j < ys@.len() implies old(self).wakers.slot(
                    (#[trigger] ys@[j]).0 as int,
                ) is None by {
                    assert(ys@.contains(ys@[j]));
                    assert(old(self).g.has_edge(x.0, ys@[j].0));
                }
                assert(self.pending@ == old(self).pending@);
            }
        }
    }

    /// Removes a source from the graph, as the host does for each key whose
    /// owner was dropped since the last evaluation; every edge from that
    /// source goes with it.
    pub fn remove_source(&mut self, key: StateKey)
        requires
            old(self).wf(),
            key.live(old(self)),
        ensures
            final(self).wf(),
            final(self).graph().sources() == old(self).graph().sources().remove(key.id()),
            final(self).graph().targets() == old(self).graph().targets(),
            forall|x2: usize, y2: usize|
                #![auto]
                final(self).graph().has_edge(x2, y2) <==> (old(self).graph().has_edge(x2, y2) && x2
                    != key.id()),
            final(self).accum() == old(self).accum(),
            final(self).deadline() == old(self).deadline(),
            final(self).pending_actions() == old(self).pending_actions(),
            forall|y: int| final(self).waker_slot(y) == old(self).waker_slot(y),
    {
        self.g.remove_x(key.x);
        proof {
            assert forall|x2: usize, y2: usize| #![auto] self.g.has_edge(x2, y2) implies (old(
                self,
            ).g.has_edge(x2, y2) && x2 != key.id()) by {
                let e = choose|e: usize|
                    #[trigger] self.g.edges().dom().contains(e) && self.g.edges()[e] == (x2, y2);
                assert(old(self).g.edges().dom().contains(e));
                assert(old(self).g.edges()[e] == (x2, y2));
            }
            assert forall|x2: usize, y2: usize|
                #![auto]
                (old(self).g.has_edge(x2, y2) && x2 != key.id()) implies self.g.has_edge(
                x2,
                y2,
            ) by {
                let e = choose|e: usize|
                    #[trigger] old(self).g.edges().dom().contains(e) && old(self).g.edges()[e] == (
                    x2,
                    y2,
                    );
                assert(self.g.edges().dom().contains(e));
            }
        }
    }

    /// Removes a target and disarms its waker slot, as a polling scope does
    /// when it re-evaluates or is dropped.
    pub fn remove_target(&mut self, y: YKey)
        requires
            old(self).wf(),
            old(self).graph().targets().contains(y.0),
        ensures
            final(self).wf(),
            final(self).graph().sources() == old(self).graph().sources(),
            final(self).graph().targets() == old(self).graph().targets().remove(y.0),
            forall|x2: usize, y2: usize|
                #![auto]
                final(self).graph().has_edge(x2, y2) <==> (old(self).graph().has_edge(x2, y2) && y2
                    != y.0),
            final(self).waker_slot(y.0 as int) is None,
            forall|z: int| z != y.0 ==> final(self).waker_slot(z) == old(self).waker_slot(z),
            final(self).accum() == old(self).accum(),
            final(self).deadline() == old(self).deadline(),
            final(self).pending_actions() == old(self).pending_actions(),
    {
        self.g.remove_y(y);
        self.wakers.take(y.0);
        proof {
            assert forall|x2: usize, y2: usize| #![auto] self.g.has_edge(x2, y2) implies (old(
                self,
            ).g.has_edge(x2, y2) && y2 != y.0) by {
                let e = choose|e: usize|
                    #[trigger] self.g.edges().dom().contains(e) && self.g.edges()[e] == (x2, y2);
                assert(old(self).g.edges().dom().contains(e));
                assert(old(self).g.edges()[e] == (x2, y2));
            }
            assert forall|x2: usize, y2: usize|
                #![auto]
                (old(self).g.has_edge(x2, y2) && y2 != y.0) implies self.g.has_edge(x2, y2) by {
                let e = choose|e: usize|
                    #[trigger] old(self).g.edges().dom().contains(e) && old(self).g.edges()[e] == (
                    x2,
                    y2,
                    );
                assert(self.g.edges().dom().contains(e));
            }
        }
    }

    /// Commits a new target for the evaluation that just returned pending:
    /// the target depends on exactly the sources the evaluation watched, and
    /// its slot holds the action that will wake it. One edge is inserted per
    /// watched source, however often each was watched.
    pub fn commit_target(&mut self, action: V) -> (y: YKey)
        requires
            old(self).wf(),
            forall|i: int|
                0 <= i < old(self).accum().members().len() ==> old(self).graph().sources().contains(
                    #[trigger] old(self).accum().members()[i],
                ),
        ensures
            final(self).wf(),
            commit_transition(*old(self), *final(self), y, action),
    {
        let y = self.g.insert_y();
        let ghost members = self.source_set.members();
        let n = self.source_set.len();
        let mut i: usize = 0;
        while i < n
            invariant
                old(self).wf(),
                n == members.len(),
                i <= n,
                members == old(self).accum().members(),
                self.source_set == old(self).source_set,
                self.wake_at == old(self).wake_at,
                self.pending == old(self).pending,
                self.wakers == old(self).wakers,
                self.g.wf(),
                forall|j: int|
                    0 <= j < members.len() ==> old(self).g.sources().contains(
                        #[trigger] members[j],
                    ),
                !old(self).g.targets().contains(y.0),
                self.g.sources() == old(self).g.sources(),
                self.g.targets() == old(self).g.targets().insert(y.0),
                self.g.edges().dom().len() == old(self).g.edges().dom().len() + i,
                forall|x2: usize, y2: usize|
                    #![auto]
                    self.g.has_edge(x2, y2) <==> (old(self).g.has_edge(x2, y2) || (y2 == y.0
                        && exists|j: int| 0 <= j < i && (#[trigger] members[j]) == x2)),
            decreases n - i,
        {
            let x = self.source_set.index(i);
            let ghost before = self.g;
            self.g.insert_edge(XKey(x), y);
            proof {
                let e = choose|e: usize|
                    !(#[trigger] before.edges().dom().contains(e)) && self.g.edges()
                        == before.edges().insert(e, (x, y.0));
                assert(self.g.edges().dom() =~= before.edges().dom().insert(e));
                assert(self.g.edges().dom().len() == before.edges().dom().len() + 1);
                assert forall|x2: usize, y2: usize|
                    #![auto]
                    self.g.has_edge(x2, y2) implies (old(self).g.has_edge(x2, y2) || (y2 == y.0
                        && exists|j: int| 0 <= j < i + 1 && (#[trigger] members[j]) == x2)) by {
                    if before.has_edge(x2, y2) {
                    } else {
                        assert(x2 == x && y2 == y.0);
                        assert(members[i as int] == x2);
                    }
                }
                assert forall|x2: usize, y2: usize|
                    #![auto]
                    (old(self).g.has_edge(x2, y2) || (y2 == y.0 && exists|j: int|
                        0 <= j < i + 1 && (#[trigger] members[j]) == x2)) implies self.g.has_edge(
                        x2,
                        y2,
                    ) by {}
            }
            i += 1;
        }
        self.wakers.set(y.0, action);
        proof {
            assert(old(self).g.edges().dom().len() + members.len() == self.g.edges().dom().len());
        }
        y
    }
}

/// What committing a target `y` with action `a` does: `y` is fresh, it
/// gains exactly one edge from each source the evaluation watched, its slot
/// holds `a`, and nothing else moves.
pub open spec fn commit_transition<V>(
    pre: StateContext<V>,
    post: StateContext<V>,
    y: YKey,
    action: V,
) -> bool {
    &&& !pre.graph().targets().contains(y.0)
    &&& post.graph().targets() == pre.graph().targets().insert(y.0)
    &&& post.graph().sources() == pre.graph().sources()
    &&& post.waker_slot(y.0 as int) == Some(action)
    &&& forall|z: int| z != y.0 ==> post.waker_slot(z) == pre.waker_slot(z)
    &&& forall|x2: usize, y2: usize|
        #![auto]
        post.graph().has_edge(x2, y2) <==> (pre.graph().has_edge(x2, y2) || (y2 == y.0
            && pre.accum().contains(x2)))
    &&& post.graph().edges().dom().len() == pre.graph().edges().dom().len()
        + pre.accum().members().len()
    &&& post.accum() == pre.accum()
    &&& post.deadline() == pre.deadline()
    &&& post.pending_actions() == pre.pending_actions()
}

/// The identity of a reactive input: a source node in the dependency graph,
/// owned by a state primitive. When its owner is dropped, the host removes
/// the source through `StateContext::remove_source`.
pub struct StateKey {
    x: XKey,
}

impl StateKey {
    /// The source node this key names.
    pub closed spec fn id(&self) -> usize {
        self.x.0
    }

    /// The key names a source that is present in the graph.
    pub open spec fn live<V>(&self, cx: &StateContext<V>) -> bool {
        cx.graph().sources().contains(self.id())
    }

    /// Allocates a fresh source in the graph.
    pub fn new<V>(cx: &mut StateContext<V>) -> (r: Self)
        requires
            old(cx).wf(),
        ensures
            final(cx).wf(),
            r.live(final(cx)),
            !old(cx).graph().sources().contains(r.id()),
            final(cx).graph().sources() == old(cx).graph().sources().insert(r.id()),
            final(cx).graph().targets() == old(cx).graph().targets(),
            final(cx).graph().edges() == old(cx).graph().edges(),
            final(cx).accum() == old(cx).accum(),
            final(cx).deadline() == old(cx).deadline(),
            final(cx).pending_actions() == old(cx).pending_actions(),
            forall|y: int| final(cx).waker_slot(y) == old(cx).waker_slot(y),
    {
        let x = cx.g.insert_x();
        StateKey { x }
    }

    /// Records this source in the current evaluation's accumulator, so that
    /// the target committed at the end of the evaluation depends on it.
    /// Watching the same key again changes nothing.
    pub fn watch<V>(&self, cx: &mut StateContext<V>)
        requires
            old(cx).wf(),
        ensures
            final(cx).wf(),
            insert_transition(old(cx).accum(), final(cx).accum(), self.id()),
            final(cx).accum().contains(self.id()),
            forall|v: usize|
                final(cx).accum().contains(v) <==> (old(cx).accum().contains(v) || v == self.id()),
            final(cx).graph() == old(cx).graph(),
            final(cx).deadline() == old(cx).deadline(),
            final(cx).pending_actions() == old(cx).pending_actions(),
            forall|y: int| final(cx).waker_slot(y) == old(cx).waker_slot(y),
    {
        cx.source_set.insert(self.x.0);
    }

    /// Wakes every waiter that depends on this source: each adjacent
    /// target's stored action is taken out of its slot, so a repeated
    /// notification in the same critical section wakes nobody twice.
    pub fn notify<V>(&self, cx: &mut StateContext<V>)
        requires
            old(cx).wf(),
        ensures
            final(cx).wf(),
            wake_transition(*old(cx), *final(cx), self.id()),
    {
        cx.wake(self.x);
    }
}

/// Some target adjacent to `x` holds `a` in its waker slot.
pub open spec fn slot_wakeable<V>(cx: StateContext<V>, x: usize, a: V) -> bool {
    exists|y: usize| #![auto] cx.graph().has_edge(x, y) && cx.waker_slot(y as int) == Some(a)
}

/// What waking source `x` does: every target adjacent to `x` has its slot
/// emptied, every other slot is untouched, and exactly the taken actions
/// join the pending ones. The graph, the accumulator and the deadline do
/// not move.
pub open spec fn wake_transition<V>(pre: StateContext<V>, post: StateContext<V>, x: usize) -> bool {
    &&& post.graph() == pre.graph()
    &&& post.accum() == pre.accum()
    &&& post.deadline() == pre.deadline()
    &&& forall|y: usize| #![auto] pre.graph().has_edge(x, y) ==> post.waker_slot(y as int) is None
    &&& forall|y: usize|
        #![auto]
        !pre.graph().has_edge(x, y) ==> post.waker_slot(y as int) == pre.waker_slot(y as int)
    &&& forall|a: V|
        #![trigger post.pending_actions().contains(a)]
        #![trigger pre.pending_actions().contains(a)]
        #![trigger slot_wakeable(pre, x, a)]
        post.pending_actions().contains(a) <==> (pre.pending_actions().contains(a)
            || slot_wakeable(pre, x, a))
    &&& post.pending_actions().len() >= pre.pending_actions().len()
    &&& post.pending_actions().take(pre.pending_actions().len() as int) == pre.pending_actions()
    &&& ((forall|y: usize| #![auto] pre.graph().has_edge(x, y) ==> pre.waker_slot(y as int) is None)
        ==> post.pending_actions() == pre.pending_actions())
}

/// No notification is missed: a target committed by an evaluation that
/// watched source `x` is connected to `x`, and a later wake of `x` empties
/// the target's slot and hands its action to the host for invocation before
/// any further user code runs on that task.
pub proof fn lemma_no_missed_notify<V>(
    s0: StateContext<V>,
    s1: StateContext<V>,
    s2: StateContext<V>,
    x: usize,
    y: YKey,
    a: V,
)
    requires
        s0.accum().contains(x),
        commit_transition(s0, s1, y, a),
        wake_transition(s1, s2, x),
    ensures
        s1.graph().has_edge(x, y.0),
        s2.waker_slot(y.0 as int) is None,
        s2.pending_actions().contains(a),
{
    assert(s1.graph().has_edge(x, y.0));
    assert(s1.graph().has_edge(x, y.0) && s1.waker_slot(y.0 as int) == Some(a));
    assert(slot_wakeable(s1, x, a));
}

/// Independence: waking a source leaves every target that does not depend
/// on it exactly as it was, so the waiter is not re-evaluated — its stored
/// action stays armed in its slot.
pub proof fn lemma_independence<V>(
    s1: StateContext<V>,
    s2: StateContext<V>,
    x: usize,
    y: usize,
)
    requires
        wake_transition(s1, s2, x),
        !s1.graph().has_edge(x, y),
    ensures
        s2.waker_slot(y as int) == s1.waker_slot(y as int),
{
}

/// At most one wake per pending window: the first notification takes the
/// action out of the target's slot, so until the scope commits again, any
/// further notification — of the same source or of any other — finds the
/// slot empty and cannot invoke the action a second time.
pub proof fn lemma_at_most_once_wake<V>(
    s0: StateContext<V>,
    s1: StateContext<V>,
    s2: StateContext<V>,
    x1: usize,
    x2: usize,
    y: usize,
)
    requires
        wake_transition(s0, s1, x1),
        wake_transition(s1, s2, x2),
        s0.graph().has_edge(x1, y),
    ensures
        s1.waker_slot(y as int) is None,
        s2.waker_slot(y as int) is None,
{
    if s1.graph().has_edge(x2, y) {
    } else {
    }
}

/// The second half of the at-most-once guarantee: once the first wake has
/// disarmed every slot that a later notification could reach, that later
/// notification hands the host nothing at all.
pub proof fn lemma_second_wake_adds_nothing<V>(
    s1: StateContext<V>,
    s2: StateContext<V>,
    x2: usize,
)
    requires
        wake_transition(s1, s2, x2),
        forall|y2: usize|
            #![auto]
            s1.graph().has_edge(x2, y2) ==> s1.waker_slot(y2 as int) is None,
    ensures
        s2.pending_actions() == s1.pending_actions(),
{
}

/// Deadline merge: after two deadline requests the effective deadline is
/// the earlier of the two, whichever order they come in.
pub proof fn lemma_deadline_merge(d: Option<u64>, t1: u64, t2: u64)
    ensures
        merged_deadline(merged_deadline(d, t1), t2) == merged_deadline(merged_deadline(d, t2), t1),
        merged_deadline(merged_deadline(None, t1), t2) == Some(
            if t1 <= t2 {
                t1
            } else {
                t2
            },
        ),
{
}

/// Idempotent watch: watching the same key twice during one evaluation
/// registers it exactly once in the accumulator, so the committed target
/// gains exactly one edge from it — the commit inserts one edge per
/// accumulator entry.
pub proof fn lemma_idempotent_watch<V>(
    s0: StateContext<V>,
    s1: StateContext<V>,
    s2: StateContext<V>,
    s3: StateContext<V>,
    k: usize,
    y: YKey,
    a: V,
)
    requires
        insert_transition(s0.accum(), s1.accum(), k),
        insert_transition(s1.accum(), s2.accum(), k),
        commit_transition(s2, s3, y, a),
    ensures
        s2.accum().members() == s1.accum().members(),
        crate::utils::usize_set::appears_once(s1.accum().members(), k),
        s3.graph().has_edge(k, y.0),
        s3.graph().edges().dom().len() == s2.graph().edges().dom().len()
            + s2.accum().members().len(),
{
    crate::utils::usize_set::lemma_insert_idempotent(s0.accum(), s1.accum(), s2.accum(), k);
    assert(s2.accum().contains(k));
}

/// The per-scope state of a subscription: an age that stamps each
/// evaluation, and a dirty flag set by notifications. A wake that carries
/// the age of an earlier evaluation is ignored, so a stale notification can
/// neither redo work nor lose one.
pub struct SubscribeState {
    age: u64,
    is_dirty: bool,
}

impl SubscribeState {
    pub closed spec fn age_spec(&self) -> u64 {
        self.age
    }

    pub closed spec fn dirty(&self) -> bool {
        self.is_dirty
    }

    /// The age of the current evaluation.
    pub fn age(&self) -> (r: u64)
        ensures
            r == self.age_spec(),
    {
        self.age
    }

    /// Whether a re-evaluation is due.
    pub fn is_dirty(&self) -> (r: bool)
        ensures
            r == self.dirty(),
    {
        self.is_dirty
    }

    /// A subscription starts dirty, so its first poll evaluates at once.
    pub fn new() -> (r: Self)
        ensures
            r.age_spec() == 0,
            r.dirty(),
    {
        SubscribeState { age: 0, is_dirty: true }
    }

    /// Opens a re-evaluation when one is due: the age moves on, so wakes
    /// aimed at the previous evaluation die, and the dirty flag rearms.
    pub fn try_begin(&mut self) -> (r: bool)
        ensures
            r == old(self).dirty(),
            !r ==> *final(self) == *old(self),
            r ==> final(self).age_spec() == vstd::wrapping::u64_specs::wrapping_add(
                old(self).age_spec(),
                1,
            ) && !final(self).dirty(),
    {
        if self.is_dirty {
            self.age = self.age.wrapping_add(1);
            self.is_dirty = false;
            true
        } else {
            false
        }
    }

    /// A notification carrying `age` marks the subscription dirty only when
    /// the age is still the current one; a stale wake changes nothing.
    pub fn on_wake(&mut self, age: u64) -> (r: bool)
        ensures
            r == (old(self).age_spec() == age),
            final(self).age_spec() == old(self).age_spec(),
            r ==> final(self).dirty(),
            !r ==> *final(self) == *old(self),
    {
        if self.age == age {
            self.is_dirty = true;
            true
        } else {
            false
        }
    }
}

} // verus!
