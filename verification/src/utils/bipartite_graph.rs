use crate::utils::slab::{
    edge_slab, edge_slab_get, edge_slab_insert, edge_slab_new, edge_slab_remove, edge_slab_set,
    node_slab, node_slab_contains, node_slab_get, node_slab_insert, node_slab_new,
    node_slab_remove, node_slab_set, EdgeRec, NodeHead,
};
use vstd::prelude::*;

verus! {

/// The identity of a source node.
#[derive(Debug, Clone, Copy, PartialEq, Eq, Hash, Structural)]
pub struct XKey(pub usize);

/// The identity of a target node.
#[derive(Debug, Clone, Copy, PartialEq, Eq, Hash, Structural)]
pub struct YKey(pub usize);

/// A graph between source nodes and target nodes. Nodes are addressed by
/// stable small integers that a slab allocator hands out and reuses; edges
/// have identities of their own, so the same pair may be connected more
/// than once. Each edge is threaded on two doubly linked lists — one per
/// endpoint — so removing a node walks only its own adjacency.
pub struct BipartiteGraph {
    xs: slabmap::SlabMap<NodeHead>,
    ys: slabmap::SlabMap<NodeHead>,
    es: slabmap::SlabMap<EdgeRec>,
    xlists: Ghost<Map<usize, Seq<usize>>>,
    ylists: Ghost<Map<usize, Seq<usize>>>,
}

impl BipartiteGraph {
    /// The stored edge records.
    pub closed spec fn raw(&self) -> Map<usize, EdgeRec> {
        edge_slab(self.es)
    }

    /// Each source node's list head.
    pub closed spec fn xheads(&self) -> Map<usize, NodeHead> {
        node_slab(self.xs)
    }

    /// Each target node's list head.
    pub closed spec fn yheads(&self) -> Map<usize, NodeHead> {
        node_slab(self.ys)
    }

    /// The adjacency list of a source node, as edge ids in list order.
    pub closed spec fn xlist(&self, x: usize) -> Seq<usize> {
        self.xlists@[x]
    }

    /// The adjacency list of a target node, as edge ids in list order.
    pub closed spec fn ylist(&self, y: usize) -> Seq<usize> {
        self.ylists@[y]
    }

    /// The source nodes present.
    pub open spec fn sources(&self) -> Set<usize> {
        self.xheads().dom()
    }

    /// The target nodes present.
    pub open spec fn targets(&self) -> Set<usize> {
        self.yheads().dom()
    }

    /// The edges present: each edge id maps to its source and target.
    pub open spec fn edges(&self) -> Map<usize, (usize, usize)> {
        self.raw().map_values(|r: EdgeRec| (r.x, r.y))
    }

    /// Whether some edge connects `x` to `y`.
    pub open spec fn has_edge(&self, x: usize, y: usize) -> bool {
        exists|e: usize| #[trigger] self.edges().dom().contains(e) && self.edges()[e] == (x, y)
    }

    /// The ids of the edges that leave source `x`.
    pub open spec fn edges_from(&self, x: usize) -> Set<usize> {
        self.edges().dom().filter(|e: usize| self.edges()[e].0 == x)
    }

    /// The ids of the edges that end in target `y`.
    pub open spec fn edges_into(&self, y: usize) -> Set<usize> {
        self.edges().dom().filter(|e: usize| self.edges()[e].1 == y)
    }

    /// The conditions on position `i` of a source node's adjacency list:
    /// the edge leaves that node, and its list links point at the list
    /// neighbours.
    pub closed spec fn edge_at_x(&self, l: Seq<usize>, x: usize, i: int) -> bool {
        &&& self.raw().dom().contains(l[i])
        &&& self.raw()[l[i]].x == x
        &&& self.raw()[l[i]].x_prev == if i == 0 {
            None::<usize>
        } else {
            Some(l[i - 1])
        }
        &&& self.raw()[l[i]].x_next == if i == l.len() - 1 {
            None::<usize>
        } else {
            Some(l[i + 1])
        }
    }

    /// The conditions on position `i` of a target node's adjacency list.
    pub closed spec fn edge_at_y(&self, l: Seq<usize>, y: usize, i: int) -> bool {
        &&& self.raw().dom().contains(l[i])
        &&& self.raw()[l[i]].y == y
        &&& self.raw()[l[i]].y_prev == if i == 0 {
            None::<usize>
        } else {
            Some(l[i - 1])
        }
        &&& self.raw()[l[i]].y_next == if i == l.len() - 1 {
            None::<usize>
        } else {
            Some(l[i + 1])
        }
    }

    /// A source node's adjacency list is a well-linked chain of distinct
    /// edges starting at the node's head.
    pub closed spec fn xlist_ok(&self, x: usize) -> bool {
        let l = self.xlist(x);
        &&& self.xheads()[x] == if l.len() == 0 {
            None::<usize>
        } else {
            Some(l[0])
        }
        &&& forall|i: int| 0 <= i < l.len() ==> self.edge_at_x(l, x, i)
        &&& forall|i: int, j: int| 0 <= i < j < l.len() ==> l[i] != l[j]
    }

    /// A target node's adjacency list is a well-linked chain of distinct
    /// edges starting at the node's head.
    pub closed spec fn ylist_ok(&self, y: usize) -> bool {
        let l = self.ylist(y);
        &&& self.yheads()[y] == if l.len() == 0 {
            None::<usize>
        } else {
            Some(l[0])
        }
        &&& forall|i: int| 0 <= i < l.len() ==> self.edge_at_y(l, y, i)
        &&& forall|i: int, j: int| 0 <= i < j < l.len() ==> l[i] != l[j]
    }

    /// The linked-list structure is intact: every node's chain is well
    /// linked, every edge sits on the chain of each of its endpoints, and
    /// every id is one the slab can remove again.
    pub closed spec fn links_ok(&self) -> bool {
        &&& self.xlists@.dom() == self.xheads().dom()
        &&& self.ylists@.dom() == self.yheads().dom()
        &&& forall|x: usize| #[trigger] self.xheads().dom().contains(x) ==> x < usize::MAX
        &&& forall|y: usize| #[trigger] self.yheads().dom().contains(y) ==> y < usize::MAX
        &&& forall|e: usize| #[trigger] self.raw().dom().contains(e) ==> e < usize::MAX
        &&& forall|x: usize| #[trigger] self.xheads().dom().contains(x) ==> self.xlist_ok(x)
        &&& forall|y: usize| #[trigger] self.yheads().dom().contains(y) ==> self.ylist_ok(y)
        &&& forall|e: usize|
            #[trigger] self.raw().dom().contains(e) ==> self.xheads().dom().contains(
                self.raw()[e].x,
            ) && self.xlist(self.raw()[e].x).contains(e) && self.yheads().dom().contains(
                self.raw()[e].y,
            ) && self.ylist(self.raw()[e].y).contains(e)
        &&& self.raw().dom().finite()
    }

    /// Every edge ends in nodes that are present, there are finitely many
    /// edges, and the adjacency chains are intact.
    pub open spec fn wf(&self) -> bool {
        &&& self.edges().dom().finite()
        &&& forall|e: usize|
            #[trigger] self.edges().dom().contains(e) ==> self.sources().contains(
                self.edges()[e].0,
            ) && self.targets().contains(self.edges()[e].1)
        &&& self.links_ok()
    }

    pub fn new() -> (r: Self)
        ensures
            r.wf(),
            r.sources() == Set::<usize>::empty(),
            r.targets() == Set::<usize>::empty(),
            r.edges() == Map::<usize, (usize, usize)>::empty(),
    {
        let r = BipartiteGraph {
            xs: node_slab_new(),
            ys: node_slab_new(),
            es: edge_slab_new(),
            xlists: Ghost(Map::empty()),
            ylists: Ghost(Map::empty()),
        };
        proof {
            lemma_edges_view(r);
            assert(r.edges() =~= Map::<usize, (usize, usize)>::empty());
            assert(r.sources() =~= Set::<usize>::empty());
            assert(r.targets() =~= Set::<usize>::empty());
            assert(r.xlists@.dom() =~= r.xheads().dom());
            assert(r.ylists@.dom() =~= r.yheads().dom());
        }
        r
    }

    /// Adds a source node and returns its fresh identity.
    pub fn insert_x(&mut self) -> (k: XKey)
        requires
            old(self).wf(),
        ensures
            final(self).wf(),
            !old(self).sources().contains(k.0),
            final(self).sources() == old(self).sources().insert(k.0),
            final(self).targets() == old(self).targets(),
            final(self).edges() == old(self).edges(),
    {
        let k = node_slab_insert(&mut self.xs, None);
        proof {
            self.xlists@ = self.xlists@.insert(k, Seq::empty());
            lemma_edges_view(*old(self));
            lemma_edges_view(*self);
            assert(self.edges() == old(self).edges());
            assert(self.xlists@.dom() =~= self.xheads().dom());
            assert(self.xlist_ok(k));
            assert forall|x2: usize| #[trigger] self.xheads().dom().contains(x2) && x2
                != k implies self.xlist_ok(x2) by {
                assert(old(self).xlist_ok(x2));
                let l = self.xlist(x2);
                assert(l == old(self).xlist(x2));
                assert forall|i: int| 0 <= i < l.len() implies self.edge_at_x(l, x2, i) by {
                    assert(old(self).edge_at_x(l, x2, i));
                }
            }
            assert forall|y2: usize| #[trigger] self.yheads().dom().contains(y2) implies
                self.ylist_ok(y2) by {
                assert(old(self).ylist_ok(y2));
                let l = self.ylist(y2);
                assert forall|i: int| 0 <= i < l.len() implies self.edge_at_y(l, y2, i) by {
                    assert(old(self).edge_at_y(l, y2, i));
                }
            }
            assert forall|e: usize| #[trigger] self.edges().dom().contains(e) implies
                self.sources().contains(self.edges()[e].0) && self.targets().contains(
                self.edges()[e].1,
            ) by {
                assert(old(self).edges().dom().contains(e));
            }
        }
        XKey(k)
    }

    /// Adds a target node and returns its fresh identity.
    pub fn insert_y(&mut self) -> (k: YKey)
        requires
            old(self).wf(),
        ensures
            final(self).wf(),
            !old(self).targets().contains(k.0),
            final(self).targets() == old(self).targets().insert(k.0),
            final(self).sources() == old(self).sources(),
            final(self).edges() == old(self).edges(),
    {
        let k = node_slab_insert(&mut self.ys, None);
        proof {
            self.ylists@ = self.ylists@.insert(k, Seq::empty());
            lemma_edges_view(*old(self));
            lemma_edges_view(*self);
            assert(self.edges() == old(self).edges());
            assert(self.ylists@.dom() =~= self.yheads().dom());
            assert(self.ylist_ok(k));
            assert forall|y2: usize| #[trigger] self.yheads().dom().contains(y2) && y2
                != k implies self.ylist_ok(y2) by {
                assert(old(self).ylist_ok(y2));
                let l = self.ylist(y2);
                assert(l == old(self).ylist(y2));
                assert forall|i: int| 0 <= i < l.len() implies self.edge_at_y(l, y2, i) by {
                    assert(old(self).edge_at_y(l, y2, i));
                }
            }
            assert forall|x2: usize| #[trigger] self.xheads().dom().contains(x2) implies
                self.xlist_ok(x2) by {
                assert(old(self).xlist_ok(x2));
                let l = self.xlist(x2);
                assert forall|i: int| 0 <= i < l.len() implies self.edge_at_x(l, x2, i) by {
                    assert(old(self).edge_at_x(l, x2, i));
                }
            }
            assert forall|e: usize| #[trigger] self.edges().dom().contains(e) implies
                self.sources().contains(self.edges()[e].0) && self.targets().contains(
                self.edges()[e].1,
            ) by {
                assert(old(self).edges().dom().contains(e));
            }
        }
        YKey(k)
    }

    /// Whether the source node is present.
    pub fn contains_x(&self, x: XKey) -> (r: bool)
        ensures
            r == self.sources().contains(x.0),
    {
        node_slab_contains(&self.xs, x.0)
    }

    /// Whether the target node is present.
    pub fn contains_y(&self, y: YKey) -> (r: bool)
        ensures
            r == self.targets().contains(y.0),
    {
        node_slab_contains(&self.ys, y.0)
    }

    /// Connects `x` to `y` with a fresh edge, pushed at the front of both
    /// adjacency lists; earlier edges, also between the same pair, stay as
    /// they are.
    pub fn insert_edge(&mut self, x: XKey, y: YKey)
        requires
            old(self).wf(),
            old(self).sources().contains(x.0),
            old(self).targets().contains(y.0),
        ensures
            final(self).wf(),
            final(self).sources() == old(self).sources(),
            final(self).targets() == old(self).targets(),
            exists|e: usize|
                !(#[trigger] old(self).edges().dom().contains(e)) && final(self).edges() == old(
                    self,
                ).edges().insert(e, (x.0, y.0)),
            forall|x2: usize, y2: usize|
                #![auto]
                final(self).has_edge(x2, y2) <==> (old(self).has_edge(x2, y2) || (x2 == x.0 && y2
                    == y.0)),
    {
        proof {
            lemma_edges_view(*old(self));
        }
        let xh = match node_slab_get(&self.xs, x.0) {
            Some(h) => h,
            None => vstd::pervasive::unreached(),
        };
        let yh = match node_slab_get(&self.ys, y.0) {
            Some(h) => h,
            None => vstd::pervasive::unreached(),
        };
        let ghost lx = old(self).xlist(x.0);
        let ghost ly = old(self).ylist(y.0);
        proof {
            assert(old(self).xlist_ok(x.0));
            assert(old(self).ylist_ok(y.0));
            if lx.len() > 0 {
                assert(old(self).edge_at_x(lx, x.0, 0));
            }
            if ly.len() > 0 {
                assert(old(self).edge_at_y(ly, y.0, 0));
            }
        }
        let e = edge_slab_insert(
            &mut self.es,
            EdgeRec { x: x.0, y: y.0, x_prev: None, x_next: xh, y_prev: None, y_next: yh },
        );
        if let Some(h) = xh {
            let rec = match edge_slab_get(&self.es, h) {
                Some(rc) => rc,
                None => vstd::pervasive::unreached(),
            };
            edge_slab_set(&mut self.es, h, EdgeRec { x_prev: Some(e), ..rec });
        }
        if let Some(h) = yh {
            let rec = match edge_slab_get(&self.es, h) {
                Some(rc) => rc,
                None => vstd::pervasive::unreached(),
            };
            edge_slab_set(&mut self.es, h, EdgeRec { y_prev: Some(e), ..rec });
        }
        node_slab_set(&mut self.xs, x.0, Some(e));
        node_slab_set(&mut self.ys, y.0, Some(e));
        proof {
            let oldg = *old(self);
            self.xlists@ = self.xlists@.insert(x.0, seq![e] + lx);
            self.ylists@ = self.ylists@.insert(y.0, seq![e] + ly);
            // Pointwise description of the new edge records.
            assert forall|e2: usize| #[trigger] self.raw().dom().contains(e2) <==> (
            oldg.raw().dom().contains(e2) || e2 == e) by {}
            assert(self.raw()[e].x == x.0 && self.raw()[e].y == y.0 && self.raw()[e].x_prev
                is None && self.raw()[e].x_next == xh && self.raw()[e].y_prev is None
                && self.raw()[e].y_next == yh);
            assert forall|e2: usize|
                oldg.raw().dom().contains(e2) implies (#[trigger] self.raw()[e2]).x
                == oldg.raw()[e2].x && self.raw()[e2].y == oldg.raw()[e2].y by {}
            assert forall|e2: usize|
                oldg.raw().dom().contains(e2) && (xh != Some(e2)) implies (#[trigger] self.raw()[e2]).x_prev == oldg.raw()[e2].x_prev by {}
            assert forall|e2: usize|
                oldg.raw().dom().contains(e2) implies (#[trigger] self.raw()[e2]).x_next
                == oldg.raw()[e2].x_next by {}
            assert forall|e2: usize|
                oldg.raw().dom().contains(e2) && (yh != Some(e2)) implies (#[trigger] self.raw()[e2]).y_prev == oldg.raw()[e2].y_prev by {}
            assert forall|e2: usize|
                oldg.raw().dom().contains(e2) implies (#[trigger] self.raw()[e2]).y_next
                == oldg.raw()[e2].y_next by {}
            // The new source chain.
            let lxn = seq![e] + lx;
            assert(self.xlist(x.0) == lxn);
            assert(lxn[0] == e);
            assert forall|i: int| 0 <= i < lxn.len() implies self.edge_at_x(lxn, x.0, i) by {
                if i == 0 {
                    if lx.len() > 0 {
                        assert(lxn[1] == lx[0]);
                        assert(xh == Some(lx[0]));
                    }
                } else {
                    assert(lxn[i] == lx[i - 1]);
                    assert(oldg.edge_at_x(lx, x.0, i - 1));
                    assert(oldg.raw().dom().contains(lx[i - 1]));
                    if i == 1 {
                        assert(xh == Some(lx[0]));
                        assert(self.raw()[lxn[1]].x_prev == Some(e));
                    } else {
                        assert(lx[i - 1] != e);
                        if xh == Some(lx[i - 1]) {
                            assert(lx[0] == lx[i - 1]);
                            assert(false);
                        }
                        assert(self.raw()[lxn[i]].x_prev == oldg.raw()[lx[i - 1]].x_prev);
                    }
                }
            }
            assert forall|i: int, j: int| 0 <= i < j < lxn.len() implies lxn[i] != lxn[j] by {
                if i == 0 {
                    assert(oldg.edge_at_x(lx, x.0, j - 1));
                    assert(oldg.raw().dom().contains(lx[j - 1]));
                } else {
                    assert(lxn[i] == lx[i - 1] && lxn[j] == lx[j - 1]);
                }
            }
            assert(self.xlist_ok(x.0));
            // The new target chain.
            let lyn = seq![e] + ly;
            assert(self.ylist(y.0) == lyn);
            assert(lyn[0] == e);
            assert forall|i: int| 0 <= i < lyn.len() implies self.edge_at_y(lyn, y.0, i) by {
                if i == 0 {
                    if ly.len() > 0 {
                        assert(lyn[1] == ly[0]);
                        assert(yh == Some(ly[0]));
                    }
                } else {
                    assert(lyn[i] == ly[i - 1]);
                    assert(oldg.edge_at_y(ly, y.0, i - 1));
                    assert(oldg.raw().dom().contains(ly[i - 1]));
                    if i == 1 {
                        assert(yh == Some(ly[0]));
                        assert(self.raw()[lyn[1]].y_prev == Some(e));
                    } else {
                        assert(ly[i - 1] != e);
                        if yh == Some(ly[i - 1]) {
                            assert(ly[0] == ly[i - 1]);
                            assert(false);
                        }
                        assert(self.raw()[lyn[i]].y_prev == oldg.raw()[ly[i - 1]].y_prev);
                    }
                }
            }
            assert forall|i: int, j: int| 0 <= i < j < lyn.len() implies lyn[i] != lyn[j] by {
                if i == 0 {
                    assert(oldg.edge_at_y(ly, y.0, j - 1));
                    assert(oldg.raw().dom().contains(ly[j - 1]));
                } else {
                    assert(lyn[i] == ly[i - 1] && lyn[j] == ly[j - 1]);
                }
            }
            assert(self.ylist_ok(y.0));
            // Chains of other nodes are untouched.
            assert(self.xlists@.dom() =~= self.xheads().dom());
            assert(self.ylists@.dom() =~= self.yheads().dom());
            assert forall|x2: usize| #[trigger] self.xheads().dom().contains(x2) && x2
                != x.0 implies self.xlist_ok(x2) by {
                assert(oldg.xlist_ok(x2));
                let l = self.xlist(x2);
                assert(l == oldg.xlist(x2));
                assert forall|i: int| 0 <= i < l.len() implies self.edge_at_x(l, x2, i) by {
                    assert(oldg.edge_at_x(l, x2, i));
                    assert(oldg.raw().dom().contains(l[i]));
                    assert(l[i] != e);
                    if xh == Some(l[i]) {
                        assert(lx.len() > 0 && lx[0] == l[i]);
                        assert(oldg.edge_at_x(lx, x.0, 0));
                        assert(oldg.raw()[l[i]].x == x.0);
                        assert(false);
                    }
                }
            }
            assert forall|y2: usize| #[trigger] self.yheads().dom().contains(y2) && y2
                != y.0 implies self.ylist_ok(y2) by {
                assert(oldg.ylist_ok(y2));
                let l = self.ylist(y2);
                assert(l == oldg.ylist(y2));
                assert forall|i: int| 0 <= i < l.len() implies self.edge_at_y(l, y2, i) by {
                    assert(oldg.edge_at_y(l, y2, i));
                    assert(oldg.raw().dom().contains(l[i]));
                    assert(l[i] != e);
                    if yh == Some(l[i]) {
                        assert(ly.len() > 0 && ly[0] == l[i]);
                        assert(oldg.edge_at_y(ly, y.0, 0));
                        assert(oldg.raw()[l[i]].y == y.0);
                        assert(false);
                    }
                }
            }
            // Every edge still sits on the chains of its endpoints.
            assert forall|e2: usize| #[trigger] self.raw().dom().contains(e2) implies
                self.xheads().dom().contains(self.raw()[e2].x) && self.xlist(
                self.raw()[e2].x,
            ).contains(e2) && self.yheads().dom().contains(self.raw()[e2].y) && self.ylist(
                self.raw()[e2].y,
            ).contains(e2) by {
                if e2 == e {
                    assert(lxn[0] == e2);
                    assert(lyn[0] == e2);
                } else {
                    assert(oldg.raw().dom().contains(e2));
                    let xo = oldg.raw()[e2].x;
                    let yo = oldg.raw()[e2].y;
                    assert(oldg.xlist(xo).contains(e2));
                    assert(oldg.ylist(yo).contains(e2));
                    if xo == x.0 {
                        let i = choose|i: int| 0 <= i < lx.len() && lx[i] == e2;
                        assert(lxn[i + 1] == e2);
                    } else {
                        assert(self.xlist(xo) == oldg.xlist(xo));
                    }
                    if yo == y.0 {
                        let i = choose|i: int| 0 <= i < ly.len() && ly[i] == e2;
                        assert(lyn[i + 1] == e2);
                    } else {
                        assert(self.ylist(yo) == oldg.ylist(yo));
                    }
                }
            }
            // The public view gains exactly the new edge.
            lemma_edges_view(*self);
            assert(self.raw().dom().finite()) by {
                assert(self.raw().dom() =~= oldg.raw().dom().insert(e));
            }
            assert(self.edges() =~= oldg.edges().insert(e, (x.0, y.0)));
            assert(!oldg.edges().dom().contains(e));
            assert forall|e2: usize| #[trigger] self.edges().dom().contains(e2) implies
                self.sources().contains(self.edges()[e2].0) && self.targets().contains(
                self.edges()[e2].1,
            ) by {
                if e2 != e {
                    assert(oldg.edges().dom().contains(e2));
                    assert(self.edges()[e2] == oldg.edges()[e2]);
                }
            }
            assert(self.edges().dom().contains(e) && self.edges()[e] == (x.0, y.0));
            assert forall|x2: usize, y2: usize| #![auto] oldg.has_edge(x2, y2) implies
                self.has_edge(x2, y2) by {
                let e2 = choose|e2: usize|
                    #[trigger] oldg.edges().dom().contains(e2) && oldg.edges()[e2] == (x2, y2);
                assert(self.edges().dom().contains(e2) && self.edges()[e2] == (x2, y2));
            }
            assert forall|x2: usize, y2: usize|
                #![auto]
                self.has_edge(x2, y2) implies (oldg.has_edge(x2, y2) || (x2 == x.0 && y2
                == y.0)) by {
                let e2 = choose|e2: usize|
                    #[trigger] self.edges().dom().contains(e2) && self.edges()[e2] == (x2, y2);
                if e2 != e {
                    assert(oldg.edges().dom().contains(e2) && oldg.edges()[e2] == (x2, y2));
                }
            }
            assert(self.has_edge(x.0, y.0));
        }
    }

    /// Unlinks one edge from both of its chains and removes it.
    fn remove_edge(&mut self, e: usize)
        requires
            old(self).wf(),
            old(self).raw().dom().contains(e),
        ensures
            final(self).wf(),
            final(self).sources() == old(self).sources(),
            final(self).targets() == old(self).targets(),
            final(self).raw().dom() == old(self).raw().dom().remove(e),
            forall|e2: usize|
                #[trigger] final(self).raw().dom().contains(e2) ==> final(self).raw()[e2].x == old(
                    self,
                ).raw()[e2].x && final(self).raw()[e2].y == old(self).raw()[e2].y,
            final(self).xlist(old(self).raw()[e].x) == old(self).xlist(
                old(self).raw()[e].x,
            ).remove_value(e),
            forall|x2: usize|
                x2 != old(self).raw()[e].x ==> #[trigger] final(self).xlist(x2) == old(self).xlist(
                    x2,
                ),
            final(self).ylist(old(self).raw()[e].y) == old(self).ylist(
                old(self).raw()[e].y,
            ).remove_value(e),
            forall|y2: usize|
                y2 != old(self).raw()[e].y ==> #[trigger] final(self).ylist(y2) == old(self).ylist(
                    y2,
                ),
    {
        proof {
            lemma_edges_view(*old(self));
        }
        let rec = match edge_slab_get(&self.es, e) {
            Some(rc) => rc,
            None => vstd::pervasive::unreached(),
        };
        let ghost oldg = *old(self);
        let ghost xe = rec.x;
        let ghost ye = rec.y;
        let ghost lx = oldg.xlist(rec.x);
        let ghost ly = oldg.ylist(rec.y);
        let ghost ix = choose|i: int| 0 <= i < lx.len() && lx[i] == e;
        let ghost iy = choose|i: int| 0 <= i < ly.len() && ly[i] == e;
        proof {
            assert(oldg.raw().dom().contains(e));
            assert(oldg.xheads().dom().contains(rec.x) && oldg.xlist(rec.x).contains(e));
            assert(oldg.yheads().dom().contains(rec.y) && oldg.ylist(rec.y).contains(e));
            assert(oldg.xlist_ok(rec.x));
            assert(oldg.ylist_ok(rec.y));
            assert(0 <= ix < lx.len() && lx[ix] == e);
            assert(0 <= iy < ly.len() && ly[iy] == e);
            assert(oldg.edge_at_x(lx, xe, ix));
            assert(oldg.edge_at_y(ly, ye, iy));
            if ix > 0 {
                assert(oldg.edge_at_x(lx, xe, ix - 1));
            }
            if ix < lx.len() - 1 {
                assert(oldg.edge_at_x(lx, xe, ix + 1));
            }
            if iy > 0 {
                assert(oldg.edge_at_y(ly, ye, iy - 1));
            }
            if iy < ly.len() - 1 {
                assert(oldg.edge_at_y(ly, ye, iy + 1));
            }
        }
        match rec.x_prev {
            Some(p) => {
                let pr = match edge_slab_get(&self.es, p) {
                    Some(rc) => rc,
                    None => vstd::pervasive::unreached(),
                };
                edge_slab_set(&mut self.es, p, EdgeRec { x_next: rec.x_next, ..pr });
            },
            None => {
                node_slab_set(&mut self.xs, rec.x, rec.x_next);
            },
        }
        match rec.x_next {
            Some(n) => {
                let nr = match edge_slab_get(&self.es, n) {
                    Some(rc) => rc,
                    None => vstd::pervasive::unreached(),
                };
                edge_slab_set(&mut self.es, n, EdgeRec { x_prev: rec.x_prev, ..nr });
            },
            None => {},
        }
        match rec.y_prev {
            Some(p) => {
                let pr = match edge_slab_get(&self.es, p) {
                    Some(rc) => rc,
                    None => vstd::pervasive::unreached(),
                };
                edge_slab_set(&mut self.es, p, EdgeRec { y_next: rec.y_next, ..pr });
            },
            None => {
                node_slab_set(&mut self.ys, rec.y, rec.y_next);
            },
        }
        match rec.y_next {
            Some(n) => {
                let nr = match edge_slab_get(&self.es, n) {
                    Some(rc) => rc,
                    None => vstd::pervasive::unreached(),
                };
                edge_slab_set(&mut self.es, n, EdgeRec { y_prev: rec.y_prev, ..nr });
            },
            None => {},
        }
        edge_slab_remove(&mut self.es, e);
        proof {
            let lxn = lx.remove(ix);
            let lyn = ly.remove(iy);
            self.xlists@ = self.xlists@.insert(xe, lxn);
            self.ylists@ = self.ylists@.insert(ye, lyn);
            lx.remove_ensures(ix);
            ly.remove_ensures(iy);
            assert(lx.index_of_first(e) == Some(ix)) by {
                let fst = lx.index_of_first(e);
                lx.index_of_first_ensures(e);
                if fst matches Some(j) && j != ix {
                    assert(false);
                }
            }
            assert(ly.index_of_first(e) == Some(iy)) by {
                let fst = ly.index_of_first(e);
                ly.index_of_first_ensures(e);
                if fst matches Some(j) && j != iy {
                    assert(false);
                }
            }
            assert(lx.remove_value(e) == lxn);
            assert(ly.remove_value(e) == lyn);
            // Pointwise description of the surviving records.
            assert forall|e2: usize| #[trigger] self.raw().dom().contains(e2) <==> (
            oldg.raw().dom().contains(e2) && e2 != e) by {}
            assert(self.raw().dom() =~= oldg.raw().dom().remove(e));
            // Each link field is rewritten for at most one neighbour.
            assert forall|e2: usize|
                self.raw().dom().contains(e2) implies (#[trigger] self.raw()[e2]).x
                == oldg.raw()[e2].x && self.raw()[e2].y == oldg.raw()[e2].y by {}
            assert forall|e2: usize|
                self.raw().dom().contains(e2) && rec.x_next != Some(e2) implies (
            #[trigger] self.raw()[e2]).x_prev == oldg.raw()[e2].x_prev by {}
            assert forall|e2: usize|
                self.raw().dom().contains(e2) && rec.x_prev != Some(e2) implies (
            #[trigger] self.raw()[e2]).x_next == oldg.raw()[e2].x_next by {}
            assert forall|e2: usize|
                self.raw().dom().contains(e2) && rec.y_next != Some(e2) implies (
            #[trigger] self.raw()[e2]).y_prev == oldg.raw()[e2].y_prev by {}
            assert forall|e2: usize|
                self.raw().dom().contains(e2) && rec.y_prev != Some(e2) implies (
            #[trigger] self.raw()[e2]).y_next == oldg.raw()[e2].y_next by {}
            match rec.x_next {
                Some(n) => {
                    assert(n == lx[ix + 1]);
                    assert(n != e);
                    assert(self.raw().dom().contains(n) && self.raw()[n].x_prev == rec.x_prev);
                },
                None => {},
            }
            match rec.x_prev {
                Some(p) => {
                    assert(p == lx[ix - 1]);
                    assert(p != e);
                    assert(self.raw().dom().contains(p) && self.raw()[p].x_next == rec.x_next);
                },
                None => {},
            }
            match rec.y_next {
                Some(n) => {
                    assert(n == ly[iy + 1]);
                    assert(n != e);
                    assert(self.raw().dom().contains(n) && self.raw()[n].y_prev == rec.y_prev);
                },
                None => {},
            }
            match rec.y_prev {
                Some(p) => {
                    assert(p == ly[iy - 1]);
                    assert(p != e);
                    assert(self.raw().dom().contains(p) && self.raw()[p].y_next == rec.y_next);
                },
                None => {},
            }
            // Heads move only when the removed edge led a chain.
            assert(self.xheads().dom() =~= oldg.xheads().dom());
            assert(self.yheads().dom() =~= oldg.yheads().dom());
            assert(self.xlists@.dom() =~= self.xheads().dom());
            assert(self.ylists@.dom() =~= self.yheads().dom());
            // The spliced source chain is well linked.
            assert(self.xlist(xe) == lxn);
            assert forall|i: int| 0 <= i < lxn.len() implies self.edge_at_x(lxn, xe, i) by {
                let eid = lxn[i];
                let j: int = if i < ix {
                    i
                } else {
                    i + 1
                };
                assert(eid == lx[j]);
                assert(oldg.edge_at_x(lx, xe, j));
                assert(eid != e);
                assert(self.raw().dom().contains(eid));
                // The x-previous link of position i.
                if i == ix && ix > 0 {
                    assert(eid == lx[ix + 1]);
                    assert(rec.x_next == Some(eid));
                    assert(self.raw()[eid].x_prev == rec.x_prev);
                    assert(rec.x_prev == Some(lx[ix - 1]));
                    assert(lxn[i - 1] == lx[ix - 1]);
                } else if i == ix && ix == 0 {
                    assert(rec.x_next == Some(eid));
                    assert(self.raw()[eid].x_prev == rec.x_prev);
                    assert(rec.x_prev is None);
                } else {
                    if rec.x_next == Some(eid) {
                        assert(lx[ix + 1] == eid);
                        assert(j == ix + 1);
                        assert(false);
                    }
                    assert(self.raw()[eid].x_prev == oldg.raw()[eid].x_prev);
                    if i == 0 {
                        assert(oldg.raw()[eid].x_prev is None);
                    } else {
                        assert(lxn[i - 1] == lx[j - 1]);
                        assert(oldg.raw()[eid].x_prev == Some(lx[j - 1]));
                    }
                }
                // The x-next link of position i.
                if i == ix - 1 {
                    assert(eid == lx[ix - 1]);
                    assert(rec.x_prev == Some(eid));
                    assert(self.raw()[eid].x_next == rec.x_next);
                    if i == lxn.len() - 1 {
                        assert(ix == lx.len() - 1);
                        assert(rec.x_next is None);
                    } else {
                        assert(lxn[i + 1] == lx[ix + 1]);
                        assert(rec.x_next == Some(lx[ix + 1]));
                    }
                } else {
                    if rec.x_prev == Some(eid) {
                        assert(lx[ix - 1] == eid);
                        assert(j == ix - 1);
                        assert(false);
                    }
                    assert(self.raw()[eid].x_next == oldg.raw()[eid].x_next);
                    if i == lxn.len() - 1 {
                        assert(j == lx.len() - 1);
                        assert(oldg.raw()[eid].x_next is None);
                    } else {
                        assert(lxn[i + 1] == lx[j + 1]);
                        assert(oldg.raw()[eid].x_next == Some(lx[j + 1]));
                    }
                }
            }
            assert forall|i: int, j: int| 0 <= i < j < lxn.len() implies lxn[i] != lxn[j] by {
                let i2: int = if i < ix {
                    i
                } else {
                    i + 1
                };
                let j2: int = if j < ix {
                    j
                } else {
                    j + 1
                };
                assert(lxn[i] == lx[i2] && lxn[j] == lx[j2]);
            }
            assert(self.xheads()[xe] == if lxn.len() == 0 {
                None::<usize>
            } else {
                Some(lxn[0])
            }) by {
                if ix == 0 {
                    if lx.len() > 1 {
                        assert(rec.x_next == Some(lx[1]));
                        assert(lxn[0] == lx[1]);
                    } else {
                        assert(rec.x_next is None);
                    }
                } else {
                    assert(oldg.xheads()[xe] == Some(lx[0]));
                    assert(lxn[0] == lx[0]);
                    if rec.x_prev is None {
                        assert(false);
                    }
                }
            }
            assert(self.xlist_ok(xe));
            // The spliced target chain is well linked.
            assert(self.ylist(ye) == lyn);
            assert forall|i: int| 0 <= i < lyn.len() implies self.edge_at_y(lyn, ye, i) by {
                let eid = lyn[i];
                let j: int = if i < iy {
                    i
                } else {
                    i + 1
                };
                assert(eid == ly[j]);
                assert(oldg.edge_at_y(ly, ye, j));
                assert(eid != e);
                assert(self.raw().dom().contains(eid));
                if i == iy && iy > 0 {
                    assert(eid == ly[iy + 1]);
                    assert(rec.y_next == Some(eid));
                    assert(self.raw()[eid].y_prev == rec.y_prev);
                    assert(rec.y_prev == Some(ly[iy - 1]));
                    assert(lyn[i - 1] == ly[iy - 1]);
                } else if i == iy && iy == 0 {
                    assert(rec.y_next == Some(eid));
                    assert(self.raw()[eid].y_prev == rec.y_prev);
                    assert(rec.y_prev is None);
                } else {
                    if rec.y_next == Some(eid) {
                        assert(ly[iy + 1] == eid);
                        assert(j == iy + 1);
                        assert(false);
                    }
                    assert(self.raw()[eid].y_prev == oldg.raw()[eid].y_prev);
                    if i == 0 {
                        assert(oldg.raw()[eid].y_prev is None);
                    } else {
                        assert(lyn[i - 1] == ly[j - 1]);
                        assert(oldg.raw()[eid].y_prev == Some(ly[j - 1]));
                    }
                }
                if i == iy - 1 {
                    assert(eid == ly[iy - 1]);
                    assert(rec.y_prev == Some(eid));
                    assert(self.raw()[eid].y_next == rec.y_next);
                    if i == lyn.len() - 1 {
                        assert(iy == ly.len() - 1);
                        assert(rec.y_next is None);
                    } else {
                        assert(lyn[i + 1] == ly[iy + 1]);
                        assert(rec.y_next == Some(ly[iy + 1]));
                    }
                } else {
                    if rec.y_prev == Some(eid) {
                        assert(ly[iy - 1] == eid);
                        assert(j == iy - 1);
                        assert(false);
                    }
                    assert(self.raw()[eid].y_next == oldg.raw()[eid].y_next);
                    if i == lyn.len() - 1 {
                        assert(j == ly.len() - 1);
                        assert(oldg.raw()[eid].y_next is None);
                    } else {
                        assert(lyn[i + 1] == ly[j + 1]);
                        assert(oldg.raw()[eid].y_next == Some(ly[j + 1]));
                    }
                }
            }
            assert forall|i: int, j: int| 0 <= i < j < lyn.len() implies lyn[i] != lyn[j] by {
                let i2: int = if i < iy {
                    i
                } else {
                    i + 1
                };
                let j2: int = if j < iy {
                    j
                } else {
                    j + 1
                };
                assert(lyn[i] == ly[i2] && lyn[j] == ly[j2]);
            }
            assert(self.yheads()[ye] == if lyn.len() == 0 {
                None::<usize>
            } else {
                Some(lyn[0])
            }) by {
                if iy == 0 {
                    if ly.len() > 1 {
                        assert(rec.y_next == Some(ly[1]));
                        assert(lyn[0] == ly[1]);
                    } else {
                        assert(rec.y_next is None);
                    }
                } else {
                    assert(oldg.yheads()[ye] == Some(ly[0]));
                    assert(lyn[0] == ly[0]);
                    if rec.y_prev is None {
                        assert(false);
                    }
                }
            }
            assert(self.ylist_ok(ye));
            // Chains of other nodes are untouched: the rewritten neighbours
            // sit on the removed edge's own chains.
            assert forall|x2: usize| #[trigger] self.xheads().dom().contains(x2) && x2
                != xe implies self.xlist_ok(x2) by {
                assert(oldg.xlist_ok(x2));
                let l = self.xlist(x2);
                assert(l == oldg.xlist(x2));
                assert(self.xheads()[x2] == oldg.xheads()[x2]) by {
                    if rec.x_prev is None {
                        assert(x2 != xe);
                    }
                }
                assert forall|i: int| 0 <= i < l.len() implies self.edge_at_x(l, x2, i) by {
                    assert(oldg.edge_at_x(l, x2, i));
                    let eid = l[i];
                    assert(oldg.raw()[eid].x == x2);
                    assert(eid != e) by {
                        if eid == e {
                            assert(oldg.raw()[e].x == xe);
                        }
                    }
                    assert(rec.x_prev != Some(eid)) by {
                        if rec.x_prev == Some(eid) {
                            assert(oldg.raw()[lx[ix - 1]].x == xe);
                            assert(eid == lx[ix - 1]);
                        }
                    }
                    assert(rec.x_next != Some(eid)) by {
                        if rec.x_next == Some(eid) {
                            assert(oldg.raw()[lx[ix + 1]].x == xe);
                            assert(eid == lx[ix + 1]);
                        }
                    }
                }
            }
            assert forall|y2: usize| #[trigger] self.yheads().dom().contains(y2) && y2
                != ye implies self.ylist_ok(y2) by {
                assert(oldg.ylist_ok(y2));
                let l = self.ylist(y2);
                assert(l == oldg.ylist(y2));
                assert(self.yheads()[y2] == oldg.yheads()[y2]) by {
                    if rec.y_prev is None {
                        assert(y2 != ye);
                    }
                }
                assert forall|i: int| 0 <= i < l.len() implies self.edge_at_y(l, y2, i) by {
                    assert(oldg.edge_at_y(l, y2, i));
                    let eid = l[i];
                    assert(oldg.raw()[eid].y == y2);
                    assert(eid != e) by {
                        if eid == e {
                            assert(oldg.raw()[e].y == ye);
                        }
                    }
                    assert(rec.y_prev != Some(eid)) by {
                        if rec.y_prev == Some(eid) {
                            assert(oldg.raw()[ly[iy - 1]].y == ye);
                            assert(eid == ly[iy - 1]);
                        }
                    }
                    assert(rec.y_next != Some(eid)) by {
                        if rec.y_next == Some(eid) {
                            assert(oldg.raw()[ly[iy + 1]].y == ye);
                            assert(eid == ly[iy + 1]);
                        }
                    }
                }
            }
            // Every surviving edge still sits on its chains.
            assert forall|e2: usize| #[trigger] self.raw().dom().contains(e2) implies
                self.xheads().dom().contains(self.raw()[e2].x) && self.xlist(
                self.raw()[e2].x,
            ).contains(e2) && self.yheads().dom().contains(self.raw()[e2].y) && self.ylist(
                self.raw()[e2].y,
            ).contains(e2) by {
                assert(oldg.raw().dom().contains(e2));
                let xo = oldg.raw()[e2].x;
                let yo = oldg.raw()[e2].y;
                assert(oldg.xlist(xo).contains(e2));
                assert(oldg.ylist(yo).contains(e2));
                if xo == xe {
                    let i = choose|i: int| 0 <= i < lx.len() && lx[i] == e2;
                    assert(i != ix);
                    if i < ix {
                        assert(lxn[i] == e2);
                    } else {
                        assert(lxn[i - 1] == e2);
                    }
                } else {
                    assert(self.xlist(xo) == oldg.xlist(xo));
                }
                if yo == ye {
                    let i = choose|i: int| 0 <= i < ly.len() && ly[i] == e2;
                    assert(i != iy);
                    if i < iy {
                        assert(lyn[i] == e2);
                    } else {
                        assert(lyn[i - 1] == e2);
                    }
                } else {
                    assert(self.ylist(yo) == oldg.ylist(yo));
                }
            }
            // The public view loses exactly the removed edge.
            lemma_edges_view(*self);
            assert forall|e2: usize| #[trigger] self.edges().dom().contains(e2) implies
                self.sources().contains(self.edges()[e2].0) && self.targets().contains(
                self.edges()[e2].1,
            ) by {
                assert(oldg.edges().dom().contains(e2));
                assert(self.edges()[e2] == oldg.edges()[e2]);
            }
            assert(self.sources() =~= oldg.sources());
            assert(self.targets() =~= oldg.targets());
            assert forall|x2: usize| x2 != xe implies #[trigger] self.xlist(x2) == oldg.xlist(
                x2,
            ) by {}
            assert forall|y2: usize| y2 != ye implies #[trigger] self.ylist(y2) == oldg.ylist(
                y2,
            ) by {}
        }
    }

    /// Removes a source node together with every edge that leaves it,
    /// walking only the node's own adjacency chain.
    pub fn remove_x(&mut self, x: XKey)
        requires
            old(self).wf(),
            old(self).sources().contains(x.0),
        ensures
            final(self).wf(),
            final(self).targets() == old(self).targets(),
            final(self).sources() == old(self).sources().remove(x.0),
            forall|e: usize|
                #[trigger] final(self).edges().dom().contains(e) <==> (old(
                    self,
                ).edges().dom().contains(e) && old(self).edges()[e].0 != x.0),
            forall|e: usize|
                #[trigger] final(self).edges().dom().contains(e) ==> final(self).edges()[e] == old(
                    self,
                ).edges()[e],
    {
        let ghost oldg = *old(self);
        let ghost lx = oldg.xlist(x.0);
        let ghost mut k: int = 0;
        proof {
            lemma_edges_view(oldg);
            assert(self.xlist(x.0) == lx.skip(0));
            assert(lx.skip(0) =~= lx);
        }
        let mut head = match node_slab_get(&self.xs, x.0) {
            Some(h) => h,
            None => vstd::pervasive::unreached(),
        };
        while head.is_some()
            invariant
                self.wf(),
                oldg.wf(),
                lx == oldg.xlist(x.0),
                0 <= k <= lx.len(),
                self.sources() == oldg.sources(),
                self.targets() == oldg.targets(),
                oldg.sources().contains(x.0),
                self.xlist(x.0) == lx.skip(k),
                head == self.xheads()[x.0],
                forall|i: int, j: int| 0 <= i < j < lx.len() ==> lx[i] != lx[j],
                forall|e2: usize|
                    #[trigger] self.raw().dom().contains(e2) <==> (oldg.raw().dom().contains(e2)
                        && !lx.take(k).contains(e2)),
                forall|e2: usize|
                    #[trigger] self.raw().dom().contains(e2) ==> self.raw()[e2].x
                        == oldg.raw()[e2].x && self.raw()[e2].y == oldg.raw()[e2].y,
            decreases lx.len() - k,
        {
            let eid = match head {
                Some(v) => v,
                None => vstd::pervasive::unreached(),
            };
            proof {
                assert(self.xlist_ok(x.0));
                let l = self.xlist(x.0);
                assert(l.len() > 0 && l[0] == eid);
                assert(self.edge_at_x(l, x.0, 0));
                assert(self.raw()[eid].x == x.0);
                assert(eid == lx[k]);
            }
            let ghost pre = *self;
            self.remove_edge(eid);
            proof {
                let l = pre.xlist(x.0);
                l.index_of_first_ensures(eid);
                assert(l[0] == eid);
                assert(self.xlist(x.0) == l.remove(0));
                assert(l.remove(0) =~= lx.skip(k + 1));
                assert(lx.take(k + 1) =~= lx.take(k).push(lx[k]));
                assert forall|e2: usize| #[trigger] self.raw().dom().contains(e2) <==> (
                oldg.raw().dom().contains(e2) && !lx.take(k + 1).contains(e2)) by {
                    if self.raw().dom().contains(e2) {
                        assert(pre.raw().dom().contains(e2) && e2 != eid);
                        assert(!lx.take(k).contains(e2));
                        if lx.take(k + 1).contains(e2) {
                            let i = choose|i: int|
                                #![trigger lx.take(k + 1)[i]]
                                0 <= i < lx.take(k + 1).len() && lx.take(k + 1)[i] == e2;
                            assert(lx[i] == e2);
                            assert(i == k);
                            assert(false);
                        }
                    } else {
                        if oldg.raw().dom().contains(e2) && !lx.take(k + 1).contains(e2) {
                            assert(!lx.take(k).contains(e2));
                            assert(pre.raw().dom().contains(e2));
                            assert(e2 == eid);
                            assert(lx.take(k + 1)[k] == eid);
                            assert(false);
                        }
                    }
                }
                k = k + 1;
            }
            head = match node_slab_get(&self.xs, x.0) {
                Some(h) => h,
                None => vstd::pervasive::unreached(),
            };
        }
        proof {
            assert(self.xlist_ok(x.0));
            assert(self.xlist(x.0).len() == 0);
            assert(lx.skip(k).len() == 0);
            assert(k == lx.len());
        }
        let ghost mid = *self;
        node_slab_remove(&mut self.xs, x.0);
        proof {
            self.xlists@ = self.xlists@.remove(x.0);
            assert(self.xlists@.dom() =~= self.xheads().dom());
            assert forall|x2: usize| #[trigger] self.xheads().dom().contains(x2) implies
                self.xlist_ok(x2) by {
                assert(x2 != x.0);
                assert(mid.xlist_ok(x2));
                let l = self.xlist(x2);
                assert(l == mid.xlist(x2));
                assert forall|i: int| 0 <= i < l.len() implies self.edge_at_x(l, x2, i) by {
                    assert(mid.edge_at_x(l, x2, i));
                }
            }
            assert forall|y2: usize| #[trigger] self.yheads().dom().contains(y2) implies
                self.ylist_ok(y2) by {
                assert(mid.ylist_ok(y2));
                let l = self.ylist(y2);
                assert forall|i: int| 0 <= i < l.len() implies self.edge_at_y(l, y2, i) by {
                    assert(mid.edge_at_y(l, y2, i));
                }
            }
            // No surviving edge leaves the removed node.
            assert forall|e2: usize| #[trigger] self.raw().dom().contains(e2) implies
                self.raw()[e2].x != x.0 by {
                if self.raw()[e2].x == x.0 {
                    assert(mid.raw().dom().contains(e2));
                    assert(mid.xlist(x.0).contains(e2));
                    assert(mid.xlist(x.0).len() == 0);
                }
            }
            assert forall|e2: usize| #[trigger] self.raw().dom().contains(e2) implies
                self.xheads().dom().contains(self.raw()[e2].x) && self.xlist(
                self.raw()[e2].x,
            ).contains(e2) && self.yheads().dom().contains(self.raw()[e2].y) && self.ylist(
                self.raw()[e2].y,
            ).contains(e2) by {
                assert(mid.raw().dom().contains(e2));
                assert(mid.xlist(self.raw()[e2].x).contains(e2));
                assert(self.raw()[e2].x != x.0);
            }
            lemma_edges_view(*self);
            lemma_edges_view(mid);
            assert(self.sources() =~= oldg.sources().remove(x.0));
            assert(lx.take(lx.len() as int) =~= lx);
            // An old edge sits in the removed chain exactly when it left the
            // removed node.
            assert forall|e2: usize| #[trigger] self.edges().dom().contains(e2) <==> (
            oldg.edges().dom().contains(e2) && oldg.edges()[e2].0 != x.0) by {
                if self.edges().dom().contains(e2) {
                    assert(self.raw().dom().contains(e2));
                    assert(oldg.raw().dom().contains(e2));
                    assert(self.raw()[e2].x == oldg.raw()[e2].x);
                    assert(oldg.edges()[e2].0 == oldg.raw()[e2].x);
                    assert(self.raw()[e2].x != x.0);
                } else {
                    if oldg.raw().dom().contains(e2) && oldg.raw()[e2].x != x.0 {
                        assert(!mid.raw().dom().contains(e2) || e2 matches _);
                        if lx.contains(e2) {
                            let i = choose|i: int| 0 <= i < lx.len() && lx[i] == e2;
                            assert(oldg.edge_at_x(lx, x.0, i)) by {
                                assert(oldg.xlist_ok(x.0));
                            }
                            assert(oldg.raw()[e2].x == x.0);
                            assert(false);
                        }
                        assert(mid.raw().dom().contains(e2));
                        assert(self.raw().dom().contains(e2));
                        assert(false);
                    }
                }
            }
            assert forall|e2: usize| #[trigger] self.edges().dom().contains(e2) implies
                self.edges()[e2] == oldg.edges()[e2] by {
                assert(self.raw().dom().contains(e2) && oldg.raw().dom().contains(e2));
            }
            assert forall|e2: usize| #[trigger] self.edges().dom().contains(e2) implies
                self.sources().contains(self.edges()[e2].0) && self.targets().contains(
                self.edges()[e2].1,
            ) by {
                assert(oldg.edges().dom().contains(e2));
                assert(self.edges()[e2] == oldg.edges()[e2]);
                assert(self.edges()[e2].0 == self.raw()[e2].x);
                assert(self.xheads().dom().contains(self.raw()[e2].x));
                assert(self.edges()[e2].1 == self.raw()[e2].y);
                assert(self.yheads().dom().contains(self.raw()[e2].y));
            }
        }
    }

    /// Removes a target node together with every edge that ends in it,
    /// walking only the node's own adjacency chain.
    pub fn remove_y(&mut self, y: YKey)
        requires
            old(self).wf(),
            old(self).targets().contains(y.0),
        ensures
            final(self).wf(),
            final(self).sources() == old(self).sources(),
            final(self).targets() == old(self).targets().remove(y.0),
            forall|e: usize|
                #[trigger] final(self).edges().dom().contains(e) <==> (old(
                    self,
                ).edges().dom().contains(e) && old(self).edges()[e].1 != y.0),
            forall|e: usize|
                #[trigger] final(self).edges().dom().contains(e) ==> final(self).edges()[e] == old(
                    self,
                ).edges()[e],
    {
        let ghost oldg = *old(self);
        let ghost ly = oldg.ylist(y.0);
        let ghost mut k: int = 0;
        proof {
            lemma_edges_view(oldg);
            assert(self.ylist(y.0) == ly.skip(0));
            assert(ly.skip(0) =~= ly);
        }
        let mut head = match node_slab_get(&self.ys, y.0) {
            Some(h) => h,
            None => vstd::pervasive::unreached(),
        };
        while head.is_some()
            invariant
                self.wf(),
                oldg.wf(),
                ly == oldg.ylist(y.0),
                0 <= k <= ly.len(),
                self.sources() == oldg.sources(),
                self.targets() == oldg.targets(),
                oldg.targets().contains(y.0),
                self.ylist(y.0) == ly.skip(k),
                head == self.yheads()[y.0],
                forall|i: int, j: int| 0 <= i < j < ly.len() ==> ly[i] != ly[j],
                forall|e2: usize|
                    #[trigger] self.raw().dom().contains(e2) <==> (oldg.raw().dom().contains(e2)
                        && !ly.take(k).contains(e2)),
                forall|e2: usize|
                    #[trigger] self.raw().dom().contains(e2) ==> self.raw()[e2].x
                        == oldg.raw()[e2].x && self.raw()[e2].y == oldg.raw()[e2].y,
            decreases ly.len() - k,
        {
            let eid = match head {
                Some(v) => v,
                None => vstd::pervasive::unreached(),
            };
            proof {
                assert(self.ylist_ok(y.0));
                let l = self.ylist(y.0);
                assert(l.len() > 0 && l[0] == eid);
                assert(self.edge_at_y(l, y.0, 0));
                assert(self.raw()[eid].y == y.0);
                assert(eid == ly[k]);
            }
            let ghost pre = *self;
            self.remove_edge(eid);
            proof {
                let l = pre.ylist(y.0);
                l.index_of_first_ensures(eid);
                assert(l[0] == eid);
                assert(self.ylist(y.0) == l.remove(0));
                assert(l.remove(0) =~= ly.skip(k + 1));
                assert(ly.take(k + 1) =~= ly.take(k).push(ly[k]));
                assert forall|e2: usize| #[trigger] self.raw().dom().contains(e2) <==> (
                oldg.raw().dom().contains(e2) && !ly.take(k + 1).contains(e2)) by {
                    if self.raw().dom().contains(e2) {
                        assert(pre.raw().dom().contains(e2) && e2 != eid);
                        assert(!ly.take(k).contains(e2));
                        if ly.take(k + 1).contains(e2) {
                            let i = choose|i: int|
                                #![trigger ly.take(k + 1)[i]]
                                0 <= i < ly.take(k + 1).len() && ly.take(k + 1)[i] == e2;
                            assert(ly[i] == e2);
                            assert(i == k);
                            assert(false);
                        }
                    } else {
                        if oldg.raw().dom().contains(e2) && !ly.take(k + 1).contains(e2) {
                            assert(!ly.take(k).contains(e2));
                            assert(pre.raw().dom().contains(e2));
                            assert(e2 == eid);
                            assert(ly.take(k + 1)[k] == eid);
                            assert(false);
                        }
                    }
                }
                k = k + 1;
            }
            head = match node_slab_get(&self.ys, y.0) {
                Some(h) => h,
                None => vstd::pervasive::unreached(),
            };
        }
        proof {
            assert(self.ylist_ok(y.0));
            assert(self.ylist(y.0).len() == 0);
            assert(ly.skip(k).len() == 0);
            assert(k == ly.len());
        }
        let ghost mid = *self;
        node_slab_remove(&mut self.ys, y.0);
        proof {
            self.ylists@ = self.ylists@.remove(y.0);
            assert(self.ylists@.dom() =~= self.yheads().dom());
            assert forall|y2: usize| #[trigger] self.yheads().dom().contains(y2) implies
                self.ylist_ok(y2) by {
                assert(y2 != y.0);
                assert(mid.ylist_ok(y2));
                let l = self.ylist(y2);
                assert(l == mid.ylist(y2));
                assert forall|i: int| 0 <= i < l.len() implies self.edge_at_y(l, y2, i) by {
                    assert(mid.edge_at_y(l, y2, i));
                }
            }
            assert forall|x2: usize| #[trigger] self.xheads().dom().contains(x2) implies
                self.xlist_ok(x2) by {
                assert(mid.xlist_ok(x2));
                let l = self.xlist(x2);
                assert forall|i: int| 0 <= i < l.len() implies self.edge_at_x(l, x2, i) by {
                    assert(mid.edge_at_x(l, x2, i));
                }
            }
            assert forall|e2: usize| #[trigger] self.raw().dom().contains(e2) implies
                self.raw()[e2].y != y.0 by {
                if self.raw()[e2].y == y.0 {
                    assert(mid.raw().dom().contains(e2));
                    assert(mid.ylist(y.0).contains(e2));
                    assert(mid.ylist(y.0).len() == 0);
                }
            }
            assert forall|e2: usize| #[trigger] self.raw().dom().contains(e2) implies
                self.xheads().dom().contains(self.raw()[e2].x) && self.xlist(
                self.raw()[e2].x,
            ).contains(e2) && self.yheads().dom().contains(self.raw()[e2].y) && self.ylist(
                self.raw()[e2].y,
            ).contains(e2) by {
                assert(mid.raw().dom().contains(e2));
                assert(mid.ylist(self.raw()[e2].y).contains(e2));
                assert(self.raw()[e2].y != y.0);
            }
            lemma_edges_view(*self);
            lemma_edges_view(mid);
            assert(self.targets() =~= oldg.targets().remove(y.0));
            assert(ly.take(ly.len() as int) =~= ly);
            assert forall|e2: usize| #[trigger] self.edges().dom().contains(e2) <==> (
            oldg.edges().dom().contains(e2) && oldg.edges()[e2].1 != y.0) by {
                if self.edges().dom().contains(e2) {
                    assert(self.raw().dom().contains(e2));
                    assert(oldg.raw().dom().contains(e2));
                    assert(self.raw()[e2].y == oldg.raw()[e2].y);
                    assert(oldg.edges()[e2].1 == oldg.raw()[e2].y);
                    assert(self.raw()[e2].y != y.0);
                } else {
                    if oldg.raw().dom().contains(e2) && oldg.raw()[e2].y != y.0 {
                        if ly.contains(e2) {
                            let i = choose|i: int| 0 <= i < ly.len() && ly[i] == e2;
                            assert(oldg.edge_at_y(ly, y.0, i)) by {
                                assert(oldg.ylist_ok(y.0));
                            }
                            assert(oldg.raw()[e2].y == y.0);
                            assert(false);
                        }
                        assert(mid.raw().dom().contains(e2));
                        assert(self.raw().dom().contains(e2));
                        assert(false);
                    }
                }
            }
            assert forall|e2: usize| #[trigger] self.edges().dom().contains(e2) implies
                self.edges()[e2] == oldg.edges()[e2] by {
                assert(self.raw().dom().contains(e2) && oldg.raw().dom().contains(e2));
            }
            assert forall|e2: usize| #[trigger] self.edges().dom().contains(e2) implies
                self.sources().contains(self.edges()[e2].0) && self.targets().contains(
                self.edges()[e2].1,
            ) by {
                assert(oldg.edges().dom().contains(e2));
                assert(self.edges()[e2] == oldg.edges()[e2]);
                assert(self.edges()[e2].0 == self.raw()[e2].x);
                assert(self.xheads().dom().contains(self.raw()[e2].x));
                assert(self.edges()[e2].1 == self.raw()[e2].y);
                assert(self.yheads().dom().contains(self.raw()[e2].y));
            }
        }
    }

    /// The targets adjacent to `x`, one entry per edge that leaves `x`,
    /// collected by walking the node's chain.
    pub fn ys_from_x(&self, x: XKey) -> (r: Vec<YKey>)
        requires
            self.wf(),
        ensures
            forall|yk: YKey| #[trigger] r@.contains(yk) <==> self.has_edge(x.0, yk.0),
            r@.len() == self.edges_from(x.0).len(),
            self.sources().contains(x.0) ==> r@.len() == self.xlist(x.0).len() && (forall|i: int|
                0 <= i < r@.len() ==> #[trigger] r@[i] == YKey(
                    self.raw()[self.xlist(x.0)[i]].y,
                )),
            !self.sources().contains(x.0) ==> r@.len() == 0,
    {
        proof {
            lemma_edges_view(*self);
        }
        let mut r: Vec<YKey> = Vec::new();
        let head = match node_slab_get(&self.xs, x.0) {
            Some(h) => h,
            None => {
                proof {
                    assert forall|yk: YKey| #[trigger] r@.contains(yk) <==> self.has_edge(
                        x.0,
                        yk.0,
                    ) by {
                        if self.has_edge(x.0, yk.0) {
                            let e = choose|e: usize|
                                #[trigger] self.edges().dom().contains(e) && self.edges()[e] == (
                                x.0,
                                yk.0,
                                );
                            assert(self.sources().contains(x.0));
                        }
                    }
                    assert forall|e: usize| !(#[trigger] self.edges_from(x.0).contains(e)) by {
                        if self.edges_from(x.0).contains(e) {
                            assert(self.edges().dom().contains(e) && self.edges()[e].0 == x.0);
                            assert(self.sources().contains(x.0));
                        }
                    }
                    assert(self.edges_from(x.0) =~= Set::<usize>::empty());
                }
                return r;
            },
        };
        let ghost l = self.xlist(x.0);
        proof {
            assert(self.xlist_ok(x.0));
        }
        let mut cur: NodeHead = head;
        let ghost mut i: int = 0;
        while cur.is_some()
            invariant
                self.wf(),
                self.sources().contains(x.0),
                l == self.xlist(x.0),
                0 <= i <= l.len(),
                cur == if i < l.len() {
                    Some(l[i])
                } else {
                    None::<usize>
                },
                r@.len() == i,
                forall|j: int| 0 <= j < i ==> #[trigger] r@[j] == YKey(self.raw()[l[j]].y),
                forall|yk: YKey|
                    #[trigger] r@.contains(yk) <==> exists|j: int|
                        #![auto]
                        0 <= j < i && self.raw()[l[j]].y == yk.0,
            decreases l.len() - i,
        {
            let eid = match cur {
                Some(v) => v,
                None => vstd::pervasive::unreached(),
            };
            proof {
                assert(self.xlist_ok(x.0));
                assert(self.edge_at_x(l, x.0, i));
            }
            let rec = match edge_slab_get(&self.es, eid) {
                Some(rc) => rc,
                None => vstd::pervasive::unreached(),
            };
            let ghost prev = r@;
            r.push(YKey(rec.y));
            cur = rec.x_next;
            proof {
                assert(r@[r@.len() - 1] == YKey(rec.y));
                assert(self.raw()[l[i]].y == rec.y);
                assert forall|yk: YKey| #[trigger] r@.contains(yk) implies exists|j: int|
                    #![auto]
                    0 <= j < i + 1 && self.raw()[l[j]].y == yk.0 by {
                    let jj = choose|jj: int| 0 <= jj < r@.len() && r@[jj] == yk;
                    if jj < r@.len() - 1 {
                        assert(prev[jj] == yk);
                        assert(prev.contains(yk));
                    } else {
                        assert(self.raw()[l[i]].y == yk.0);
                    }
                }
                assert forall|yk: YKey|
                    (exists|j: int| #![auto] 0 <= j < i + 1 && self.raw()[l[j]].y == yk.0) implies
                    #[trigger] r@.contains(yk) by {
                    let j = choose|j: int| #![auto] 0 <= j < i + 1 && self.raw()[l[j]].y == yk.0;
                    if j < i {
                        assert(prev.contains(yk));
                        let jj = choose|jj: int| 0 <= jj < prev.len() && prev[jj] == yk;
                        assert(r@[jj] == yk);
                    } else {
                        assert(r@[r@.len() - 1] == yk);
                    }
                }
                i = i + 1;
            }
        }
        proof {
            assert(i == l.len());
            assert forall|yk: YKey| #[trigger] r@.contains(yk) implies self.has_edge(
                x.0,
                yk.0,
            ) by {
                let j = choose|j: int| #![auto] 0 <= j < i && self.raw()[l[j]].y == yk.0;
                assert(self.edge_at_x(l, x.0, j));
                let e = l[j];
                assert(self.raw().dom().contains(e));
                assert(self.edges().dom().contains(e) && self.edges()[e] == (x.0, yk.0));
            }
            assert forall|yk: YKey| self.has_edge(x.0, yk.0) implies #[trigger] r@.contains(
                yk,
            ) by {
                let e = choose|e: usize|
                    #[trigger] self.edges().dom().contains(e) && self.edges()[e] == (x.0, yk.0);
                assert(self.raw().dom().contains(e));
                assert(self.raw()[e].x == x.0 && self.raw()[e].y == yk.0);
                assert(self.xlist(x.0).contains(e));
                let j = choose|j: int| 0 <= j < l.len() && l[j] == e;
                assert(self.raw()[l[j]].y == yk.0);
            }
            // One entry per edge: the chain visits each edge from `x` once.
            assert(l.no_duplicates()) by {
                assert(self.xlist_ok(x.0));
            }
            l.unique_seq_to_set();
            assert forall|e: usize| l.to_set().contains(e) implies
                #[trigger] self.edges_from(x.0).contains(e) by {
                assert(l.contains(e));
                let j = choose|j: int| 0 <= j < l.len() && l[j] == e;
                assert(self.edge_at_x(l, x.0, j));
                assert(self.edges().dom().contains(e) && self.edges()[e].0 == x.0);
            }
            assert forall|e: usize| #[trigger] self.edges_from(x.0).contains(e) implies
                l.to_set().contains(e) by {
                assert(self.edges().dom().contains(e) && self.edges()[e].0 == x.0);
                assert(self.raw().dom().contains(e) && self.raw()[e].x == x.0);
                assert(self.xlist(x.0).contains(e));
            }
            assert(l.to_set() =~= self.edges_from(x.0));
        }
        r
    }

    /// The sources adjacent to `y`, one entry per edge that ends in `y`,
    /// collected by walking the node's chain.
    pub fn xs_from_y(&self, y: YKey) -> (r: Vec<XKey>)
        requires
            self.wf(),
        ensures
            forall|xk: XKey| #[trigger] r@.contains(xk) <==> self.has_edge(xk.0, y.0),
            r@.len() == self.edges_into(y.0).len(),
            self.targets().contains(y.0) ==> r@.len() == self.ylist(y.0).len() && (forall|i: int|
                0 <= i < r@.len() ==> #[trigger] r@[i] == XKey(
                    self.raw()[self.ylist(y.0)[i]].x,
                )),
            !self.targets().contains(y.0) ==> r@.len() == 0,
    {
        proof {
            lemma_edges_view(*self);
        }
        let mut r: Vec<XKey> = Vec::new();
        let head = match node_slab_get(&self.ys, y.0) {
            Some(h) => h,
            None => {
                proof {
                    assert forall|xk: XKey| #[trigger] r@.contains(xk) <==> self.has_edge(
                        xk.0,
                        y.0,
                    ) by {
                        if self.has_edge(xk.0, y.0) {
                            let e = choose|e: usize|
                                #[trigger] self.edges().dom().contains(e) && self.edges()[e] == (
                                xk.0,
                                y.0,
                                );
                            assert(self.targets().contains(y.0));
                        }
                    }
                    assert forall|e: usize| !(#[trigger] self.edges_into(y.0).contains(e)) by {
                        if self.edges_into(y.0).contains(e) {
                            assert(self.edges().dom().contains(e) && self.edges()[e].1 == y.0);
                            assert(self.targets().contains(y.0));
                        }
                    }
                    assert(self.edges_into(y.0) =~= Set::<usize>::empty());
                }
                return r;
            },
        };
        let ghost l = self.ylist(y.0);
        proof {
            assert(self.ylist_ok(y.0));
        }
        let mut cur: NodeHead = head;
        let ghost mut i: int = 0;
        while cur.is_some()
            invariant
                self.wf(),
                self.targets().contains(y.0),
                l == self.ylist(y.0),
                0 <= i <= l.len(),
                cur == if i < l.len() {
                    Some(l[i])
                } else {
                    None::<usize>
                },
                r@.len() == i,
                forall|j: int| 0 <= j < i ==> #[trigger] r@[j] == XKey(self.raw()[l[j]].x),
                forall|xk: XKey|
                    #[trigger] r@.contains(xk) <==> exists|j: int|
                        #![auto]
                        0 <= j < i && self.raw()[l[j]].x == xk.0,
            decreases l.len() - i,
        {
            let eid = match cur {
                Some(v) => v,
                None => vstd::pervasive::unreached(),
            };
            proof {
                assert(self.ylist_ok(y.0));
                assert(self.edge_at_y(l, y.0, i));
            }
            let rec = match edge_slab_get(&self.es, eid) {
                Some(rc) => rc,
                None => vstd::pervasive::unreached(),
            };
            let ghost prev = r@;
            r.push(XKey(rec.x));
            cur = rec.y_next;
            proof {
                assert(r@[r@.len() - 1] == XKey(rec.x));
                assert(self.raw()[l[i]].x == rec.x);
                assert forall|xk: XKey| #[trigger] r@.contains(xk) implies exists|j: int|
                    #![auto]
                    0 <= j < i + 1 && self.raw()[l[j]].x == xk.0 by {
                    let jj = choose|jj: int| 0 <= jj < r@.len() && r@[jj] == xk;
                    if jj < r@.len() - 1 {
                        assert(prev[jj] == xk);
                        assert(prev.contains(xk));
                    } else {
                        assert(self.raw()[l[i]].x == xk.0);
                    }
                }
                assert forall|xk: XKey|
                    (exists|j: int| #![auto] 0 <= j < i + 1 && self.raw()[l[j]].x == xk.0) implies
                    #[trigger] r@.contains(xk) by {
                    let j = choose|j: int| #![auto] 0 <= j < i + 1 && self.raw()[l[j]].x == xk.0;
                    if j < i {
                        assert(prev.contains(xk));
                        let jj = choose|jj: int| 0 <= jj < prev.len() && prev[jj] == xk;
                        assert(r@[jj] == xk);
                    } else {
                        assert(r@[r@.len() - 1] == xk);
                    }
                }
                i = i + 1;
            }
        }
        proof {
            assert(i == l.len());
            assert forall|xk: XKey| #[trigger] r@.contains(xk) implies self.has_edge(
                xk.0,
                y.0,
            ) by {
                let j = choose|j: int| #![auto] 0 <= j < i && self.raw()[l[j]].x == xk.0;
                assert(self.edge_at_y(l, y.0, j));
                let e = l[j];
                assert(self.raw().dom().contains(e));
                assert(self.edges().dom().contains(e) && self.edges()[e] == (xk.0, y.0));
            }
            assert forall|xk: XKey| self.has_edge(xk.0, y.0) implies #[trigger] r@.contains(
                xk,
            ) by {
                let e = choose|e: usize|
                    #[trigger] self.edges().dom().contains(e) && self.edges()[e] == (xk.0, y.0);
                assert(self.raw().dom().contains(e));
                assert(self.raw()[e].x == xk.0 && self.raw()[e].y == y.0);
                assert(self.ylist(y.0).contains(e));
                let j = choose|j: int| 0 <= j < l.len() && l[j] == e;
                assert(self.raw()[l[j]].x == xk.0);
            }
            // One entry per edge: the chain visits each edge into `y` once.
            assert(l.no_duplicates()) by {
                assert(self.ylist_ok(y.0));
            }
            l.unique_seq_to_set();
            assert forall|e: usize| l.to_set().contains(e) implies
                #[trigger] self.edges_into(y.0).contains(e) by {
                assert(l.contains(e));
                let j = choose|j: int| 0 <= j < l.len() && l[j] == e;
                assert(self.edge_at_y(l, y.0, j));
                assert(self.edges().dom().contains(e) && self.edges()[e].1 == y.0);
            }
            assert forall|e: usize| #[trigger] self.edges_into(y.0).contains(e) implies
                l.to_set().contains(e) by {
                assert(self.edges().dom().contains(e) && self.edges()[e].1 == y.0);
                assert(self.raw().dom().contains(e) && self.raw()[e].y == y.0);
                assert(self.ylist(y.0).contains(e));
            }
            assert(l.to_set() =~= self.edges_into(y.0));
        }
        r
    }

}

/// The public edge view mirrors the raw records: same ids, endpoint pairs
/// as values.
proof fn lemma_edges_view(g: BipartiteGraph)
    ensures
        g.edges().dom() == g.raw().dom(),
        forall|e: usize|
            #[trigger] g.raw().dom().contains(e) ==> g.edges()[e] == (g.raw()[e].x, g.raw()[e].y),
{
    assert(g.edges().dom() =~= g.raw().dom());
}

} // verus!
