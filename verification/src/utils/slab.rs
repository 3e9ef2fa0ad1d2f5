use vstd::prelude::*;

verus! {

#[verifier::external_type_specification]
#[verifier::external_body]
#[verifier::reject_recursive_types(T)]
pub struct ExSlabMap<T>(slabmap::SlabMap<T>);

/// What a node slot stores: the id of the first edge in the node's
/// adjacency list, if the node has any edge.
pub type NodeHead = Option<usize>;

/// An edge record: the endpoints, and the edge's neighbours in the two
/// doubly linked adjacency lists it is threaded on — one list per source
/// node, one per target node.
#[derive(Clone, Copy, Debug)]
pub struct EdgeRec {
    pub x: usize,
    pub y: usize,
    pub x_prev: Option<usize>,
    pub x_next: Option<usize>,
    pub y_prev: Option<usize>,
    pub y_next: Option<usize>,
}

/// The empty edge map.
pub open spec fn edge_map_empty() -> Map<usize, EdgeRec> {
    Map::empty()
}

/// The empty node map.
pub open spec fn node_map_empty() -> Map<usize, NodeHead> {
    Map::empty()
}

/// The entries held by a slab of nodes: each node's list head under the
/// node's id.
pub uninterp spec fn node_slab(m: slabmap::SlabMap<NodeHead>) -> Map<usize, NodeHead>;

/// The entries held by a slab of edges: each edge record under the edge's
/// id.
pub uninterp spec fn edge_slab(m: slabmap::SlabMap<EdgeRec>) -> Map<usize, EdgeRec>;

/// Relies on slabmap::SlabMap::new: the new slab is empty.
#[verifier::external_body]
pub(crate) fn node_slab_new() -> (m: slabmap::SlabMap<NodeHead>)
    ensures
        node_slab(m) == node_map_empty(),
{
    slabmap::SlabMap::new()
}

/// Relies on slabmap::SlabMap::insert: it stores the value under a key that
/// was vacant and returns that key. The key indexes the slab's entry
/// vector, whose element type is not zero-sized, so it lies strictly below
/// the largest representable length.
#[verifier::external_body]
pub(crate) fn node_slab_insert(m: &mut slabmap::SlabMap<NodeHead>, v: NodeHead) -> (k: usize)
    ensures
        !node_slab(*old(m)).dom().contains(k),
        node_slab(*final(m)) == node_slab(*old(m)).insert(k, v),
        k < usize::MAX,
{
    m.insert(v)
}

/// Relies on slabmap::SlabMap::remove: it removes the entry under the key,
/// if any, and touches nothing else. The largest representable key is kept
/// out because the call adds one to the key before looking it up.
#[verifier::external_body]
pub(crate) fn node_slab_remove(m: &mut slabmap::SlabMap<NodeHead>, k: usize)
    requires
        k < usize::MAX,
    ensures
        node_slab(*final(m)) == node_slab(*old(m)).remove(k),
{
    m.remove(k);
}

/// Relies on slabmap::SlabMap::contains_key: it answers whether the key is
/// occupied.
#[verifier::external_body]
pub(crate) fn node_slab_contains(m: &slabmap::SlabMap<NodeHead>, k: usize) -> (r: bool)
    ensures
        r == node_slab(*m).dom().contains(k),
{
    m.contains_key(k)
}

/// Relies on slabmap::SlabMap::get: it returns the value stored under the
/// key when the key is occupied, and nothing otherwise.
#[verifier::external_body]
pub(crate) fn node_slab_get(m: &slabmap::SlabMap<NodeHead>, k: usize) -> (r: Option<NodeHead>)
    ensures
        r == if node_slab(*m).dom().contains(k) {
            Some(node_slab(*m)[k])
        } else {
            None::<NodeHead>
        },
{
    m.get(k).copied()
}

/// Relies on slabmap::SlabMap's index assignment: it replaces the value
/// stored under an occupied key.
#[verifier::external_body]
pub(crate) fn node_slab_set(m: &mut slabmap::SlabMap<NodeHead>, k: usize, v: NodeHead)
    requires
        node_slab(*old(m)).dom().contains(k),
    ensures
        node_slab(*final(m)) == node_slab(*old(m)).insert(k, v),
{
    m[k] = v;
}

/// Relies on slabmap::SlabMap::new: the new slab is empty.
#[verifier::external_body]
pub(crate) fn edge_slab_new() -> (m: slabmap::SlabMap<EdgeRec>)
    ensures
        edge_slab(m) == edge_map_empty(),
{
    slabmap::SlabMap::new()
}

/// Relies on slabmap::SlabMap::insert: it stores the value under a key that
/// was vacant and returns that key. The key indexes the slab's entry
/// vector, whose element type is not zero-sized, so it lies strictly below
/// the largest representable length.
#[verifier::external_body]
pub(crate) fn edge_slab_insert(m: &mut slabmap::SlabMap<EdgeRec>, v: EdgeRec) -> (k: usize)
    ensures
        !edge_slab(*old(m)).dom().contains(k),
        edge_slab(*final(m)) == edge_slab(*old(m)).insert(k, v),
        k < usize::MAX,
{
    m.insert(v)
}

/// Relies on slabmap::SlabMap::remove: it removes the entry under the key,
/// if any, and touches nothing else. The largest representable key is kept
/// out because the call adds one to the key before looking it up.
#[verifier::external_body]
pub(crate) fn edge_slab_remove(m: &mut slabmap::SlabMap<EdgeRec>, k: usize)
    requires
        k < usize::MAX,
    ensures
        edge_slab(*final(m)) == edge_slab(*old(m)).remove(k),
{
    m.remove(k);
}

/// Relies on slabmap::SlabMap::get: it returns the value stored under the
/// key when the key is occupied, and nothing otherwise.
#[verifier::external_body]
pub(crate) fn edge_slab_get(m: &slabmap::SlabMap<EdgeRec>, k: usize) -> (r: Option<EdgeRec>)
    ensures
        r == if edge_slab(*m).dom().contains(k) {
            Some(edge_slab(*m)[k])
        } else {
            None::<EdgeRec>
        },
{
    m.get(k).copied()
}

/// Relies on slabmap::SlabMap's index assignment: it replaces the value
/// stored under an occupied key.
#[verifier::external_body]
pub(crate) fn edge_slab_set(m: &mut slabmap::SlabMap<EdgeRec>, k: usize, v: EdgeRec)
    requires
        edge_slab(*old(m)).dom().contains(k),
    ensures
        edge_slab(*final(m)) == edge_slab(*old(m)).insert(k, v),
{
    m[k] = v;
}

} // verus!
