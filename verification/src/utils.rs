pub mod bipartite_graph;
pub mod inf_vec;
pub mod slab;
pub mod shared_queue;
pub mod btree_multi_map;
pub mod usize_set;
