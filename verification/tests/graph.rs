use reactive_state::utils::bipartite_graph::{BipartiteGraph, XKey, YKey};

#[test]
fn insert_edge_1() {
    let mut g = BipartiteGraph::new();
    let x = g.insert_x();
    let y = g.insert_y();
    g.insert_edge(x, y);
    assert_eq!(g.ys_from_x(x), vec![y]);
    assert_eq!(g.xs_from_y(y), vec![x]);
}

#[test]
fn insert_edge_2() {
    let mut g = BipartiteGraph::new();
    let x = g.insert_x();
    let y = g.insert_y();
    g.insert_edge(x, y);
    g.insert_edge(x, y);
    // The pair is doubly connected: adjacency reports one entry per edge.
    assert_eq!(g.ys_from_x(x), vec![y, y]);
    assert_eq!(g.xs_from_y(y), vec![x, x]);
}

#[test]
fn remove_x() {
    let mut g = BipartiteGraph::new();
    let y = g.insert_y();
    let x = g.insert_x();
    g.insert_edge(x, y);
    g.remove_x(x);
    assert!(!g.contains_x(x));
    assert!(g.contains_y(y));
    assert_eq!(g.xs_from_y(y), Vec::<XKey>::new());
}

#[test]
fn remove_y_removes_only_its_edges() {
    let mut g = BipartiteGraph::new();
    let x = g.insert_x();
    let y1 = g.insert_y();
    let y2 = g.insert_y();
    g.insert_edge(x, y1);
    g.insert_edge(x, y2);
    g.remove_y(y1);
    assert!(!g.contains_y(y1));
    assert!(g.contains_y(y2));
    assert_eq!(g.ys_from_x(x), vec![y2]);
    assert_eq!(g.ys_from_x(x).len(), 1);
}

#[test]
fn fresh_nodes_start_disconnected() {
    let mut g = BipartiteGraph::new();
    let x = g.insert_x();
    let y = g.insert_y();
    assert!(g.contains_x(x));
    assert!(g.contains_y(y));
    assert!(!g.contains_x(XKey(x.0 + 1)));
    assert!(!g.contains_y(YKey(y.0 + 1)));
    assert_eq!(g.ys_from_x(x), Vec::<YKey>::new());
    assert_eq!(g.xs_from_y(y), Vec::<XKey>::new());
}
