use crab::arith::number::Number;
use crab::splitdbm::graph::AdaptGraph;
use crab::splitdbm::{VertId, Weight};

fn w(n: i64) -> Weight {
    Number::from(n)
}

#[test]
fn test_vertex_allocation_and_free() {
    let mut g = AdaptGraph::new();
    let v0 = g.new_vertex();
    let v1 = g.new_vertex();
    let v2 = g.new_vertex();
    assert_eq!(v0, 0);
    assert_eq!(v1, 1);
    assert_eq!(v2, 2);
    assert_eq!(g.size(), 3);

    g.forget(v1);
    let verts: Vec<VertId> = g.verts();
    assert_eq!(verts, vec![0, 2]);
    let v3 = g.new_vertex();
    assert_eq!(v3, 1);
    let verts: Vec<VertId> = g.verts();
    assert_eq!(verts, vec![0, 1, 2]);
}

#[test]
fn test_edge_add_and_query() {
    let mut g = AdaptGraph::new();
    g.grow_to(3);

    g.add_edge(0, w(10), 1);
    g.add_edge(1, w(20), 2);
    g.add_edge(0, w(30), 2);

    assert!(g.elem(0, 1));
    assert!(g.elem(1, 2));
    assert!(g.elem(0, 2));
    assert!(!g.elem(2, 0));
    assert!(!g.elem(1, 0));

    assert_eq!(g.edge_val(0, 1), w(10));
    assert_eq!(g.edge_val(1, 2), w(20));
    assert_eq!(g.edge_val(0, 2), w(30));
    assert_eq!(g.num_edges(), 3);
}

#[test]
fn test_update_edge() {
    let mut g = AdaptGraph::new();
    g.grow_to(2);

    g.add_edge(0, w(10), 1);
    g.update_edge(0, w(5), 1);
    assert_eq!(g.edge_val(0, 1), w(5));

    g.update_edge(0, w(20), 1);
    assert_eq!(g.edge_val(0, 1), w(5));
}

#[test]
fn test_set_edge() {
    let mut g = AdaptGraph::new();
    g.grow_to(2);

    g.set_edge(0, w(10), 1);
    assert_eq!(g.edge_val(0, 1), w(10));

    g.set_edge(0, w(99), 1);
    assert_eq!(g.edge_val(0, 1), w(99));
}

#[test]
fn test_forget_removes_edges() {
    let mut g = AdaptGraph::new();
    g.grow_to(3);
    g.add_edge(0, w(1), 1);
    g.add_edge(1, w(2), 2);
    g.add_edge(0, w(3), 2);

    g.forget(1);
    assert_eq!(g.num_edges(), 1);
    assert!(!g.elem(0, 1));
    assert!(!g.elem(1, 2));
    assert!(g.elem(0, 2));
}

#[test]
fn test_lookup() {
    let mut g = AdaptGraph::new();
    g.grow_to(2);
    assert!(g.lookup(0, 1).is_none());
    g.add_edge(0, w(42), 1);
    assert_eq!(g.lookup(0, 1), Some(w(42)));
}

#[test]
fn test_iteration() {
    let mut g = AdaptGraph::new();
    g.grow_to(3);
    g.add_edge(0, w(1), 1);
    g.add_edge(0, w(2), 2);
    g.add_edge(1, w(3), 2);

    let succs_0: Vec<VertId> = g.succs(0);
    assert_eq!(succs_0, vec![1, 2]);

    let preds_2: Vec<VertId> = g.preds(2);
    assert_eq!(preds_2, vec![0, 1]);

    let e_succs_0: Vec<(VertId, Weight)> = g.e_succs(0).iter().map(|e| (e.vert, e.val)).collect();
    assert_eq!(e_succs_0, vec![(1, w(1)), (2, w(2))]);
}

#[test]
fn test_clear() {
    let mut g = AdaptGraph::new();
    g.grow_to(3);
    g.add_edge(0, w(1), 1);
    g.clear();
    assert_eq!(g.size(), 0);
    assert_eq!(g.num_edges(), 0);
}

#[test]
fn test_clear_edges() {
    let mut g = AdaptGraph::new();
    g.grow_to(3);
    g.add_edge(0, w(1), 1);
    g.add_edge(1, w(2), 2);
    g.clear_edges();
    assert_eq!(g.num_edges(), 0);
    assert_eq!(g.size(), 3);
}

#[test]
fn the_vertex_freed_last_is_reused_first() {
    let mut g = AdaptGraph::new();
    g.grow_to(4);
    g.forget(1);
    g.forget(3);
    g.forget(3);
    assert_eq!(g.new_vertex(), 3);
    assert_eq!(g.new_vertex(), 1);
    assert_eq!(g.new_vertex(), 4);
}
