use crab::arith::number::Number;
use crab::splitdbm::graph::AdaptGraph;
use crab::splitdbm::graph_views::{GraphPerm, GraphRev, ReadableGraph, SubGraph};
use crab::splitdbm::{VertId, Weight};

fn w(n: i64) -> Weight {
    Number::from(n)
}

fn make_triangle() -> AdaptGraph {
    let mut g = AdaptGraph::new();
    g.grow_to(3);
    g.add_edge(0, w(10), 1);
    g.add_edge(1, w(20), 2);
    g.add_edge(0, w(50), 2);
    g
}

#[test]
fn test_graph_perm() {
    let g = make_triangle();
    let perm = vec![2, 0, 1];
    let gp = GraphPerm::new(&perm, &g);

    assert_eq!(gp.size(), 3);
    assert!(gp.elem(1, 2));
    assert_eq!(gp.edge_val(1, 2), w(10));
    assert!(gp.elem(2, 0));

    let succs_1: Vec<VertId> = gp.succs(1);
    assert!(succs_1.contains(&2));
}

#[test]
fn test_subgraph() {
    let g = make_triangle();
    let sg = SubGraph::new(&g, 0);
    let verts: Vec<VertId> = sg.verts();
    assert!(!verts.contains(&0));
    assert!(verts.contains(&1));
    assert!(verts.contains(&2));
    assert!(!sg.elem(0, 1));
    assert!(!sg.elem(0, 2));
    assert!(sg.elem(1, 2));
    assert!(sg.lookup(0, 1).is_none());
    assert_eq!(sg.lookup(1, 2), Some(w(20)));
}

#[test]
fn test_graph_rev() {
    let g = make_triangle();
    let gr = GraphRev::new(&g);
    assert!(gr.elem(1, 0));
    assert!(!gr.elem(0, 1));
    assert_eq!(gr.edge_val(1, 0), w(10));

    let succs_1: Vec<VertId> = gr.succs(1);
    assert!(succs_1.contains(&0));
}
