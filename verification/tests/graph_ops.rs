use crab::arith::number::Number;
use crab::splitdbm::graph::Graph;
use crab::splitdbm::graph_ops::{apply_delta, close_over_edge, graph_join, graph_meet, repair_potential, select_potentials, ScratchSpace};
use crab::splitdbm::Weight;

fn w(n: i64) -> Weight {
    Number::from(n)
}

#[test]
fn test_graph_join() {
    let mut l = Graph::new();
    l.grow_to(3);
    l.add_edge(0, w(10), 1);
    l.add_edge(1, w(20), 2);
    l.add_edge(0, w(50), 2);

    let mut r = Graph::new();
    r.grow_to(3);
    r.add_edge(0, w(15), 1);
    r.add_edge(1, w(18), 2);

    let j = graph_join(&l, &r);
    assert!(j.elem(0, 1));
    assert_eq!(j.edge_val(0, 1), w(15));
    assert!(j.elem(1, 2));
    assert_eq!(j.edge_val(1, 2), w(20));
    assert!(!j.elem(0, 2));
}

#[test]
fn test_graph_meet() {
    let mut l = Graph::new();
    l.grow_to(3);
    l.add_edge(0, w(10), 1);

    let mut r = Graph::new();
    r.grow_to(3);
    r.add_edge(0, w(5), 1);
    r.add_edge(1, w(20), 2);

    let (m, is_closed) = graph_meet(&l, &r);
    assert!(!is_closed);
    assert_eq!(m.edge_val(0, 1), w(5));
    assert!(m.elem(1, 2));
    assert_eq!(m.edge_val(1, 2), w(20));
}

#[test]
fn test_select_potentials_feasible() {
    let mut g = Graph::new();
    g.grow_to(3);
    g.add_edge(0, w(5), 1);
    g.add_edge(1, w(3), 2);

    let mut potentials = vec![w(0), w(0), w(0)];
    let mut scratch = ScratchSpace::new();
    assert!(select_potentials(&mut scratch, &g, &mut potentials));
    assert!(potentials[0].add(w(5)) >= potentials[1]);
    assert!(potentials[1].add(w(3)) >= potentials[2]);
}

#[test]
fn test_select_potentials_negative_cycle() {
    let mut g = Graph::new();
    g.grow_to(3);
    g.add_edge(0, w(1), 1);
    g.add_edge(1, w(1), 2);
    g.add_edge(2, w(-3), 0);

    let mut potentials = vec![w(0), w(0), w(0)];
    let mut scratch = ScratchSpace::new();
    assert!(!select_potentials(&mut scratch, &g, &mut potentials));
}

#[test]
fn test_apply_delta() {
    let mut g = Graph::new();
    g.grow_to(3);
    g.add_edge(0, w(10), 1);

    let delta = vec![(0u64, 1u64, w(5)), (1u64, 2u64, w(20))];
    apply_delta(&mut g, &delta);

    assert_eq!(g.edge_val(0, 1), w(5));
    assert!(g.elem(1, 2));
    assert_eq!(g.edge_val(1, 2), w(20));
}

#[test]
fn test_close_over_edge() {
    let mut g = Graph::new();
    g.grow_to(4);
    g.add_edge(0, w(0), 1);
    g.add_edge(0, w(0), 2);
    g.add_edge(0, w(0), 3);
    g.add_edge(1, w(5), 2);
    g.add_edge(2, w(7), 3);
    g.add_edge(3, w(2), 1);

    close_over_edge(&mut g, 1, 2);
    assert!(g.elem(1, 3));
    assert_eq!(g.edge_val(1, 3), w(12));
    assert!(g.elem(3, 2));
    assert_eq!(g.edge_val(3, 2), w(7));
}

#[test]
fn test_repair_potential() {
    let mut g = Graph::new();
    g.grow_to(2);
    g.add_edge(0, w(5), 1);

    let mut potentials = vec![w(0), w(0)];
    let mut scratch = ScratchSpace::new();
    assert!(repair_potential(&mut scratch, &g, &mut potentials, 0, 1));
}

#[test]
fn paths_over_the_edge_are_closed() {
    let mut g = Graph::new();
    g.grow_to(5);
    g.add_edge(1, w(1), 2);
    g.add_edge(2, w(5), 3);
    g.add_edge(3, w(7), 4);
    close_over_edge(&mut g, 2, 3);
    assert_eq!(g.edge_val(1, 3), w(6));
    assert_eq!(g.edge_val(2, 4), w(12));
    assert_eq!(g.edge_val(1, 4), w(13));
    assert!(!g.elem(4, 1));
}

#[test]
fn refused_repair_keeps_the_potentials() {
    let mut g = Graph::new();
    g.grow_to(3);
    g.add_edge(0, w(5), 1);
    g.add_edge(1, w(0), 2);
    g.add_edge(2, w(-6), 0);
    let mut potentials = vec![w(0), w(3), w(2)];
    let mut scratch = ScratchSpace::new();
    assert!(!repair_potential(&mut scratch, &g, &mut potentials, 2, 0));
    assert_eq!(potentials, vec![w(0), w(3), w(2)]);
}

#[test]
fn a_cycle_of_weight_zero_is_possible() {
    let mut g = Graph::new();
    g.grow_to(3);
    g.add_edge(0, w(5), 1);
    g.add_edge(1, w(1), 2);
    g.add_edge(2, w(-6), 0);
    let mut potentials = vec![w(0), w(0), w(0)];
    let mut scratch = ScratchSpace::new();
    assert!(select_potentials(&mut scratch, &g, &mut potentials));
    g.set_edge(2, w(-7), 0);
    assert!(!select_potentials(&mut scratch, &g, &mut potentials));
}

#[test]
fn sums_that_are_cut_off_solve_nothing() {
    let least = Number::of(i128::MIN);
    let mut g = Graph::new();
    g.grow_to(3);
    g.add_edge(0, least, 1);
    let mut scratch = ScratchSpace::new();
    let mut potentials = vec![w(0), w(0), w(0)];
    assert!(select_potentials(&mut scratch, &g, &mut potentials));
    assert_eq!(potentials, vec![w(0), least, w(0)]);
    g.add_edge(1, w(-1), 2);
    let mut potentials = vec![w(0), w(0), w(0)];
    assert!(!select_potentials(&mut scratch, &g, &mut potentials));
    g.add_edge(2, w(1), 0);
    assert!(!select_potentials(&mut scratch, &g, &mut potentials));
}

#[test]
fn a_repair_lowers_what_follows() {
    let mut g = Graph::new();
    g.grow_to(3);
    g.add_edge(0, w(-5), 1);
    g.add_edge(1, w(2), 2);
    let mut potentials = vec![w(0), w(0), w(0)];
    let mut scratch = ScratchSpace::new();
    assert!(repair_potential(&mut scratch, &g, &mut potentials, 0, 1));
    assert_eq!(potentials, vec![w(0), w(-5), w(-3)]);
}
