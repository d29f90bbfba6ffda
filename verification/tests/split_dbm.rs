use crab::arith::extended_number::ExtendedNumber;
use crab::arith::number::Number;
use crab::splitdbm::split_dbm::{AlignedPair, Side, SplitDBM};
use crab::splitdbm::Weight;

fn w(n: i64) -> Weight {
    Number::from(n)
}

#[test]
fn test_new_is_top() {
    let dbm = SplitDBM::new();
    assert!(dbm.is_top());
    assert_eq!(dbm.graph_size(), 1);
    assert_eq!(dbm.num_edges(), 0);
}

#[test]
fn test_set_get_bound_right() {
    let mut dbm = SplitDBM::new();
    let v = dbm.new_vertex();
    dbm.set_bound(v, Side::Right, &w(10));

    assert_eq!(dbm.get_bound(v, Side::Right), ExtendedNumber::Finite(w(10)));
}

#[test]
fn test_set_get_bound_left() {
    let mut dbm = SplitDBM::new();
    let v = dbm.new_vertex();
    dbm.set_bound(v, Side::Left, &w(-5));

    assert_eq!(dbm.get_bound(v, Side::Left), ExtendedNumber::Finite(w(-5)));
}

#[test]
fn test_no_bound_is_infinite() {
    let mut dbm = SplitDBM::new();
    let v = dbm.new_vertex();
    assert_eq!(dbm.get_bound(v, Side::Left), ExtendedNumber::MinusInfinity);
    assert_eq!(dbm.get_bound(v, Side::Right), ExtendedNumber::PlusInfinity);
}

#[test]
fn test_update_bound_if_tighter() {
    let mut dbm = SplitDBM::new();
    let v = dbm.new_vertex();
    assert!(dbm.update_bound_if_tighter(v, Side::Right, &w(10)));
    assert_eq!(dbm.get_bound(v, Side::Right), ExtendedNumber::Finite(w(10)));
    assert!(dbm.update_bound_if_tighter(v, Side::Right, &w(5)));
    assert_eq!(dbm.get_bound(v, Side::Right), ExtendedNumber::Finite(w(5)));
    assert!(dbm.update_bound_if_tighter(v, Side::Right, &w(20)));
    assert_eq!(dbm.get_bound(v, Side::Right), ExtendedNumber::Finite(w(5)));
}

#[test]
fn test_add_difference_constraint() {
    let mut dbm = SplitDBM::new();
    let v1 = dbm.new_vertex();
    let v2 = dbm.new_vertex();
    assert!(dbm.add_difference_constraint(v1, v2, &w(3)));
    assert!(dbm.graph().elem(v1, v2));
}

#[test]
fn test_forget_vertex() {
    let mut dbm = SplitDBM::new();
    let v1 = dbm.new_vertex();
    dbm.set_bound(v1, Side::Right, &w(10));

    dbm.forget(v1);
    assert!(!dbm.vertex_has_edges(v1));
}

#[test]
fn test_disconnected_vertices() {
    let mut dbm = SplitDBM::new();
    let v1 = dbm.new_vertex();
    let v2 = dbm.new_vertex();
    dbm.set_bound(v1, Side::Right, &w(10));

    let disc = dbm.get_disconnected_vertices();
    assert!(disc.contains(&v2));
    assert!(!disc.contains(&v1));
}

#[test]
fn test_join_identity() {
    let mut dbm = SplitDBM::new();
    let v = dbm.new_vertex();
    dbm.set_bound(v, Side::Right, &w(10));
    dbm.set_bound(v, Side::Left, &w(-5));
    let perm = vec![0u64, 1u64];
    let initial_pot = vec![w(0), w(0)];
    let aligned = AlignedPair {
        left: &dbm,
        right: &dbm,
        left_perm: perm.clone(),
        right_perm: perm,
        initial_potentials: initial_pot,
    };

    let result = SplitDBM::join(&aligned);
    assert_eq!(
        result.get_bound(1, Side::Right),
        ExtendedNumber::Finite(w(10))
    );
    assert_eq!(
        result.get_bound(1, Side::Left),
        ExtendedNumber::Finite(w(-5))
    );
}

#[test]
fn test_widen_basic() {
    let mut dbm1 = SplitDBM::new();
    let v1 = dbm1.new_vertex();
    dbm1.set_bound(v1, Side::Right, &w(10));
    dbm1.set_bound(v1, Side::Left, &w(0));

    let mut dbm2 = SplitDBM::new();
    let v2 = dbm2.new_vertex();
    dbm2.set_bound(v2, Side::Right, &w(5));
    dbm2.set_bound(v2, Side::Left, &w(0));

    let perm = vec![0u64, 1u64];
    let initial_pot = vec![w(0), w(0)];
    let aligned = AlignedPair {
        left: &dbm1,
        right: &dbm2,
        left_perm: perm.clone(),
        right_perm: perm,
        initial_potentials: initial_pot,
    };

    let result = SplitDBM::widen(&aligned);
    assert_eq!(
        result.get_bound(1, Side::Right),
        ExtendedNumber::Finite(w(10))
    );
}

#[test]
fn test_meet_basic() {
    let mut dbm1 = SplitDBM::new();
    let v1 = dbm1.new_vertex();
    dbm1.set_bound(v1, Side::Right, &w(10));

    let mut dbm2 = SplitDBM::new();
    let v2 = dbm2.new_vertex();
    dbm2.set_bound(v2, Side::Right, &w(5));

    let perm = vec![0u64, 1u64];
    let initial_pot = vec![w(0), w(0)];
    let mut aligned = AlignedPair {
        left: &dbm1,
        right: &dbm2,
        left_perm: perm.clone(),
        right_perm: perm,
        initial_potentials: initial_pot,
    };

    let result = SplitDBM::meet(&mut aligned).expect("should be feasible");
    assert_eq!(
        result.get_bound(1, Side::Right),
        ExtendedNumber::Finite(w(5))
    );
}

#[test]
fn test_subsumption() {
    let mut left = SplitDBM::new();
    let vl = left.new_vertex();
    left.set_bound(vl, Side::Right, &w(5));

    let mut right = SplitDBM::new();
    let vr = right.new_vertex();
    right.set_bound(vr, Side::Right, &w(10));

    let perm = vec![0u64, 1u64];
    assert!(SplitDBM::is_subsumed_by(&left, &right, &perm));
    assert!(!SplitDBM::is_subsumed_by(&right, &left, &perm));
}

#[test]
fn test_assign_vertex() {
    let mut dbm = SplitDBM::new();
    let v1 = dbm.new_vertex();
    dbm.set_bound(v1, Side::Right, &w(10));
    let pot = dbm.potential_at(v1).add(w(3));
    let v2 = dbm.assign_vertex(
        &pot,
        &vec![(v1, w(3))],
        &vec![(v1, w(-3))],
        None,
        None,
    );

    assert!(dbm.graph().elem(v2, v1));
    assert!(dbm.graph().elem(v1, v2));
}

#[test]
fn test_strengthen_bound() {
    let mut dbm = SplitDBM::new();
    let v = dbm.new_vertex();
    dbm.set_bound(v, Side::Right, &w(10));
    assert!(dbm.strengthen_bound(v, Side::Right, &w(5)));
    assert_eq!(dbm.get_bound(v, Side::Right), ExtendedNumber::Finite(w(5)));
}

#[test]
fn test_closure_through_vertex_zero() {

    let mut dbm = SplitDBM::new();
    let v1 = dbm.new_vertex();
    let v2 = dbm.new_vertex();
    dbm.set_bound(v1, Side::Left, &w(100));
    dbm.set_bound(v1, Side::Right, &w(100));
    dbm.set_bound(v2, Side::Left, &w(5));
    dbm.set_bound(v2, Side::Right, &w(5));
    assert_eq!(dbm.graph().edge_val(v1, 0), w(-100));
    assert_eq!(dbm.graph().edge_val(0, v1), w(100));
    assert_eq!(dbm.graph().edge_val(v2, 0), w(-5));
    assert_eq!(dbm.graph().edge_val(0, v2), w(5));
    assert!(dbm.add_difference_constraint(v1, v2, &w(-1)));
    dbm.close_after_bound_updates();
    let edge_v1_v2 = dbm.graph().edge_val(v1, v2);
    assert_eq!(
        edge_v1_v2,
        w(-1),
    );
}
