use crab::dsu::DisjointSetUnion;

#[test]
fn test_new_singletons() {
    let dsu = DisjointSetUnion::new(5);
    assert_eq!(dsu.len(), 5);
    for i in 0..5 {
        for j in 0..5 {
            assert_eq!(dsu.same_set(i, j), i == j);
        }
    }
}

#[test]
fn test_union_and_find() {
    let mut dsu = DisjointSetUnion::new(5);
    dsu.union(0, 1);
    assert!(dsu.same_set(0, 1));
    assert!(!dsu.same_set(0, 2));

    dsu.union(2, 3);
    assert!(dsu.same_set(2, 3));
    assert!(!dsu.same_set(0, 2));

    dsu.union(1, 3);
    assert!(dsu.same_set(0, 2));
    assert!(dsu.same_set(0, 3));
    assert!(dsu.same_set(1, 2));
}

#[test]
fn test_push() {
    let mut dsu = DisjointSetUnion::new(3);
    let new_id = dsu.push();
    assert_eq!(new_id, 3);
    assert_eq!(dsu.len(), 4);
    assert!(!dsu.same_set(0, new_id));

    dsu.union(0, new_id);
    assert!(dsu.same_set(0, new_id));
}

#[test]
fn test_find_const_vs_find() {
    let mut dsu = DisjointSetUnion::new(5);
    dsu.union(0, 1);
    dsu.union(1, 2);
    let rep_const = dsu.find_const(2);
    let rep_mut = dsu.find(2);
    assert_eq!(rep_const, rep_mut);
}

#[test]
fn test_independent_classes_same_rank() {
    let mut dsu = DisjointSetUnion::new(6);
    dsu.union(0, 1);
    dsu.union(2, 3);
    assert!(!dsu.same_set(0, 2));
    assert!(!dsu.same_set(1, 3));
}

#[test]
fn test_union_returns_representative() {
    let mut dsu = DisjointSetUnion::new(4);
    let rep = dsu.union(0, 1);
    assert!(rep == 0 || rep == 1);
    assert_eq!(dsu.find(0), rep);
    assert_eq!(dsu.find(1), rep);
}

#[test]
fn test_self_union() {
    let mut dsu = DisjointSetUnion::new(3);
    let rep = dsu.union(1, 1);
    assert_eq!(rep, 1);
    assert_eq!(dsu.find(1), 1);
}
