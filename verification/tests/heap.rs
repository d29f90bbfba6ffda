use crab::arith::number::Number;
use crab::splitdbm::heap::WeightHeap;
use crab::splitdbm::Weight;

fn w(n: i64) -> Weight {
    Number::from(n)
}

#[test]
fn test_insert_remove_ordering() {
    let dists: Vec<Weight> = vec![w(9), w(1), w(5), w(7), w(3)];
    let mut h = WeightHeap::new();
    for i in 0..5 {
        h.insert(i, &dists);
    }
    assert_eq!(h.size(), 5);
    assert_eq!(h.remove_min(&dists), 1);
    assert_eq!(h.remove_min(&dists), 4);
    assert_eq!(h.remove_min(&dists), 2);
    assert_eq!(h.remove_min(&dists), 3);
    assert_eq!(h.remove_min(&dists), 0);
    assert!(h.empty());
}

#[test]
fn test_decrease_key() {
    let mut dists: Vec<Weight> = vec![w(10), w(20), w(30)];
    let mut h = WeightHeap::new();
    h.insert(0, &dists);
    h.insert(1, &dists);
    h.insert(2, &dists);
    dists[2] = w(5);
    h.decrease(2, &dists);
    assert_eq!(h.remove_min(&dists), 2);
    assert_eq!(h.remove_min(&dists), 0);
    assert_eq!(h.remove_min(&dists), 1);
}

#[test]
fn test_in_heap() {
    let dists: Vec<Weight> = vec![w(42)];
    let mut h = WeightHeap::new();
    assert!(!h.in_heap(0));
    h.insert(0, &dists);
    assert!(h.in_heap(0));
    h.remove_min(&dists);
    assert!(!h.in_heap(0));
}

#[test]
fn test_single_element() {
    let dists: Vec<Weight> = vec![w(42)];
    let mut h = WeightHeap::new();
    h.insert(0, &dists);
    assert_eq!(h.size(), 1);
    assert_eq!(h.remove_min(&dists), 0);
    assert!(h.empty());
}
