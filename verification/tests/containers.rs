use qem_simplifier::util::binary_heap::BinaryHeap;
use qem_simplifier::util::disjoint_set::DisjointSet;
use qem_simplifier::util::order::sort_indices_by_key;

#[test]
fn heap_pops_in_key_order() {
    let mut h = BinaryHeap::new(4, 8);
    for (k, i) in [(50u32, 0u32), (10, 1), (30, 2), (20, 3), (40, 4)] {
        h.add(k, i);
    }
    assert_eq!(h.num(), 5);
    assert_eq!(h.top(), 1);
    let mut popped = Vec::new();
    while !h.is_empty() {
        popped.push(h.pop());
    }
    assert_eq!(popped, vec![1, 3, 2, 4, 0]);
}

#[test]
fn heap_update_and_remove() {
    let mut h = BinaryHeap::new(0, 0);
    h.add(7, 3);
    h.add(5, 40);
    h.add(9, 1);
    assert_eq!(h.get_key(40), 5);
    assert_eq!(h.top(), 40);
    h.update(1, 1);
    assert_eq!(h.top(), 1);
    assert_eq!(h.get_key(1), 1);
    h.remove(40);
    assert!(!h.is_present(40));
    assert!(h.is_present(3));
    assert_eq!(h.num(), 2);
    assert_eq!(h.pop(), 1);
    assert_eq!(h.pop(), 3);
    assert!(h.is_empty());
    h.remove(3);
    assert!(h.is_empty());
}

#[test]
fn heap_update_to_larger_key_moves_down() {
    let mut h = BinaryHeap::new(8, 8);
    h.add(1, 0);
    h.add(2, 1);
    h.add(3, 2);
    h.update(10, 0);
    assert_eq!(h.pop(), 1);
    assert_eq!(h.pop(), 2);
    assert_eq!(h.pop(), 0);
}

#[test]
fn heap_clear_and_resize() {
    let mut h = BinaryHeap::new(2, 2);
    h.add(3, 0);
    h.add(4, 1);
    h.clear();
    assert!(h.is_empty());
    assert!(!h.is_present(0));
    h.resize(16, 16);
    h.add(2, 15);
    assert_eq!(h.top(), 15);
    assert!(!h.is_present(100));
}

#[test]
fn disjoint_set_union_merges_sets() {
    let mut d = DisjointSet::new(5);
    d.union(0, 1);
    d.union(2, 3);
    d.union(1, 3);
    let r = d.find(0);
    assert_eq!(r, 3);
    assert_eq!(d.find(1), r);
    assert_eq!(d.find(2), r);
    assert_eq!(d.find(3), r);
    assert_eq!(d.find(4), 4);
    assert_eq!(d.parents[0], 3);
}

#[test]
fn disjoint_set_grow_reset_and_sequential_union() {
    let mut d = DisjointSet::new(0);
    d.add_defaulted();
    d.add_defaulted();
    d.add_defaulted();
    assert_eq!(d.parents, vec![0, 1, 2]);
    d.union_sequential(0, 2);
    assert_eq!(d.parents, vec![2, 1, 2]);
    assert_eq!(d.find(0), 2);
    d.reset();
    assert!(d.parents.is_empty());
}

#[test]
fn sort_indices_is_stable() {
    assert_eq!(sort_indices_by_key(&[3, 1, 2], false), vec![1, 2, 0]);
    assert_eq!(sort_indices_by_key(&[5, 7, 5], true), vec![1, 0, 2]);
    assert_eq!(sort_indices_by_key(&[4, 4, 4], false), vec![0, 1, 2]);
    assert_eq!(sort_indices_by_key(&[], false), Vec::<usize>::new());
}

#[test]
fn sequential_union_points_the_root_of_a_non_root_element() {
    let mut d = DisjointSet::new(4);
    d.union(0, 1);
    assert_eq!(d.parents, vec![1, 1, 2, 3]);
    d.union_sequential(0, 2);
    assert_eq!(d.parents, vec![1, 2, 2, 3]);
    assert_eq!(d.find(0), 2);
    assert_eq!(d.find(1), 2);
    assert_eq!(d.find(3), 3);
}

#[test]
fn union_links_root_under_root() {
    let mut d = DisjointSet::new(4);
    d.union(0, 1);
    d.union(2, 3);
    d.union(0, 2);
    assert_eq!(d.parents[1], 3);
    assert_eq!(d.find(0), 3);
}

#[test]
fn heap_add_keeps_other_keys_and_order() {
    let mut h = BinaryHeap::new(2, 4);
    h.add(30, 0);
    h.add(20, 1);
    h.add(10, 9);
    assert_eq!(h.num(), 3);
    assert_eq!(h.get_key(0), 30);
    assert_eq!(h.get_key(1), 20);
    assert_eq!(h.get_key(9), 10);
    assert!(h.is_present(0) && h.is_present(1) && h.is_present(9));
    assert_eq!(h.top(), 9);
}
