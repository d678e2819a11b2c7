use elbie::bag::Bag;

#[test]
fn test_bags() {
    let mut bag_a = Bag::new();
    _ = bag_a.insert(1);
    _ = bag_a.insert(2);
    _ = bag_a.insert(3);
    _ = bag_a.insert(4);

    let mut bag_b = Bag::new();
    _ = bag_b.insert(2);
    _ = bag_b.insert(4);
    _ = bag_b.insert(6);

    let bag_union1 = bag_a.union(&bag_b);
    assert_eq!(bag_union1.list(), vec![1, 2, 3, 4, 6]);
    let bag_union2 = bag_b.union(&bag_a);
    assert_eq!(bag_union2.list(), vec![1, 2, 3, 4, 6]);
    let bag_intersection1 = bag_a.intersection(&bag_b);
    assert_eq!(bag_intersection1.list(), vec![2, 4]);
    let bag_intersection2 = bag_b.intersection(&bag_a);
    assert_eq!(bag_intersection2.list(), vec![2, 4]);
    let bag_difference1 = bag_a.difference(&bag_b);
    assert_eq!(bag_difference1.list(), vec![1, 3]);
    let bag_difference2 = bag_b.difference(&bag_a);
    assert_eq!(bag_difference2.list(), vec![6]);
}

#[test]
fn bag_insert_contains_remove() {
    let mut bag = Bag::new();
    assert!(bag.insert(5));
    assert!(!bag.insert(5));
    assert!(bag.insert(1));
    assert!(bag.contains(&5));
    assert_eq!(bag.list(), vec![1, 5]);
    assert_eq!(bag.remove(&5), Some(5));
    assert_eq!(bag.remove(&5), None);
    assert!(!bag.contains(&5));
    assert_eq!(bag.len(), 1);
    assert!(!bag.is_empty());
}

#[test]
fn bag_symmetric_difference() {
    let mut a = Bag::new();
    let mut b = Bag::new();
    for x in [1u64, 2, 3] {
        _ = a.insert(x);
    }
    for x in [3u64, 4] {
        _ = b.insert(x);
    }
    assert_eq!(a.symmetric_difference(&b).list(), vec![1, 2, 4]);
}

#[test]
fn bag_operations_commute_and_partition() {
    let mut a: Bag<u64> = Bag::new();
    let mut b: Bag<u64> = Bag::new();
    for x in [5u64, 1, 9, 3] {
        a.insert(x);
    }
    for x in [3u64, 4, 9, 10] {
        b.insert(x);
    }
    assert_eq!(a.union(&b).list(), b.union(&a).list());
    assert_eq!(a.intersection(&b).list(), b.intersection(&a).list());
    assert_eq!(a.symmetric_difference(&b).list(), b.symmetric_difference(&a).list());
    let difference = a.difference(&b);
    let common = a.intersection(&b);
    assert_eq!(difference.union(&common).list(), a.list());
    assert!(difference.intersection(&common).is_empty());
    assert_eq!(a.symmetric_difference(&b).list(), a.union(&b).difference(&a.intersection(&b)).list());
    assert_eq!(a.symmetric_difference(&b).list(), vec![1, 4, 5, 10]);
}
