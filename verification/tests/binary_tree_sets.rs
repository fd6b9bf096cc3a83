use algorithms::binary_tree_set::BinaryTreeSet;
use algorithms::ordered_set::OrderedSet;
use rand::random;
use std::collections::BTreeSet;

#[test]
fn binary_tree_set_should_work() {
    let mut set = BinaryTreeSet::<u8>::default();
    let mut ordered_set = BTreeSet::<u8>::default();

    for _ in 1..100 {
        let value: u8 = random();

        set.insert(value.clone());
        ordered_set.insert(value.clone());
    }

    let mut cursor = set.iter();
    for right in ordered_set.iter() {
        assert_eq!(cursor.next(), Some(right));
    }
    assert_eq!(cursor.next(), None);
}

#[test]
fn ordered_set_should_work() {
    let mut set = OrderedSet::<u8>::default();
    let mut ordered_set = BTreeSet::<u8>::default();

    for _ in 1..100 {
        let value: u8 = random();

        set.insert(value.clone());
        ordered_set.insert(value.clone());
    }

    let mut cursor = set.iter();
    for right in ordered_set.iter() {
        assert_eq!(cursor.next(), Some(right));
    }
    assert_eq!(cursor.next(), None);
}

#[test]
fn binary_tree_set_iterates_in_ascending_order() {
    let mut set = BinaryTreeSet::default();
    for value in [5, 3, 8, 1, 4, 3, 5] {
        set.insert(value);
    }
    let mut cursor = set.iter();
    let mut values = Vec::new();
    while let Some(value) = cursor.next() {
        values.push(*value);
    }
    assert_eq!(values, vec![1, 3, 4, 5, 8]);
    assert_eq!(cursor.next(), None);
}

#[test]
fn ordered_set_iterates_in_ascending_order() {
    let mut set = OrderedSet::default();
    for value in ["pear", "apple", "fig", "apple", "kiwi"] {
        set.insert(value);
    }
    let mut cursor = set.iter();
    let mut values = Vec::new();
    while let Some(value) = cursor.next() {
        values.push(*value);
    }
    assert_eq!(values, vec!["apple", "fig", "kiwi", "pear"]);
}

#[test]
fn empty_sets_yield_nothing() {
    let set = BinaryTreeSet::<i64>::default();
    assert_eq!(set.iter().next(), None);
    let set = OrderedSet::<i64>::default();
    assert_eq!(set.iter().next(), None);
}

#[test]
fn descending_inserts_make_a_left_spine() {
    let mut set = BinaryTreeSet::default();
    let mut other = OrderedSet::default();
    for value in (0..50).rev() {
        set.insert(value);
        other.insert(value);
    }
    let mut cursor = set.iter();
    let mut twin = other.iter();
    for expected in 0..50 {
        assert_eq!(cursor.next(), Some(&expected));
        assert_eq!(twin.next(), Some(&expected));
    }
    assert_eq!(cursor.next(), None);
    assert_eq!(twin.next(), None);
}
