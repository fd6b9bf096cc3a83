use algorithms::avl_tree_set::set::AvlTreeSet;
use algorithms::avl_tree_set::tree::AvlNode;
use rand::random;
use std::cmp::max;
use std::collections::BTreeSet;

fn leaf(value: i32) -> Option<Box<AvlNode<i32>>> {
    Some(Box::new(AvlNode { value, height: 1, left: None, right: None }))
}

fn right_heavy() -> AvlNode<i32> {
    AvlNode {
        value: 0,
        height: 3,
        left: leaf(1),
        right: Some(Box::new(AvlNode { value: 2, height: 2, left: leaf(3), right: None })),
    }
}

fn left_heavy() -> AvlNode<i32> {
    AvlNode {
        value: 0,
        height: 3,
        left: Some(Box::new(AvlNode { value: 2, height: 2, left: None, right: leaf(3) })),
        right: leaf(1),
    }
}

fn collect<T: Ord + Clone>(set: &AvlTreeSet<T>) -> Vec<T> {
    let mut values = Vec::new();
    let mut cursor = set.iter();
    while let Some(value) = cursor.next() {
        values.push(value.clone());
    }
    values
}

fn check_height<T: Ord>(set: &AvlTreeSet<T>) {
    let mut cursor = set.node_iter();
    while let Some(node) = cursor.next() {
        assert_eq!(node.height, 1 + max(node.left_height(), node.right_height()));
    }
}

fn check_balance<T: Ord>(set: &AvlTreeSet<T>) {
    let mut cursor = set.node_iter();
    while let Some(node) = cursor.next() {
        let (left, right) = (node.left_height(), node.right_height());
        assert!(left <= right + 1 && right <= left + 1);
    }
}

fn check_ordering<T: Ord>(set: &AvlTreeSet<T>) {
    let mut cursor = set.node_iter();
    while let Some(node) = cursor.next() {
        if let Some(ref left_node) = node.left {
            assert!(left_node.value < node.value);
        }
        if let Some(ref right_node) = node.right {
            assert!(node.value < right_node.value);
        }
    }
}

fn tree_height<T: Ord>(set: &AvlTreeSet<T>) -> usize {
    let mut height = 0;
    let mut cursor = set.node_iter();
    while let Some(node) = cursor.next() {
        height = max(height, node.height);
    }
    height
}

fn unique(values: Vec<u8>) -> Vec<u8> {
    let mut seen = Vec::new();
    for value in values {
        if !seen.contains(&value) {
            seen.push(value);
        }
    }
    seen
}

#[test]
fn avl_tree_set_rotate_left_should_work() {
    let mut root = AvlNode {
        value: 0,
        height: 3,
        left: Some(Box::new(AvlNode { value: 1, height: 1, left: None, right: None })),
        right: Some(Box::new(AvlNode {
            value: 2,
            height: 2,
            left: Some(Box::new(AvlNode { value: 3, height: 1, left: None, right: None })),
            right: None,
        })),
    };

    root.rotate_left();

    assert_eq!(
        root,
        AvlNode {
            value: 2,
            height: 3,
            left: Some(Box::new(AvlNode {
                value: 0,
                height: 2,
                left: Some(Box::new(AvlNode { value: 1, height: 1, left: None, right: None })),
                right: Some(Box::new(AvlNode { value: 3, height: 1, left: None, right: None })),
            })),
            right: None,
        }
    );
}

#[test]
fn avl_tree_set_rotate_right_should_work() {
    let mut root = AvlNode {
        value: 0,
        height: 3,
        left: Some(Box::new(AvlNode {
            value: 2,
            height: 2,
            left: None,
            right: Some(Box::new(AvlNode { value: 3, height: 1, left: None, right: None })),
        })),
        right: Some(Box::new(AvlNode { value: 1, height: 1, left: None, right: None })),
    };

    root.rotate_right();

    assert_eq!(
        root,
        AvlNode {
            value: 2,
            height: 3,
            left: None,
            right: Some(Box::new(AvlNode {
                value: 0,
                height: 2,
                left: Some(Box::new(AvlNode { value: 3, height: 1, left: None, right: None })),
                right: Some(Box::new(AvlNode { value: 1, height: 1, left: None, right: None })),
            })),
        }
    );
}

#[test]
fn tree_rotate_left_should_work() {
    let mut root = right_heavy();

    root.rotate_left();

    assert_eq!(
        root,
        AvlNode {
            value: 2,
            height: 3,
            left: Some(Box::new(AvlNode { value: 0, height: 2, left: leaf(1), right: leaf(3) })),
            right: None,
        }
    );
}

#[test]
fn tree_rotate_right_should_work() {
    let mut root = left_heavy();

    root.rotate_right();

    assert_eq!(
        root,
        AvlNode {
            value: 2,
            height: 3,
            left: None,
            right: Some(Box::new(AvlNode { value: 0, height: 2, left: leaf(3), right: leaf(1) })),
        }
    );
}

#[test]
fn avl_tree_set_should_work() {
    let mut set = AvlTreeSet::<u8>::default();
    let mut ordered_set = BTreeSet::<u8>::default();

    for _ in 1..256 {
        let value = random::<u8>();

        set.insert(value.clone());
        ordered_set.insert(value.clone());
    }

    let mut cursor = set.iter();
    for right in ordered_set.iter() {
        assert_eq!(cursor.next(), Some(right));
    }
    assert_eq!(cursor.next(), None);
}

#[test]
fn properties_should_be_correct() {
    let mut tree = AvlTreeSet::<u8>::default();

    for _ in 1..256 {
        let value = random::<u8>();

        tree.insert(value.clone());
    }

    let mut cursor = tree.node_iter();
    while let Some(this_node) = cursor.next() {
        assert_eq!(
            this_node.height,
            1 + max(this_node.left_height(), this_node.right_height())
        );

        if let Some(ref left_node) = this_node.left {
            assert!(left_node.value < this_node.value);
        }

        if let Some(ref right_node) = this_node.right {
            assert!(this_node.value < right_node.value);
        }
    }
}

#[test]
fn spec() {
    // .from_iter and .iter should work
    let mut list = unique((0..100).map(|_| random::<u8>()).collect())
        .into_iter()
        .map(|byte| format!("{:03}-{}", byte, byte))
        .collect::<Vec<String>>();
    let set = AvlTreeSet::from_iter(list.clone());
    list.sort();
    assert_eq!(list, collect(&set));

    // .insert should work
    let mut set = AvlTreeSet::<isize>::default();
    let value = random::<isize>();
    assert!(set.insert(value));
    assert!(!set.insert(value));

    // .len should work
    let values = unique((0..random::<u8>()).map(|_| random::<u8>()).collect());
    let size = values.len();
    let set = AvlTreeSet::from_iter(values);
    assert_eq!(set.len(), size);

    // .is_empty should work
    let mut set = AvlTreeSet::<String>::default();
    assert!(set.is_empty());
    set.insert(String::from("element"));
    assert!(!set.is_empty());

    // .clear should work
    let mut set = AvlTreeSet::from_iter(unique(
        (0..random::<u8>()).map(|_| random::<u8>()).collect(),
    ));
    set.clear();
    assert!(set.is_empty());

    // .remove should work
    let list = unique((0..random::<u8>()).map(|_| random::<u8>()).collect());
    let mut set = AvlTreeSet::from_iter(list.clone());
    for item in list {
        assert!(set.remove(&item));
        check_ordering(&set);
        check_height(&set);

        assert!(!set.remove(&item));
    }
    assert!(!set.remove(&random::<u8>()));
}

#[test]
fn sandbox() {}

#[test]
fn insert_then_iterate_in_ascending_order() {
    let set = AvlTreeSet::from_iter(vec![5, 3, 8, 1, 4]);
    assert_eq!(collect(&set), vec![1, 3, 4, 5, 8]);
    assert_eq!(set.len(), 5);
}

#[test]
fn remove_inner_node() {
    let mut set = AvlTreeSet::from_iter(vec![5, 3, 8, 1, 4]);
    assert!(set.remove(&3));
    assert_eq!(collect(&set), vec![1, 4, 5, 8]);
    assert!(!set.contains(&3));
    check_ordering(&set);
    check_height(&set);
    check_balance(&set);
}

#[test]
fn remove_only_element() {
    let mut set = AvlTreeSet::default();
    assert!(set.insert(10));
    assert_eq!(tree_height(&set), 1);
    assert!(set.remove(&10));
    assert!(set.is_empty());
    assert_eq!(set.len(), 0);
}

#[test]
fn ascending_inserts_stay_shallow() {
    let mut set = AvlTreeSet::default();
    for value in 1..1000 {
        assert!(set.insert(value));
    }
    // 1.44 * log2(1002) rounded up
    assert!(tree_height(&set) <= 15);
    check_balance(&set);
    check_height(&set);
    check_ordering(&set);
    assert_eq!(collect(&set), (1..1000).collect::<Vec<i32>>());
}

#[test]
fn insert_present_value_changes_nothing() {
    let mut set = AvlTreeSet::from_iter(vec![7, 2, 9, 4]);
    let before = collect(&set);
    assert!(!set.insert(9));
    assert_eq!(collect(&set), before);
    assert_eq!(set, AvlTreeSet::from_iter(vec![7, 2, 9, 4]));
}

#[test]
fn remove_then_insert_restores() {
    let mut set = AvlTreeSet::from_iter(vec![6, 1, 8, 3, 7, 2]);
    let before = collect(&set);
    assert!(set.remove(&3));
    assert!(!set.contains(&3));
    assert!(set.insert(3));
    assert_eq!(collect(&set), before);
}

#[test]
fn removing_everything_empties_the_set() {
    let values: Vec<u32> = vec![12, 5, 30, 1, 8, 20, 40, 7, 9, 25];
    let mut set = AvlTreeSet::from_iter(values.clone());
    assert_eq!(set.len(), values.len());
    for value in [8, 40, 1, 25, 12, 9, 5, 30, 7, 20].iter() {
        assert!(set.remove(value));
        check_ordering(&set);
        check_height(&set);
        check_balance(&set);
    }
    assert!(set.is_empty());
    assert_eq!(tree_height(&set), 0);
}

#[test]
fn remove_absent_value_changes_nothing() {
    let mut set = AvlTreeSet::from_iter(vec![4, 2, 6]);
    assert!(!set.remove(&5));
    assert_eq!(collect(&set), vec![2, 4, 6]);
}

#[test]
fn remove_root_with_two_children_promotes_successor() {
    let mut set = AvlTreeSet::from_iter(vec![50, 30, 70, 20, 40, 60, 80, 65]);
    assert!(set.remove(&50));
    assert_eq!(collect(&set), vec![20, 30, 40, 60, 65, 70, 80]);
    let mut cursor = set.node_iter();
    let mut top = None;
    while let Some(node) = cursor.next() {
        if node.height == tree_height(&set) {
            top = Some(node.value);
        }
    }
    assert_eq!(top, Some(60));
    check_balance(&set);
}

#[test]
fn duplicates_in_input_are_dropped() {
    let set = AvlTreeSet::from_iter(vec![3, 1, 3, 2, 1]);
    assert_eq!(collect(&set), vec![1, 2, 3]);
    assert_eq!(set.len(), 3);
}

#[test]
fn node_heights_and_balance_factor() {
    let mut node = right_heavy();
    assert_eq!(node.left_height(), 1);
    assert_eq!(node.right_height(), 2);
    assert_eq!(node.balance_factor(), -1);
    node.height = 0;
    node.update_height();
    assert_eq!(node.height, 3);
    let mut other = left_heavy();
    assert_eq!(other.balance_factor(), 1);
}

#[test]
fn rebalance_double_rotation() {
    // 1 -> 3 -> 2 leans right, then left
    let mut node = AvlNode {
        value: 1,
        height: 3,
        left: None,
        right: Some(Box::new(AvlNode { value: 3, height: 2, left: leaf(2), right: None })),
    };
    node.rebalance();
    assert_eq!(node, AvlNode { value: 2, height: 2, left: leaf(1), right: leaf(3) });
    let mut even = AvlNode { value: 2, height: 2, left: leaf(1), right: leaf(3) };
    even.rebalance();
    assert_eq!(even, AvlNode { value: 2, height: 2, left: leaf(1), right: leaf(3) });
}

#[test]
fn rebalance_single_rotations() {
    // 1 -> 2 -> 3 leans right twice: one left rotation
    let mut node = AvlNode {
        value: 1,
        height: 3,
        left: None,
        right: Some(Box::new(AvlNode { value: 2, height: 2, left: None, right: leaf(3) })),
    };
    node.rebalance();
    assert_eq!(node, AvlNode { value: 2, height: 2, left: leaf(1), right: leaf(3) });

    // 3 -> 2 -> 1 leans left twice: one right rotation
    let mut node = AvlNode {
        value: 3,
        height: 3,
        left: Some(Box::new(AvlNode { value: 2, height: 2, left: leaf(1), right: None })),
        right: None,
    };
    node.rebalance();
    assert_eq!(node, AvlNode { value: 2, height: 2, left: leaf(1), right: leaf(3) });
}

#[test]
fn rebalance_left_right_case() {
    // 3 -> 1 -> 2 leans left, then right
    let mut node = AvlNode {
        value: 3,
        height: 3,
        left: Some(Box::new(AvlNode { value: 1, height: 2, left: None, right: leaf(2) })),
        right: None,
    };
    node.rebalance();
    assert_eq!(node, AvlNode { value: 2, height: 2, left: leaf(1), right: leaf(3) });
}

#[test]
fn rebalance_after_removal_with_even_child() {
    // the right child is in balance itself: a single left rotation, and
    // the height stays what it was
    let mut node = AvlNode {
        value: 1,
        height: 3,
        left: None,
        right: Some(Box::new(AvlNode { value: 3, height: 2, left: leaf(2), right: leaf(4) })),
    };
    node.rebalance();
    assert_eq!(
        node,
        AvlNode {
            value: 3,
            height: 3,
            left: Some(Box::new(AvlNode { value: 1, height: 2, left: None, right: leaf(2) })),
            right: leaf(4),
        }
    );
}

#[test]
fn remove_node_with_one_child() {
    let mut set = AvlTreeSet::from_iter(vec![2, 1, 3, 4]);
    assert!(set.remove(&3));
    assert_eq!(collect(&set), vec![1, 2, 4]);
    check_ordering(&set);
    check_height(&set);
    check_balance(&set);
    assert_eq!(tree_height(&set), 2);
}

#[test]
fn remove_leaf() {
    let mut set = AvlTreeSet::from_iter(vec![2, 1, 3]);
    assert!(set.remove(&1));
    assert_eq!(collect(&set), vec![2, 3]);
    assert_eq!(tree_height(&set), 2);
    assert!(set.remove(&3));
    assert_eq!(collect(&set), vec![2]);
    assert_eq!(tree_height(&set), 1);
}

#[test]
fn removal_rotates_on_the_way_up() {
    // removing from the shallow side of a tree that leans the other way
    let mut set = AvlTreeSet::from_iter(vec![5, 2, 8, 1, 7, 9, 10]);
    assert!(set.remove(&1));
    assert!(set.remove(&2));
    assert_eq!(collect(&set), vec![5, 7, 8, 9, 10]);
    check_ordering(&set);
    check_height(&set);
    check_balance(&set);
    assert_eq!(tree_height(&set), 3);
}

#[test]
fn clear_empties_the_set() {
    let mut set = AvlTreeSet::from_iter(vec![3, 1, 2]);
    set.clear();
    assert!(set.is_empty());
    assert_eq!(set.len(), 0);
    assert_eq!(collect(&set), Vec::<i32>::new());
    assert!(set.insert(1));
    assert_eq!(collect(&set), vec![1]);
}

#[test]
fn contains_finds_what_was_inserted() {
    let set = AvlTreeSet::from_iter(vec![10, 20, 30, 40, 50, 25]);
    for value in [10, 20, 25, 30, 40, 50] {
        assert!(set.contains(&value));
    }
    for value in [0, 15, 26, 45, 60] {
        assert!(!set.contains(&value));
    }
}

#[test]
fn cursor_ends_for_good() {
    let set = AvlTreeSet::from_iter(vec![1, 2]);
    let mut cursor = set.iter();
    assert_eq!(cursor.next(), Some(&1));
    assert_eq!(cursor.next(), Some(&2));
    assert_eq!(cursor.next(), None);
    assert_eq!(cursor.next(), None);
    let empty = AvlTreeSet::<u8>::default();
    assert_eq!(empty.iter().next(), None);
    assert!(empty.node_iter().next().is_none());
}

#[test]
fn random_inserts_and_removals_keep_the_invariants() {
    let mut set = AvlTreeSet::<u16>::default();
    let mut model = BTreeSet::<u16>::new();
    let mut state: u32 = 12345;
    for step in 0..2000 {
        state = state.wrapping_mul(1103515245).wrapping_add(12345);
        let value = ((state >> 16) % 300) as u16;
        if step % 3 == 2 {
            assert_eq!(set.remove(&value), model.remove(&value));
        } else {
            assert_eq!(set.insert(value), model.insert(value));
        }
        assert_eq!(set.contains(&value), model.contains(&value));
    }
    check_ordering(&set);
    check_height(&set);
    check_balance(&set);
    assert_eq!(set.len(), model.len());
    assert_eq!(collect(&set), model.iter().cloned().collect::<Vec<u16>>());
}
