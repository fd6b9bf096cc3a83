use algorithms::hash_set::HashSet;
use rand::random;

#[test]
fn hash_set_should_work() {
    let mut set = HashSet::<usize>::new();

    assert!(set.is_empty());

    assert!(set.insert(random()));

    assert!(!set.is_empty());
    assert_eq!(set.len(), 1);

    let repeat_value = random();

    assert!(set.insert(repeat_value));
    assert_eq!(set.len(), 2);

    assert!(!set.insert(repeat_value));
    assert_eq!(set.len(), 2);

    assert!(set.insert(random()));
}

#[test]
fn values_with_one_key_count_as_one() {
    let mut set = HashSet::<&str>::new();
    assert!(set.insert_with_key(7, "first"));
    assert!(!set.insert_with_key(7, "second"));
    assert!(set.insert_with_key(8, "second"));
    assert_eq!(set.len(), 2);
    assert!(!set.is_empty());
}

#[test]
fn equal_values_hash_alike() {
    let mut set = HashSet::<String>::new();
    assert!(set.insert(String::from("one")));
    assert!(set.insert(String::from("two")));
    assert!(!set.insert(String::from("one")));
    assert_eq!(set.len(), 2);
}
