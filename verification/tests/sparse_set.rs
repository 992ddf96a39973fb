use ecs::sparse_set::SparseSet;

#[test]
fn sparse_add_remove() {
    let mut set = SparseSet::new();

    set.push(1);
    set.push(2);
    set.push(3);
    set.push(4);

    set.remove(2);

    assert!(set.get(2).is_none());
}

#[test]
fn sparse_push_hands_out_consecutive_indices() {
    let mut set = SparseSet::new();
    assert_eq!(set.push('a'), 0);
    assert_eq!(set.push('b'), 1);
    assert_eq!(set.push('c'), 2);
    assert_eq!(set.get(0), Some(&'a'));
    assert_eq!(set.get(1), Some(&'b'));
    assert_eq!(set.get(2), Some(&'c'));
    assert_eq!(set.get(3), None);
    assert!(set.contains_index(1));
    assert!(!set.contains_index(7));
}

#[test]
fn sparse_remove_returns_value_and_keeps_others() {
    let mut set = SparseSet::new();
    set.push(10);
    set.push(20);
    set.push(30);
    assert_eq!(set.remove(0), Some(10));
    assert!(!set.contains_index(0));
    assert_eq!(set.get(0), None);
    assert_eq!(set.remove(0), None);
}

#[test]
fn sparse_get_mut_changes_value() {
    let mut set = SparseSet::new();
    set.push(5u32);
    set.push(6u32);
    if let Some(v) = set.get_mut(1) {
        *v = 60;
    }
    assert_eq!(set.get(1), Some(&60));
    assert_eq!(set.get(0), Some(&5));
    assert!(set.get_mut(9).is_none());
}

#[test]
fn sparse_default_is_empty() {
    let set: SparseSet<u8> = SparseSet::default();
    assert!(!set.contains_index(0));
    assert_eq!(set.get(0), None);
}

#[test]
fn sparse_remove_middle_keeps_neighbours() {
    let mut set = SparseSet::new();
    assert_eq!(set.push(1), 0);
    assert_eq!(set.push(2), 1);
    assert_eq!(set.push(3), 2);
    assert_eq!(set.push(4), 3);
    assert_eq!(set.remove(2), Some(3));
    assert_eq!(set.get(0), Some(&1));
    assert_eq!(set.get(1), Some(&2));
    assert_eq!(set.get(3), Some(&4));
    assert!(!set.contains_index(2));
}
