use mcrs::util::vec_set::VecSet;

#[test]
fn empty_test() {
    let set = VecSet::<u32>::new();
    assert!(set.is_empty());
}

#[test]
fn insert_contains_test() {
    let mut set = VecSet::<u32>::new();
    set.insert(45);
    assert!(set.contains(&45));
}

#[test]
fn remove_test() {
    let mut set = VecSet::<u32>::new();
    set.insert(45);
    set.remove(&45);
    assert!(set.is_empty());
}

#[test]
fn remove_front_test() {
    let mut set = VecSet::<u32>::new();
    set.insert(45);
    set.insert(67);
    set.insert(89);
    set.insert(10);
    assert!(set.remove_front().is_some());
    assert!(set.remove_front().unwrap() == 67);
}

#[test]
fn insert_is_deduplicating() {
    let mut set = VecSet::<u32>::new();
    set.insert(7);
    set.insert(7);
    assert_eq!(set.len(), 1);
    set.remove(&7);
    assert!(set.is_empty());
}
