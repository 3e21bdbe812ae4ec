use e2etest::fixture::{Found, Registry};

#[test]
fn permanent_fixtures_are_found_first() {
    let registry = Registry::new(vec![1, 2]);
    assert_eq!(registry.find(1), Found::Permanent);
    assert_eq!(registry.find(2), Found::Permanent);
    assert_eq!(registry.find(3), Found::Missing);
    assert!(registry.cached().is_empty());
}

#[test]
fn a_fixture_is_set_up_once() {
    let mut registry = Registry::new(vec![1]);
    assert_eq!(registry.find(7), Found::Missing);
    registry.set_up(7);
    assert_eq!(registry.find(7), Found::Cached);
    assert_eq!(registry.find(8), Found::Missing);
    assert_eq!(registry.find(1), Found::Permanent);
    registry.set_up(8);
    assert_eq!(registry.cached(), vec![7, 8]);
}

#[test]
fn teardown_takes_only_unused_fixtures() {
    let mut registry = Registry::new(vec![]);
    registry.set_up(4);
    registry.set_up(5);
    registry.set_up(6);
    let unused = registry.take_unused(&vec![1, 3, 1]);
    assert_eq!(unused, vec![4, 6]);
    assert_eq!(registry.cached(), vec![5]);
    assert_eq!(registry.find(4), Found::Missing);
    assert_eq!(registry.find(5), Found::Cached);
    let unused = registry.take_unused(&vec![1]);
    assert_eq!(unused, vec![5]);
    assert!(registry.cached().is_empty());
    assert!(registry.take_unused(&vec![]).is_empty());
}

#[test]
fn nothing_unused_keeps_everything() {
    let mut registry = Registry::new(vec![]);
    registry.set_up(1);
    registry.set_up(2);
    assert!(registry.take_unused(&vec![2, 5]).is_empty());
    assert_eq!(registry.cached(), vec![1, 2]);
}

#[test]
fn setting_up_again_keeps_one_entry() {
    let mut registry = Registry::new(vec![]);
    registry.set_up(3);
    registry.set_up(3);
    assert_eq!(registry.cached(), vec![3]);
    assert_eq!(registry.find(3), Found::Cached);
}
