use e2etest::statistics::Inner;

#[test]
fn add() {
    let mut stats_base = Inner::new();
    stats_base.increment_total(2);
    stats_base.increment_launched();
    stats_base.increment_ok();
    stats_base.record_failure("crud::boom");
    stats_base.increment_skipped();

    let mut stats = Inner::new();
    stats.increment_total(20);
    stats.increment_launched();
    stats.increment_ok();
    stats.record_failure("crud::cleanup");
    stats.increment_skipped();

    stats_base += stats;
    let stats = stats_base;

    assert_eq!(stats.total(), 22);
    assert_eq!(stats.launched(), 2);
    assert_eq!(stats.ok(), 2);
    assert_eq!(stats.failed(), 2);
    assert_eq!(stats.skipped(), 2);
    assert_eq!(
        stats.failed_tests(),
        vec!["crud::boom".to_string(), "crud::cleanup".to_string()]
    );
}

#[test]
fn new_is_empty_and_successful() {
    let stats = Inner::new();
    assert!(stats.is_success());
    assert_eq!(stats.total(), 0);
    assert_eq!(stats.filtered(), 0);
    assert_eq!(stats.launched(), 0);
    assert_eq!(stats.ok(), 0);
    assert_eq!(stats.failed(), 0);
    assert_eq!(stats.skipped(), 0);
    assert!(stats.failed_tests().is_empty());
}

#[test]
fn a_failure_ends_success() {
    let mut stats = Inner::new();
    stats.increment_ok();
    assert!(stats.is_success());
    stats.record_failure("group");
    assert!(!stats.is_success());
    assert_eq!(stats.failed(), stats.failed_tests().len());
}

#[test]
fn filtered_counts_add_up() {
    let mut stats = Inner::new();
    stats.increment_filtered(3);
    stats.increment_filtered(4);
    assert_eq!(stats.filtered(), 7);
}

fn make(n: usize, name: &str) -> Inner {
    let mut s = Inner::new();
    s.increment_total(n);
    s.record_failure(name);
    s
}

#[test]
fn appending_is_associative_and_empty_is_neutral() {
    let mut left = make(1, "a");
    left.append(&make(2, "b"));
    left.append(&make(3, "c"));
    let mut tail = make(2, "b");
    tail.append(&make(3, "c"));
    let mut right = make(1, "a");
    right.append(&tail);
    assert_eq!(left.total(), right.total());
    assert_eq!(left.failed_tests(), right.failed_tests());
    let mut with_empty = Inner::new();
    with_empty.append(&make(5, "x"));
    with_empty.append(&Inner::new());
    assert_eq!(with_empty.total(), 5);
    assert_eq!(with_empty.failed_tests(), vec!["x".to_string()]);
}

#[test]
fn clone_is_a_snapshot() {
    let mut stats = Inner::new();
    stats.increment_total(3);
    stats.record_failure("t");
    let copy = stats.clone();
    assert_eq!(copy.total(), 3);
    assert_eq!(copy.failed_tests(), vec!["t".to_string()]);
    stats.record_failure("later");
    stats.increment_total(1);
    assert_eq!(copy.total(), 3);
    assert_eq!(copy.failed(), 1);
    assert_eq!(stats.failed(), 2);
}

#[test]
fn append_leaves_the_other_unchanged() {
    let mut a = Inner::new();
    a.increment_ok();
    let mut b = Inner::new();
    b.increment_ok();
    b.record_failure("b");
    a.append(&b);
    assert_eq!(a.ok(), 2);
    assert_eq!(a.failed(), 1);
    assert_eq!(a.failed_tests(), vec!["b".to_string()]);
    assert_eq!(b.ok(), 1);
    assert_eq!(b.failed_tests(), vec!["b".to_string()]);
}

#[test]
fn test_accounting() {
    let mut stats = Inner::new();
    stats.start_test(true);
    assert_eq!(stats.filtered(), 1);
    assert_eq!(stats.skipped(), 1);
    assert_eq!(stats.launched(), 0);
    stats.start_test(false);
    stats.finish_test(true, "group::first");
    stats.start_test(false);
    stats.finish_test(false, "group::second");
    assert_eq!(stats.filtered(), 3);
    assert_eq!(stats.launched(), 2);
    assert_eq!(stats.ok(), 1);
    assert_eq!(stats.failed(), 1);
    assert_eq!(stats.skipped(), 1);
    assert_eq!(stats.failed_tests(), vec!["group::second".to_string()]);
    assert!(!stats.is_success());
}

#[test]
fn add_assign_appends() {
    let mut a = make(1, "a");
    a += &make(2, "b");
    a += make(3, "c");
    assert_eq!(a.total(), 6);
    assert_eq!(a.failed(), 3);
    assert_eq!(
        a.failed_tests(),
        vec!["a".to_string(), "b".to_string(), "c".to_string()]
    );
}
