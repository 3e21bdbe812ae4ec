use e2etest::filter::Filter;
use e2etest::group::GroupTree;
use e2etest::run::{Action, Event, GroupRun};
use e2etest::statistics::Inner;

fn leaf(name: &str, tests: &[&str]) -> GroupTree {
    GroupTree {
        name: name.to_string(),
        tests: tests.iter().map(|t| t.to_string()).collect(),
        groups: vec![],
    }
}

/// Runs `group` below `parents` with every setup and teardown succeeding,
/// returning the qualified names of the tests that were launched.
fn drive(group: &GroupTree, parents: &Vec<String>, filter: &Filter, stats: &mut Inner) -> Vec<String> {
    let names: Vec<String> = group.groups.iter().map(|g| g.name.clone()).collect();
    let mut run = GroupRun::new(parents, &group.name, &names, &group.tests);
    let mut launched = Vec::new();
    let mut action = run.action();
    loop {
        action = match action {
            Action::SetupFixture => run.step(Event::SetupOk, filter, stats),
            Action::RunGroup(k) => {
                launched.extend(drive(&group.groups[k], &run.path(), filter, stats));
                run.step(Event::ChildDone, filter, stats)
            }
            Action::RunTest(k) => {
                launched.push(format!("{}::{}", run.path().join("::"), group.tests[k]));
                run.step(Event::ChildDone, filter, stats)
            }
            Action::TeardownFixture => run.step(Event::TeardownOk, filter, stats),
            Action::Finish => break,
        };
    }
    launched
}

fn filter_root() -> GroupTree {
    GroupTree {
        name: "filter_root".to_string(),
        tests: vec![],
        groups: vec![
            GroupTree {
                name: "filter_group1".to_string(),
                tests: vec!["filter_test1_1".to_string(), "filter_test1_2".to_string()],
                groups: vec![
                    leaf("filter_group1_1", &["filter_test1_1_1", "filter_test1_1_2"]),
                    leaf("filter_group1_2", &["filter_test1_2_1", "filter_test1_2_2"]),
                ],
            },
            GroupTree {
                name: "filter_group2".to_string(),
                tests: vec!["filter_test2_1".to_string(), "filter_test2_2".to_string()],
                groups: vec![
                    leaf("filter_group2_1", &["filter_test2_1_1", "filter_test2_1_2"]),
                    leaf("filter_group2_2", &["filter_test2_2_1", "filter_test2_2_2"]),
                ],
            },
        ],
    }
}

#[test]
fn filter_by_group_launches_six() {
    let root = filter_root();
    let filter = Filter::new(&["group1::".to_string()], &root);
    let mut stats = Inner::new();
    let launched = drive(&root, &vec![], &filter, &mut stats);
    assert_eq!(launched.len(), 6);
    assert!(launched.iter().all(|t| t.contains("group1")));
    assert!(stats.is_success());
}

#[test]
fn filter_by_test_launches_three() {
    let root = filter_root();
    let filter = Filter::new(&["::test2_2".to_string()], &root);
    let mut stats = Inner::new();
    let launched = drive(&root, &vec![], &filter, &mut stats);
    assert_eq!(
        launched,
        vec![
            "filter_root::filter_group2::filter_group2_2::filter_test2_2_1".to_string(),
            "filter_root::filter_group2::filter_group2_2::filter_test2_2_2".to_string(),
            "filter_root::filter_group2::filter_test2_2".to_string(),
        ]
    );
}

#[test]
fn no_filter_launches_everything() {
    let root = filter_root();
    let filter = Filter::new(&[], &root);
    let mut stats = Inner::new();
    let launched = drive(&root, &vec![], &filter, &mut stats);
    assert_eq!(launched.len(), 12);
}

#[test]
fn failed_setup_runs_nothing() {
    let filter = Filter::empty();
    let mut stats = Inner::new();
    let mut run = GroupRun::new(
        &vec!["root".to_string()],
        "crud",
        &vec!["sub".to_string()],
        &vec!["t".to_string()],
    );
    assert_eq!(run.action(), Action::SetupFixture);
    assert!(run.expects(Event::SetupFailed));
    assert!(!run.expects(Event::ChildDone));
    assert_eq!(run.step(Event::SetupFailed, &filter, &mut stats), Action::Finish);
    assert!(!run.expects(Event::ChildDone));
    assert_eq!(stats.failed_tests(), vec!["root::crud".to_string()]);
}

#[test]
fn collects_failed_test_names() {
    let filter = Filter::empty();
    let mut stats = Inner::new();
    let tests = vec!["ok".to_string(), "boom".to_string()];
    let mut run = GroupRun::new(&vec![], "crud", &vec![], &tests);
    assert_eq!(run.step(Event::SetupOk, &filter, &mut stats), Action::RunTest(0));
    assert_eq!(run.step(Event::ChildDone, &filter, &mut stats), Action::RunTest(1));
    stats.record_failure("crud::boom");
    assert_eq!(run.step(Event::ChildDone, &filter, &mut stats), Action::TeardownFixture);
    assert_eq!(run.step(Event::TeardownFailed, &filter, &mut stats), Action::Finish);
    assert!(!stats.is_success());
    assert_eq!(stats.failed(), 2);
    assert_eq!(
        stats.failed_tests(),
        &["crud::boom".to_string(), "crud".to_string()]
    );
}

#[test]
fn stage_sequence_of_a_small_group() {
    let filter = Filter::empty();
    let mut stats = Inner::new();
    let mut run = GroupRun::new(&vec![], "g", &vec!["a".to_string(), "b".to_string()], &vec!["t".to_string()]);
    assert_eq!(run.step(Event::SetupOk, &filter, &mut stats), Action::RunGroup(0));
    assert_eq!(run.step(Event::ChildDone, &filter, &mut stats), Action::RunGroup(1));
    assert_eq!(run.step(Event::ChildDone, &filter, &mut stats), Action::RunTest(0));
    assert_eq!(run.step(Event::ChildDone, &filter, &mut stats), Action::TeardownFixture);
    assert_eq!(run.step(Event::TeardownOk, &filter, &mut stats), Action::Finish);
    assert!(stats.is_success());
}

#[test]
fn unmatched_filter_launches_nothing() {
    let root = filter_root();
    let filter = Filter::new(&["nomatch".to_string()], &root);
    let mut stats = Inner::new();
    let launched = drive(&root, &vec![], &filter, &mut stats);
    assert!(launched.is_empty());
    assert!(stats.is_success());
}
