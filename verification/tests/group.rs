use e2etest::group::GroupTree;
use std::collections::HashSet;

fn leaf(name: &str, tests: &[&str]) -> GroupTree {
    GroupTree {
        name: name.to_string(),
        tests: tests.iter().map(|t| t.to_string()).collect(),
        groups: vec![],
    }
}

fn hierarchy_root2() -> GroupTree {
    GroupTree {
        name: "hierarchy_root2".to_string(),
        tests: vec![],
        groups: vec![
            GroupTree {
                name: "hierarchy_first".to_string(),
                tests: vec!["first1".to_string(), "first2".to_string()],
                groups: vec![leaf("hierarchy_deep", &["deep1", "deep2"])],
            },
            leaf("hierarchy_second", &["second1", "second2"]),
        ],
    }
}

#[test]
fn names_hierarchy_root2() {
    let received: HashSet<_> = hierarchy_root2().test_names().into_iter().collect();
    let expected: HashSet<_> = [
        "hierarchy_first::first1".to_string(),
        "hierarchy_first::first2".to_string(),
        "hierarchy_first::hierarchy_deep::deep1".to_string(),
        "hierarchy_first::hierarchy_deep::deep2".to_string(),
        "hierarchy_second::second1".to_string(),
        "hierarchy_second::second2".to_string(),
    ]
    .into_iter()
    .collect();
    assert_eq!(received, expected);
}

#[test]
fn names_order_subgroups_first() {
    let names = hierarchy_root2().test_names();
    assert_eq!(
        names,
        vec![
            "hierarchy_first::hierarchy_deep::deep1".to_string(),
            "hierarchy_first::hierarchy_deep::deep2".to_string(),
            "hierarchy_first::first1".to_string(),
            "hierarchy_first::first2".to_string(),
            "hierarchy_second::second1".to_string(),
            "hierarchy_second::second2".to_string(),
        ]
    );
}

#[test]
fn names_of_root_tests_are_bare() {
    let tree = GroupTree {
        name: "root".to_string(),
        tests: vec!["alone".to_string()],
        groups: vec![],
    };
    assert_eq!(tree.test_names(), vec!["alone".to_string()]);
    assert!(leaf("empty", &[]).test_names().is_empty());
}
