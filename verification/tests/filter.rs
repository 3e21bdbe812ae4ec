use e2etest::filter::Filter;
use e2etest::filter::FilterMatcher;
use e2etest::group::GroupTree;
use std::collections::HashMap;
use std::collections::HashSet;

struct Selection {
    groups: HashSet<String>,
    tests: HashMap<String, HashSet<String>>,
}

fn selection(filter: &Filter) -> Selection {
    let groups: HashSet<String> = filter.group_paths().into_iter().collect();
    let mut tests = HashMap::new();
    for key in filter.selected_groups() {
        let names: HashSet<String> = filter.tests_of(&key).unwrap().into_iter().collect();
        tests.insert(key, names);
    }
    Selection { groups, tests }
}

fn make_dummy_group(group_name: &str, test_names: &[&str]) -> GroupTree {
    GroupTree {
        name: group_name.to_string(),
        tests: test_names.iter().map(|&name| name.to_string()).collect(),
        groups: vec![],
    }
}

fn make_test_cases() -> GroupTree {
    GroupTree {
        name: "root".to_string(),
        tests: vec![],
        groups: vec![
            make_dummy_group("crud", &["simple_create", "drop_index"]),
            make_dummy_group("full_scan", &["scan_index", "scan_all"]),
            make_dummy_group("other", &["misc", "simple_misc"]),
        ],
    }
}

fn make_overlapping_test_cases() -> GroupTree {
    GroupTree {
        name: "root".to_string(),
        tests: vec![],
        groups: vec![
            make_dummy_group("crud", &["simple_create", "simple_create_extra"]),
            make_dummy_group("crud_extra", &["simple_create", "simple_create_additional"]),
        ],
    }
}

#[test]
fn test_no_filters_runs_all() {
    let test_cases = make_test_cases();
    let filters: Vec<String> = vec![];
    let result = selection(&Filter::new(&filters, &test_cases));
    assert!(result.groups.is_empty());
    assert!(result.tests.is_empty());
}

#[test]
fn test_empty_filters_runs_all() {
    let test_cases = make_test_cases();
    let filters: Vec<String> = vec!["::".to_string()];
    let result = selection(&Filter::new(&filters, &test_cases));
    // It should contain all available test files with empty test cases (running all)
    assert_eq!(result.groups.len(), 3);
    assert_eq!(result.tests.len(), 3);
    assert!(result.groups.contains("root::crud"));
    assert!(result.tests["root::crud"].is_empty());
    assert!(result.groups.contains("root::full_scan"));
    assert!(result.tests["root::full_scan"].is_empty());
    assert!(result.groups.contains("root::other"));
    assert!(result.tests["root::other"].is_empty());
}

#[test]
fn test_file_partial_match() {
    let test_cases = make_test_cases();
    let filters = vec!["crud".to_string()];
    let result = selection(&Filter::new(&filters, &test_cases));
    assert!(result.groups.contains("root::crud"));
    assert!(result.tests.contains_key("root::crud"));
    assert!(result.tests["root::crud"].is_empty());
    assert_eq!(result.groups.len(), 1);
    assert_eq!(result.tests.len(), 1);
}

#[test]
fn test_test_case_partial_match() {
    let test_cases = make_test_cases();
    let filters = vec!["simple".to_string()];
    let result = selection(&Filter::new(&filters, &test_cases));
    assert!(result.groups.contains("root::crud"));
    assert!(result.tests["root::crud"].contains("simple_create"));
    assert!(result.groups.contains("root::other"));
    assert!(result.tests["root::other"].contains("simple_misc"));
    assert_eq!(result.groups.len(), 2);
    assert_eq!(result.tests.len(), 2);
}

#[test]
fn test_file_and_test_case_syntax() {
    let test_cases = make_test_cases();
    let filters = vec!["crud::simple".to_string()];
    let result = selection(&Filter::new(&filters, &test_cases));
    assert!(result.groups.contains("root::crud"));
    assert!(result.tests["root::crud"].contains("simple_create"));
    assert_eq!(result.groups.len(), 1);
    assert_eq!(result.tests.len(), 1);
}

#[test]
fn test_file_and_empty_test_case_syntax() {
    let test_cases = make_test_cases();
    let filters = vec!["crud::".to_string()];
    let result = selection(&Filter::new(&filters, &test_cases));
    assert!(result.groups.contains("root::crud"));
    assert!(result.tests.contains_key("root::crud"));
    assert!(result.tests["root::crud"].is_empty());
    assert_eq!(result.groups.len(), 1);
    assert_eq!(result.tests.len(), 1);
}

#[test]
fn test_empty_file_and_test_case_syntax() {
    let test_cases = make_test_cases();
    let filters = vec!["::simple".to_string()];
    let result = selection(&Filter::new(&filters, &test_cases));
    assert!(result.groups.contains("root::crud"));
    assert!(result.tests["root::crud"].contains("simple_create"));
    assert!(result.groups.contains("root::other"));
    assert!(result.tests["root::other"].contains("simple_misc"));
    assert_eq!(result.groups.len(), 2);
    assert_eq!(result.tests.len(), 2);
}

#[test]
fn test_exact_file_match_syntax() {
    let test_cases = make_overlapping_test_cases();
    let filters = vec!["\"crud\"::".to_string()];
    let result = selection(&Filter::new(&filters, &test_cases));
    assert!(result.groups.contains("root::crud"));
    assert!(result.tests.contains_key("root::crud"));
    assert!(result.tests["root::crud"].is_empty());
    assert_eq!(result.groups.len(), 1);
    assert_eq!(result.tests.len(), 1);
}

#[test]
fn test_exact_test_case_match_syntax() {
    let test_cases = make_overlapping_test_cases();
    let filters = vec!["::\"simple_create\"".to_string()];
    let result = selection(&Filter::new(&filters, &test_cases));
    assert!(result.groups.contains("root::crud"));
    assert!(result.tests["root::crud"].contains("simple_create"));
    assert!(!result.tests["root::crud"].contains("simple_create_extra"));
    assert!(result.groups.contains("root::crud_extra"));
    assert!(result.tests["root::crud_extra"].contains("simple_create"));
    assert!(!result.tests["root::crud_extra"].contains("simple_create_additional"));
    assert_eq!(result.groups.len(), 2);
    assert_eq!(result.tests.len(), 2);
}

#[test]
fn test_exact_file_and_test_case_syntax() {
    let test_cases = make_overlapping_test_cases();
    let filters = vec!["\"crud\"::\"simple_create\"".to_string()];
    let result = selection(&Filter::new(&filters, &test_cases));
    assert!(result.groups.contains("root::crud"));
    assert!(result.tests["root::crud"].contains("simple_create"));
    assert!(!result.tests["root::crud"].contains("simple_create_extra"));
    assert_eq!(result.groups.len(), 1);
    assert_eq!(result.tests.len(), 1);
}

#[test]
fn matcher_kinds() {
    assert!(matches!(FilterMatcher::new(""), FilterMatcher::Any));
    assert!(matches!(FilterMatcher::new("\"ab\""), FilterMatcher::Exact("ab")));
    assert!(matches!(FilterMatcher::new("\"\""), FilterMatcher::Exact("")));
    assert!(matches!(FilterMatcher::new("\""), FilterMatcher::Partial("\"")));
    assert!(matches!(FilterMatcher::new("\"ab"), FilterMatcher::Partial("\"ab")));
    assert!(matches!(FilterMatcher::new("ab"), FilterMatcher::Partial("ab")));
}

#[test]
fn matcher_matches() {
    assert!(FilterMatcher::new("").matches("anything"));
    assert!(FilterMatcher::new("").matches(""));
    assert!(FilterMatcher::new("mple").matches("simple_create"));
    assert!(!FilterMatcher::new("mplx").matches("simple_create"));
    assert!(!FilterMatcher::new("simple_create_").matches("simple_create"));
    assert!(FilterMatcher::new("\"simple\"").matches("simple"));
    assert!(!FilterMatcher::new("\"simple\"").matches("simple_create"));
    assert!(FilterMatcher::new("é").matches("café"));
}

#[test]
fn nested_group_opens_every_level() {
    let tree = GroupTree {
        name: "root".to_string(),
        tests: vec![],
        groups: vec![GroupTree {
            name: "a".to_string(),
            tests: vec!["t0".to_string()],
            groups: vec![make_dummy_group("b", &["t1", "t2"])],
        }],
    };
    let filters = vec!["\"a::b\"::t1".to_string()];
    let result = selection(&Filter::new(&filters, &tree));
    assert_eq!(result.groups.len(), 2);
    assert!(result.groups.contains("root::a"));
    assert!(result.groups.contains("root::a::b"));
    assert_eq!(result.tests.len(), 1);
    assert_eq!(result.tests["root::a::b"].len(), 1);
    assert!(result.tests["root::a::b"].contains("t1"));
}

#[test]
fn consider_without_filters_runs_everything() {
    let filters: Vec<String> = vec![];
    let filter = Filter::new(&filters, &make_test_cases());
    assert!(filter.consider_group(&vec!["root".to_string()], "anything"));
    assert!(filter.consider_test(&vec!["root".to_string(), "x".to_string()], "y"));
    let empty = Filter::empty();
    assert!(empty.consider_group(&vec![], "root"));
    assert!(empty.consider_test(&vec![], "t"));
}

#[test]
fn consider_follows_selection() {
    let filters = vec!["crud::simple".to_string()];
    let filter = Filter::new(&filters, &make_test_cases());
    let root = vec!["root".to_string()];
    assert!(filter.consider_group(&root, "crud"));
    assert!(!filter.consider_group(&root, "full_scan"));
    let crud = vec!["root".to_string(), "crud".to_string()];
    assert!(filter.consider_test(&crud, "simple_create"));
    assert!(!filter.consider_test(&crud, "drop_index"));
    let other = vec!["root".to_string(), "other".to_string()];
    assert!(!filter.consider_test(&other, "simple_misc"));
}

#[test]
fn consider_whole_group() {
    let filters = vec!["full_scan".to_string()];
    let filter = Filter::new(&filters, &make_test_cases());
    let scan = vec!["root".to_string(), "full_scan".to_string()];
    assert!(filter.consider_test(&scan, "scan_index"));
    assert!(filter.consider_test(&scan, "scan_all"));
    assert_eq!(filter.tests_of("root::full_scan"), Some(vec![]));
    assert_eq!(filter.tests_of("root::crud"), None);
}

#[test]
fn names_without_separator_are_not_selectable() {
    let filters = vec!["top".to_string()];
    let filter = Filter::from_names(&filters, "root", &vec!["top".to_string()]);
    assert!(filter.group_paths().is_empty());
    assert!(filter.selected_groups().is_empty());
}

#[test]
fn unmatched_filter_runs_nothing() {
    let filters = vec!["nomatch".to_string()];
    let filter = Filter::new(&filters, &make_test_cases());
    assert!(filter.group_paths().is_empty());
    assert!(filter.selected_groups().is_empty());
    let root = vec!["root".to_string()];
    assert!(!filter.consider_group(&root, "crud"));
    assert!(!filter.consider_group(&root, "full_scan"));
    let crud = vec!["root".to_string(), "crud".to_string()];
    assert!(!filter.consider_test(&crud, "simple_create"));
    assert!(!filter.consider_test(&crud, "drop_index"));
}

#[test]
fn groups_are_the_prefixes_of_the_selected_groups() {
    let tree = GroupTree {
        name: "root".to_string(),
        tests: vec![],
        groups: vec![
            GroupTree {
                name: "a".to_string(),
                tests: vec!["t0".to_string()],
                groups: vec![GroupTree {
                    name: "b".to_string(),
                    tests: vec![],
                    groups: vec![make_dummy_group("c", &["t1"])],
                }],
            },
            make_dummy_group("x", &["t1"]),
        ],
    };
    let filters = vec!["::t1".to_string()];
    let result = selection(&Filter::new(&filters, &tree));
    let expected: HashSet<String> = ["root::a", "root::a::b", "root::a::b::c", "root::x"]
        .iter()
        .map(|s| s.to_string())
        .collect();
    assert_eq!(result.groups, expected);
    let keys: HashSet<String> = result.tests.keys().cloned().collect();
    let expected_keys: HashSet<String> =
        ["root::a::b::c", "root::x"].iter().map(|s| s.to_string()).collect();
    assert_eq!(keys, expected_keys);
}
