use e2etest::naming::{
    group_fixture_name, group_groups_name, group_tests_name, group_type_name, groups_path,
    is_fixture_argument, test_fixture_name, test_register_name, test_type_name, tests_path,
    SegmentShape,
};
use e2etest::Config;
use std::time::Duration;

struct Counter(u32);

#[test]
fn default_config() {
    let config = Config::default();
    assert!(config.filters().is_empty());
    assert_eq!(config.default_timeout(), Duration::from_secs(60));
    assert!(config.into_permanent_fixtures().is_empty());
}

#[test]
fn builders_keep_what_they_are_given() {
    let config = Config::default()
        .with_permanent_fixture(Counter(7))
        .with_filter("group1::")
        .with_filter("::test2_2")
        .with_default_timeout(Duration::from_secs(1));
    assert_eq!(
        config.filters(),
        vec!["group1::".to_string(), "::test2_2".to_string()]
    );
    assert_eq!(config.default_timeout(), Duration::from_secs(1));
    let fixtures = config.into_permanent_fixtures();
    assert_eq!(fixtures.len(), 1);
    let counter = fixtures[0].value.clone().downcast::<Counter>().ok().unwrap();
    assert_eq!(counter.0, 7);
}

#[test]
fn generated_names() {
    assert_eq!(group_groups_name("filter_root"), "_E2ETEST_FILTER_ROOT_GROUPS");
    assert_eq!(group_tests_name("filter_root"), "_E2ETEST_FILTER_ROOT_TESTS");
    assert_eq!(group_fixture_name("skip_root"), "_E2etestGroupFixtureSkipRoot");
    assert_eq!(group_type_name("skip_root"), "_E2etestGroupSkipRoot");
    assert_eq!(test_fixture_name("dns_ip"), "_E2etestTestFixtureDnsIp");
    assert_eq!(test_type_name("dns_ip"), "_E2etestTestDnsIp");
    assert_eq!(test_register_name("numberAndOctet"), "_e2etest_register_number_and_octet");
}

#[test]
fn fixtures_keep_their_order() {
    let config = Config::default()
        .with_permanent_fixture(Counter(1))
        .with_permanent_fixture("second")
        .with_permanent_fixture(Counter(3));
    let fixtures = config.into_permanent_fixtures();
    assert_eq!(fixtures.len(), 3);
    assert_eq!(fixtures[0].value.clone().downcast::<Counter>().ok().unwrap().0, 1);
    assert_eq!(*fixtures[1].value.clone().downcast::<&str>().ok().unwrap(), "second");
    assert_eq!(fixtures[2].value.clone().downcast::<Counter>().ok().unwrap().0, 3);
}

fn strings(parts: &[&str]) -> Vec<String> {
    parts.iter().map(|p| p.to_string()).collect()
}

#[test]
fn registration_paths() {
    assert_eq!(
        tests_path(&strings(&["crate", "sample", "group"])),
        Some(strings(&["crate", "sample", "_E2ETEST_GROUP_TESTS"]))
    );
    assert_eq!(
        groups_path(&strings(&["filter_root"])),
        Some(strings(&["_E2ETEST_FILTER_ROOT_GROUPS"]))
    );
    assert_eq!(tests_path(&vec![]), None);
    assert_eq!(groups_path(&vec![]), None);
}

fn shape(name: &str, type_argument: bool) -> SegmentShape {
    SegmentShape { name: name.to_string(), type_argument }
}

#[test]
fn fixture_arguments() {
    assert!(is_fixture_argument(&vec![shape("Arc", true)]));
    assert!(is_fixture_argument(&vec![
        shape("std", false),
        shape("sync", false),
        shape("Arc", true),
    ]));
    assert!(!is_fixture_argument(&vec![shape("Arc", false)]));
    assert!(!is_fixture_argument(&vec![shape("Box", true)]));
    assert!(!is_fixture_argument(&vec![shape("Arc", true), shape("Inner", false)]));
    assert!(!is_fixture_argument(&vec![]));
}
