use e2etest::text::{contains_str, join_names, qualified, rsplit_once_sep, string_eq};

#[test]
fn rsplit_takes_the_last_separator() {
    assert_eq!(rsplit_once_sep("a::b::c"), Some(("a::b", "c")));
    assert_eq!(rsplit_once_sep("::"), Some(("", "")));
    assert_eq!(rsplit_once_sep("crud::"), Some(("crud", "")));
    assert_eq!(rsplit_once_sep("a:::b"), Some(("a:", "b")));
    assert_eq!(rsplit_once_sep("a:b"), None);
    assert_eq!(rsplit_once_sep(""), None);
    assert_eq!("a:::b".rsplit_once("::"), rsplit_once_sep("a:::b"));
    assert_eq!("ö::ü".rsplit_once("::"), rsplit_once_sep("ö::ü"));
}

#[test]
fn contains_is_substring_search() {
    assert!(contains_str("simple_create", "create"));
    assert!(contains_str("simple_create", ""));
    assert!(contains_str("", ""));
    assert!(!contains_str("", "a"));
    assert!(!contains_str("abc", "abcd"));
    assert!(contains_str("aab", "ab"));
}

#[test]
fn joining_and_qualifying() {
    assert_eq!(join_names(&vec![]), "");
    assert_eq!(join_names(&vec!["root".to_string()]), "root");
    assert_eq!(
        join_names(&vec!["root".to_string(), "crud".to_string(), "x".to_string()]),
        "root::crud::x"
    );
    assert_eq!(qualified("root", "crud"), "root::crud");
    assert_eq!(qualified("", ""), "::");
    assert!(string_eq(&"same".to_string(), "same"));
    assert!(!string_eq(&"same".to_string(), "sam"));
}
