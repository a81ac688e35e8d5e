use resolution::names::{precedes, ExtraName, GroupName, NameError, PackageName};

#[test]
fn package_names_are_normalized() {
    assert_eq!(PackageName::new("Friendly-Bard").unwrap().as_str(), "friendly-bard");
    assert_eq!(PackageName::new("friendly.bard").unwrap().as_str(), "friendly-bard");
    assert_eq!(PackageName::new("FRIENDLY__bard").unwrap().as_str(), "friendly-bard");
    assert_eq!(PackageName::new("friendly-._.-bard").unwrap().as_str(), "friendly-bard");
    assert_eq!(PackageName::new("a").unwrap().as_str(), "a");
}

#[test]
fn names_differing_in_case_or_separator_are_the_same_package() {
    let a = PackageName::new("Foo_Bar").unwrap();
    let b = PackageName::new("foo.bar").unwrap();
    let c = PackageName::new("foobar").unwrap();
    assert!(a.same(&b));
    assert!(!a.same(&c));
    assert!(a.duplicate().same(&a));
}

#[test]
fn malformed_names_are_refused() {
    for text in ["", "-start", "end-", "with space", "caf\u{e9}", "a/b", "_"] {
        assert_eq!(PackageName::new(text).unwrap_err(), NameError::Invalid);
        assert!(ExtraName::new(text).is_err());
        assert!(GroupName::new(text).is_err());
    }
}

#[test]
fn extras_and_groups_are_normalized_too() {
    assert_eq!(ExtraName::new("Dev_Tools").unwrap().as_str(), "dev-tools");
    assert_eq!(GroupName::new("Test.Suite").unwrap().as_str(), "test-suite");
    assert!(ExtraName::new("security").unwrap().same(&ExtraName::new("SECURITY").unwrap()));
    assert!(!GroupName::new("dev").unwrap().same(&GroupName::new("docs").unwrap()));
}

#[test]
fn texts_are_ordered_as_in_a_dictionary() {
    assert!(precedes("apple", "zebra"));
    assert!(!precedes("zebra", "apple"));
    assert!(precedes("app", "apple"));
    assert!(!precedes("apple", "app"));
    assert!(!precedes("apple", "apple"));
    assert!(precedes("", "a"));
    assert!(!precedes("", ""));
    assert!(precedes("a-b", "a.b"));
    assert!(precedes("a[x]", "a[y]"));
}

#[test]
fn digits_stay_and_each_run_of_separators_becomes_one_hyphen() {
    assert_eq!(PackageName::new("A1.B2__c").unwrap().as_str(), "a1-b2-c");
    assert_eq!(PackageName::new("3D-Tools").unwrap().as_str(), "3d-tools");
    assert_eq!(ExtraName::new("x-_-.9").unwrap().as_str(), "x-9");
    assert_eq!(GroupName::new("Z").unwrap().as_str(), "z");
    assert!(PackageName::new("a-").is_err() && PackageName::new(".a").is_err() && PackageName::new("a b").is_err());
}
