use resolution::version::{Version, VersionError};
use resolution::version_set::VersionSet;

fn v(text: &str) -> Version {
    Version::parse(text).unwrap()
}

#[test]
fn versions_parse_and_keep_their_text() {
    assert_eq!(v("1.19").as_str(), "1.19");
    assert_eq!(v("1.0a1").as_str(), "1.0a1");
    assert_eq!(Version::parse("not a version").unwrap_err(), VersionError::Invalid);
    assert!(Version::parse("").is_err());
    assert!(Version::parse("1.*").is_err());
}

#[test]
fn versions_are_ordered_by_the_version_scheme() {
    assert!(v("1.0").lt(&v("1.5")));
    assert!(v("1.5").lt(&v("2.0")));
    assert!(v("1.9").lt(&v("1.10")));
    assert!(!v("2.0").le(&v("1.5")));
    assert!(v("1.0.dev456").lt(&v("1.0a1")));
    assert!(v("1.0a1").lt(&v("1.0")));
    assert!(v("1.0").lt(&v("1.0.post456")));
    assert!(v("1.0").le(&v("1.0")));
}

#[test]
fn trailing_zeros_do_not_tell_versions_apart() {
    assert!(v("1.0").same(&v("1.0.0")));
    assert!(!v("1.0").same_text(&v("1.0.0")));
    assert!(!v("1.0").lt(&v("1.0.0")));
    assert!(!v("1.0").same(&v("1.0.1")));
}

#[test]
fn prereleases_are_told_apart() {
    assert!(v("1.0a1").is_prerelease());
    assert!(v("1.0.dev0").is_prerelease());
    assert!(v("1.0rc2").is_prerelease());
    assert!(!v("1.0").is_prerelease());
    assert!(!v("1.0.post1").is_prerelease());
}

#[test]
fn empty_and_full_are_told_apart() {
    assert!(VersionSet::empty().is_empty());
    assert!(!VersionSet::empty().is_full());
    assert!(VersionSet::full().is_full());
    assert!(!VersionSet::full().is_empty());
    assert!(!VersionSet::empty().contains(&v("1.0")));
    assert!(VersionSet::full().contains(&v("1.0")));
    assert!(VersionSet::empty().complement().is_full());
    assert!(VersionSet::full().complement().is_empty());
}

#[test]
fn bounds_are_open_or_closed_as_asked() {
    let one = v("1.0");
    assert!(VersionSet::higher_than(&one).contains(&v("1.0")));
    assert!(VersionSet::higher_than(&one).contains(&v("99")));
    assert!(!VersionSet::higher_than(&one).contains(&v("0.9")));
    assert!(!VersionSet::strictly_higher_than(&one).contains(&v("1.0")));
    assert!(VersionSet::strictly_higher_than(&one).contains(&v("1.0.post1")));
    assert!(VersionSet::lower_than(&one).contains(&v("1.0")));
    assert!(VersionSet::lower_than(&one).contains(&v("0.1")));
    assert!(!VersionSet::lower_than(&one).contains(&v("1.1")));
    assert!(!VersionSet::strictly_lower_than(&one).contains(&v("1.0")));
    assert!(VersionSet::strictly_lower_than(&one).contains(&v("1.0a1")));
}

#[test]
fn singleton_holds_the_version_however_written() {
    let only = VersionSet::singleton(&v("1.0"));
    assert!(only.contains(&v("1.0")));
    assert!(only.contains(&v("1.0.0")));
    assert!(!only.contains(&v("1.0.1")));
    assert!(!only.contains(&v("0.9")));
    assert!(!only.is_empty());
}

#[test]
fn between_is_closed_below_and_open_above() {
    let set = VersionSet::between(&v("1.0"), &v("2.0"));
    assert!(set.contains(&v("1.0")));
    assert!(set.contains(&v("1.5")));
    assert!(!set.contains(&v("2.0")));
    assert!(!set.contains(&v("0.9")));
    assert!(VersionSet::between(&v("2.0"), &v("1.0")).is_empty());
}

#[test]
fn union_and_intersection_hold_what_they_should() {
    let low = VersionSet::strictly_lower_than(&v("1.0"));
    let high = VersionSet::higher_than(&v("2.0"));
    let both = low.union(&high);
    for text in ["0.5", "2.0", "3.1"] {
        assert!(both.contains(&v(text)));
    }
    for text in ["1.0", "1.5", "1.99"] {
        assert!(!both.contains(&v(text)));
    }
    assert!(low.intersection(&high).is_empty());
    let middle = VersionSet::between(&v("0.5"), &v("2.5"));
    let cut = middle.intersection(&both);
    assert!(cut.contains(&v("0.7")));
    assert!(cut.contains(&v("2.2")));
    assert!(!cut.contains(&v("1.2")));
    assert!(!cut.contains(&v("2.5")));
}

#[test]
fn de_morgan_holds_on_sample_versions() {
    let a = VersionSet::between(&v("1.0"), &v("3.0"));
    let b = VersionSet::higher_than(&v("2.0"));
    let left = a.union(&b).complement();
    let right = a.complement().intersection(&b.complement());
    let left2 = a.intersection(&b).complement();
    let right2 = a.complement().union(&b.complement());
    for text in ["0.1", "1.0", "1.5", "2.0", "2.5", "3.0", "4.0"] {
        assert_eq!(left.contains(&v(text)), right.contains(&v(text)));
        assert_eq!(left2.contains(&v(text)), right2.contains(&v(text)));
    }
    assert!(left.equals(&right));
    assert!(left2.equals(&right2));
}

#[test]
fn sets_built_differently_are_equal_when_they_hold_the_same() {
    let a = VersionSet::between(&v("1.0"), &v("2.0"));
    let b = VersionSet::higher_than(&v("1.0.0")).intersection(&VersionSet::strictly_lower_than(&v("2")));
    let c = VersionSet::strictly_lower_than(&v("1.0")).union(&VersionSet::higher_than(&v("2.0"))).complement();
    assert!(a.equals(&b));
    assert!(a.equals(&c));
    assert!(a.union(&a).equals(&a));
    assert!(a.intersection(&a).equals(&a));
    assert!(a.complement().complement().equals(&a));
    assert!(!a.equals(&VersionSet::between(&v("1.0"), &v("2.1"))));
}

#[test]
fn adjoining_sets_join_without_a_seam() {
    let a = VersionSet::between(&v("1.0"), &v("2.0"));
    let b = VersionSet::between(&v("2.0"), &v("3.0"));
    assert!(a.union(&b).equals(&VersionSet::between(&v("1.0"), &v("3.0"))));
    assert!(a.is_disjoint(&b));
}

#[test]
fn subset_and_disjoint_are_recognized() {
    let wide = VersionSet::higher_than(&v("1.0"));
    let narrow = VersionSet::between(&v("1.5"), &v("2.0"));
    assert!(narrow.subset_of(&wide));
    assert!(!wide.subset_of(&narrow));
    assert!(!narrow.is_disjoint(&wide));
    assert!(narrow.is_disjoint(&VersionSet::higher_than(&v("2.0"))));
    assert!(VersionSet::empty().subset_of(&narrow));
    assert!(narrow.subset_of(&VersionSet::full()));
}

#[test]
fn prereleases_are_admitted_only_on_request() {
    let set = VersionSet::higher_than(&v("1.0"));
    assert!(set.contains(&v("2.0a1")));
    assert!(!set.admits(&v("2.0a1"), false));
    assert!(set.admits(&v("2.0a1"), true));
    assert!(set.admits(&v("2.0"), false));
    assert!(!set.admits(&v("0.5"), true));
}

#[test]
fn a_copy_of_a_version_is_written_the_same() {
    let version = Version::parse("1.0.0rc1").unwrap();
    assert_eq!(version.clone().as_str(), version.as_str());
    assert_eq!(version.duplicate().as_str(), "1.0.0rc1");
    assert!(version.clone().same(&version));
}
