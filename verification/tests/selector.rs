use resolution::dist::{DistKind, IndexUrl, ResolvedDist, VersionOrUrl};
use resolution::hash::{HashAlgorithm, HashDigest};
use resolution::names::PackageName;
use resolution::selector::{
    confirm, select, Artifact, ArtifactKind, HashPolicy, IndexListing, Pinned, Selected, SelectionError,
};
use resolution::version::Version;

fn wheel(file: &str, priority: Option<u64>, hashes: Vec<HashDigest>) -> Artifact {
    Artifact { kind: ArtifactKind::Built, filename: file.to_string(), priority, hashes }
}

fn source(file: &str, hashes: Vec<HashDigest>) -> Artifact {
    Artifact { kind: ArtifactKind::Source, filename: file.to_string(), priority: None, hashes }
}

fn sha(digest: &str) -> HashDigest {
    HashDigest::new(HashAlgorithm::Sha256, digest)
}

fn listing(url: &str, artifacts: Vec<Artifact>) -> IndexListing {
    IndexListing { index: IndexUrl::new(url), artifacts }
}

fn pick(pinned: Option<Pinned>, listings: Vec<IndexListing>, policy: HashPolicy) -> Result<Selected, SelectionError> {
    select(&PackageName::new("a").unwrap(), &Version::parse("1.0").unwrap(), pinned, &listings, policy)
}

fn kind_of(dist: &ResolvedDist) -> &'static str {
    match dist {
        ResolvedDist::Installed(_) => "installed",
        ResolvedDist::Installable(resolution::dist::Dist::Built(_)) => "built",
        ResolvedDist::Installable(resolution::dist::Dist::Source(_)) => "source",
    }
}

#[test]
fn an_explicit_source_wins_without_any_search() {
    let listings = vec![listing("https://one.example", vec![wheel("a.whl", Some(9), vec![])])];
    let pinned = Pinned::Git { url: "git+https://x.example/a.git".to_string() };
    let chosen = pick(Some(pinned), listings, HashPolicy::Unchecked).unwrap();
    assert!(chosen.place.is_none());
    assert!(chosen.hashes.is_empty());
    assert!(chosen.dist.index().is_none());
    assert_eq!(chosen.dist.to_text(), "a @ git+https://x.example/a.git");
    let wheel_file = Pinned::Path { url: "file:///a.whl".to_string(), built: true };
    assert_eq!(kind_of(&pick(Some(wheel_file), Vec::new(), HashPolicy::Unchecked).unwrap().dist), "built");
    let dir = Pinned::Directory { url: "file:///a".to_string() };
    assert_eq!(kind_of(&pick(Some(dir), Vec::new(), HashPolicy::Unchecked).unwrap().dist), "source");
    let remote = Pinned::DirectUrl { url: "https://x.example/a.tar.gz".to_string(), built: false };
    assert_eq!(kind_of(&pick(Some(remote), Vec::new(), HashPolicy::Unchecked).unwrap().dist), "source");
}

#[test]
fn a_compatible_wheel_goes_before_source_at_the_same_index() {
    let listings = vec![listing(
        "https://one.example",
        vec![source("a.tar.gz", vec![]), wheel("a-any.whl", Some(1), vec![sha("w")])],
    )];
    let chosen = pick(None, listings, HashPolicy::Unchecked).unwrap();
    assert_eq!(chosen.place, Some((0, 1)));
    assert_eq!(kind_of(&chosen.dist), "built");
    assert_eq!(chosen.dist.index().unwrap().as_str(), "https://one.example");
    assert!(chosen.hashes[0].same(&sha("w")));
    assert!(matches!(chosen.dist.version_or_url(), VersionOrUrl::Version(v) if v.as_str() == "1.0"));
}

#[test]
fn the_wheel_of_highest_priority_is_the_best_and_the_first_among_equals() {
    let listings = vec![listing(
        "https://one.example",
        vec![
            wheel("low.whl", Some(1), vec![]),
            wheel("unfit.whl", None, vec![]),
            wheel("high-a.whl", Some(7), vec![]),
            wheel("high-b.whl", Some(7), vec![]),
        ],
    )];
    let chosen = pick(None, listings, HashPolicy::Unchecked).unwrap();
    assert_eq!(chosen.place, Some((0, 2)));
    match &chosen.dist {
        ResolvedDist::Installable(resolution::dist::Dist::Built(resolution::dist::BuiltDist::Registry(d))) => {
            assert_eq!(d.best_wheel().filename, "high-a.whl");
        }
        _ => panic!("a registry wheel was expected"),
    }
}

#[test]
fn an_incompatible_wheel_does_not_stand_in_for_source() {
    let listings = vec![listing(
        "https://one.example",
        vec![wheel("unfit.whl", None, vec![]), source("a.tar.gz", vec![]), source("a.zip", vec![])],
    )];
    let chosen = pick(None, listings, HashPolicy::Unchecked).unwrap();
    assert_eq!(chosen.place, Some((0, 1)));
    assert_eq!(kind_of(&chosen.dist), "source");
}

#[test]
fn the_first_index_with_anything_to_offer_is_taken() {
    let listings = vec![
        listing("https://empty.example", vec![]),
        listing("https://unfit.example", vec![wheel("unfit.whl", None, vec![])]),
        listing("https://source.example", vec![source("a.tar.gz", vec![])]),
        listing("https://wheel.example", vec![wheel("a.whl", Some(5), vec![])]),
    ];
    let chosen = pick(None, listings, HashPolicy::Unchecked).unwrap();
    assert_eq!(chosen.place, Some((2, 0)));
    assert_eq!(chosen.dist.index().unwrap().as_str(), "https://source.example");
}

#[test]
fn nothing_on_offer_is_no_distribution_found() {
    assert_eq!(pick(None, Vec::new(), HashPolicy::Unchecked).unwrap_err(), SelectionError::NoDistributionFound);
    let listings = vec![listing("https://one.example", vec![wheel("unfit.whl", None, vec![])])];
    assert_eq!(pick(None, listings, HashPolicy::Unchecked).unwrap_err(), SelectionError::NoDistributionFound);
}

#[test]
fn artifacts_without_the_required_hash_are_not_on_offer() {
    let policy = HashPolicy::Require(HashAlgorithm::Sha256);
    let md5 = HashDigest::new(HashAlgorithm::Md5, "m");
    let listings = vec![
        listing("https://one.example", vec![wheel("nohash.whl", Some(9), vec![]), wheel("md5.whl", Some(8), vec![md5])]),
        listing("https://two.example", vec![wheel("bare.whl", Some(9), vec![]), source("a.tar.gz", vec![sha("s")])]),
    ];
    let chosen = pick(None, listings, policy).unwrap();
    assert_eq!(chosen.place, Some((1, 1)));
    assert_eq!(kind_of(&chosen.dist), "source");
    let none = vec![listing("https://one.example", vec![wheel("nohash.whl", Some(9), vec![])])];
    assert_eq!(pick(None, none, policy).unwrap_err(), SelectionError::NoDistributionFound);
}

#[test]
fn a_mismatched_hash_is_never_let_stand() {
    let policy = HashPolicy::Require(HashAlgorithm::Sha256);
    let listings = vec![listing("https://one.example", vec![wheel("a.whl", Some(1), vec![sha("declared")])])];
    let chosen = pick(None, listings, policy).unwrap();
    let wrong = vec![sha("computed")];
    assert_eq!(confirm(chosen, &wrong, policy).unwrap_err(), SelectionError::HashMismatch);
    let listings = vec![listing("https://one.example", vec![wheel("a.whl", Some(1), vec![sha("declared")])])];
    let chosen = pick(None, listings, policy).unwrap();
    let other_algorithm = vec![HashDigest::new(HashAlgorithm::Md5, "declared")];
    assert_eq!(confirm(chosen, &other_algorithm, policy).unwrap_err(), SelectionError::HashMismatch);
    let listings = vec![listing("https://one.example", vec![wheel("a.whl", Some(1), vec![sha("declared")])])];
    let chosen = pick(None, listings, policy).unwrap();
    assert_eq!(confirm(chosen, &Vec::new(), policy).unwrap_err(), SelectionError::HashMismatch);
}

#[test]
fn a_matching_hash_lets_the_selection_stand() {
    let policy = HashPolicy::Require(HashAlgorithm::Sha256);
    let listings = vec![listing("https://one.example", vec![wheel("a.whl", Some(1), vec![sha("x"), sha("declared")])])];
    let chosen = pick(None, listings, policy).unwrap();
    let computed = vec![HashDigest::new(HashAlgorithm::Md5, "m"), sha("declared")];
    let stands = confirm(chosen, &computed, policy).unwrap();
    assert_eq!(stands.place, Some((0, 0)));
}

#[test]
fn without_verification_every_selection_stands() {
    let listings = vec![listing("https://one.example", vec![source("a.tar.gz", vec![sha("declared")])])];
    let chosen = pick(None, listings, HashPolicy::Unchecked).unwrap();
    assert!(confirm(chosen, &vec![sha("other")], HashPolicy::Unchecked).is_ok());
}

#[test]
fn kinds_say_where_a_distribution_comes_from() {
    assert_ne!(DistKind::BuiltRegistry, DistKind::SourceRegistry);
}

#[test]
fn the_wheels_of_a_selection_are_those_on_offer_in_their_order() {
    let policy = HashPolicy::Require(HashAlgorithm::Sha256);
    let listings = vec![listing(
        "https://one.example",
        vec![
            wheel("first.whl", Some(1), vec![sha("1")]),
            wheel("nohash.whl", Some(9), vec![]),
            source("a.tar.gz", vec![sha("s")]),
            wheel("unfit.whl", None, vec![sha("u")]),
            wheel("best.whl", Some(5), vec![sha("b")]),
            wheel("last.whl", Some(2), vec![sha("l")]),
        ],
    )];
    let chosen = pick(None, listings, policy).unwrap();
    assert_eq!(chosen.place, Some((0, 4)));
    match &chosen.dist {
        ResolvedDist::Installable(resolution::dist::Dist::Built(resolution::dist::BuiltDist::Registry(d))) => {
            assert_eq!(d.best_wheel().filename, "best.whl");
            assert_eq!(d.best_wheel().index.as_str(), "https://one.example");
        }
        _ => panic!("a registry wheel was expected"),
    }
    assert!(chosen.hashes[0].same(&sha("b")));
}
