use resolution::annotated::{AnnotatedDist, Named, Shown};
use resolution::dist::{
    BuiltDist, Dist, IndexUrl, InstalledDist, RegistryBuiltDist, RegistrySourceDist, RegistryWheel, ResolvedDist,
    SourceDist, UrlDist, VersionOrUrl,
};
use resolution::names::{ExtraName, GroupName, PackageName};
use resolution::version::Version;

fn name(text: &str) -> PackageName {
    PackageName::new(text).unwrap()
}

fn v(text: &str) -> Version {
    Version::parse(text).unwrap()
}

fn url_dist(n: &str, url: &str) -> UrlDist {
    UrlDist { name: name(n), url: url.to_string() }
}

fn wheels() -> ResolvedDist {
    let list = vec![
        RegistryWheel { filename: "a-1.0-py3-none-any.whl".to_string(), index: IndexUrl::new("https://first.example") },
        RegistryWheel { filename: "a-1.0-cp312-linux.whl".to_string(), index: IndexUrl::new("https://second.example") },
    ];
    ResolvedDist::Installable(Dist::Built(BuiltDist::Registry(RegistryBuiltDist::new(name("a"), v("1.0"), list, 1).unwrap())))
}

fn sdist() -> ResolvedDist {
    ResolvedDist::Installable(Dist::Source(SourceDist::Registry(RegistrySourceDist {
        name: name("a"),
        version: v("1.0"),
        index: IndexUrl::new("https://pypi.example/simple"),
    })))
}

fn all_without_index() -> Vec<ResolvedDist> {
    vec![
        ResolvedDist::Installed(InstalledDist { name: name("a"), version: v("1.0") }),
        ResolvedDist::Installable(Dist::Built(BuiltDist::DirectUrl(url_dist("a", "https://x.example/a.whl")))),
        ResolvedDist::Installable(Dist::Built(BuiltDist::Path(url_dist("a", "file:///tmp/a.whl")))),
        ResolvedDist::Installable(Dist::Source(SourceDist::DirectUrl(url_dist("a", "https://x.example/a.tar.gz")))),
        ResolvedDist::Installable(Dist::Source(SourceDist::Git(url_dist("a", "git+https://x.example/a.git")))),
        ResolvedDist::Installable(Dist::Source(SourceDist::Path(url_dist("a", "file:///tmp/a.tar.gz")))),
        ResolvedDist::Installable(Dist::Source(SourceDist::Directory(url_dist("a", "file:///tmp/a")))),
    ]
}

fn annotated(dist: ResolvedDist, extra: Option<&str>, dev: Option<&str>) -> AnnotatedDist {
    AnnotatedDist {
        dist,
        name: name("a"),
        version: v("1.0"),
        extra: extra.map(|e| ExtraName::new(e).unwrap()),
        dev: dev.map(|g| GroupName::new(g).unwrap()),
        hashes: Vec::new(),
        metadata: None,
    }
}

#[test]
fn only_registry_distributions_have_an_index() {
    assert_eq!(wheels().index().unwrap().as_str(), "https://second.example");
    assert_eq!(sdist().index().unwrap().as_str(), "https://pypi.example/simple");
    for dist in all_without_index() {
        assert!(dist.index().is_none());
    }
}

#[test]
fn the_index_of_wheels_is_that_of_the_best_wheel() {
    let list = vec![
        RegistryWheel { filename: "one.whl".to_string(), index: IndexUrl::new("https://one.example") },
        RegistryWheel { filename: "two.whl".to_string(), index: IndexUrl::new("https://two.example") },
    ];
    let dist = RegistryBuiltDist::new(name("a"), v("1.0"), list, 0).unwrap();
    assert_eq!(dist.best_wheel().filename, "one.whl");
    assert_eq!(BuiltDist::Registry(dist).index().unwrap().as_str(), "https://one.example");
}

#[test]
fn wheels_without_a_best_one_are_refused() {
    assert!(RegistryBuiltDist::new(name("a"), v("1.0"), Vec::new(), 0).is_none());
    let list = vec![RegistryWheel { filename: "one.whl".to_string(), index: IndexUrl::new("https://one.example") }];
    assert!(RegistryBuiltDist::new(name("a"), v("1.0"), list, 1).is_none());
}

#[test]
fn distributions_are_shown_by_version_or_address() {
    assert_eq!(wheels().to_text(), "a==1.0");
    assert_eq!(sdist().to_text(), "a==1.0");
    let installed = ResolvedDist::Installed(InstalledDist { name: name("Some_Pkg"), version: v("2.3.4") });
    assert_eq!(installed.to_text(), "some-pkg==2.3.4");
    let direct = ResolvedDist::Installable(Dist::Source(SourceDist::Git(url_dist("a", "git+https://x.example/a.git"))));
    assert_eq!(direct.to_text(), "a @ git+https://x.example/a.git");
    assert_eq!(direct.display(), "a @ git+https://x.example/a.git");
}

#[test]
fn version_or_url_follows_the_kind() {
    assert!(matches!(wheels().version_or_url(), VersionOrUrl::Version(version) if version.as_str() == "1.0"));
    assert!(matches!(sdist().version_or_url(), VersionOrUrl::Version(_)));
    let mut seen = 0;
    for dist in all_without_index() {
        match dist.version_or_url() {
            VersionOrUrl::Version(version) => {
                assert!(matches!(dist, ResolvedDist::Installed(_)));
                assert_eq!(version.as_str(), "1.0");
            }
            VersionOrUrl::Url(url) => {
                assert!(url.contains("x.example") || url.starts_with("file://"));
                seen += 1;
            }
        }
    }
    assert_eq!(seen, 6);
}

#[test]
fn a_node_is_base_without_extra_and_group() {
    assert!(annotated(sdist(), None, None).is_base());
    assert!(!annotated(sdist(), Some("extra1"), None).is_base());
    assert!(!annotated(sdist(), None, Some("dev")).is_base());
    assert!(!annotated(sdist(), Some("extra1"), Some("dev")).is_base());
}

#[test]
fn a_node_takes_name_index_and_text_from_its_distribution() {
    let dist = ResolvedDist::Installable(Dist::Source(SourceDist::Registry(RegistrySourceDist {
        name: name("from-dist"),
        version: v("3.0"),
        index: IndexUrl::new("https://pypi.example/simple"),
    })));
    let node = annotated(dist, None, None);
    assert_eq!(node.name().as_str(), "from-dist");
    assert_eq!(node.package_name().as_str(), "from-dist");
    assert_eq!(node.index().unwrap().as_str(), "https://pypi.example/simple");
    assert_eq!(node.to_text(), "from-dist==3.0");
    assert_eq!(node.display(), "from-dist==3.0");
    assert!(matches!(node.version_or_url(), VersionOrUrl::Version(version) if version.as_str() == "3.0"));
    let local = annotated(ResolvedDist::Installable(Dist::Built(BuiltDist::Path(url_dist("a", "file:///a.whl")))), None, None);
    assert!(local.index().is_none());
}

#[test]
fn plain_and_extra_are_two_nodes_of_one_version() {
    let plain = annotated(sdist(), None, None);
    let extra = annotated(sdist(), Some("extra1"), None);
    assert!(!plain.same_node(&extra));
    assert!(plain.same_node(&annotated(wheels(), None, None)));
    assert!(extra.same_node(&annotated(sdist(), Some("Extra1"), None)));
    assert!(!extra.same_node(&annotated(sdist(), Some("extra2"), None)));
    assert!(!extra.same_node(&annotated(sdist(), None, Some("extra1"))));
    assert_eq!(plain.version.as_str(), extra.version.as_str());
    assert!(plain.is_base() && !extra.is_base());
}

#[test]
fn versions_that_compare_equal_are_one_identity() {
    let short = annotated(sdist(), None, None);
    let mut long = annotated(sdist(), None, None);
    long.version = v("1.0.0");
    assert_ne!(short.version.as_str(), long.version.as_str());
    assert!(short.same_node(&long) && long.same_node(&short));
    long.version = v("1.0.1");
    assert!(!short.same_node(&long));
}

#[test]
fn a_copy_of_a_node_is_the_same_node_with_the_same_distribution() {
    let node = annotated(wheels(), Some("extra1"), None);
    for copy in [node.duplicate(), node.clone()] {
        assert!(copy.same_node(&node));
        assert_eq!(copy.to_text(), node.to_text());
        assert_eq!(copy.index().unwrap().as_str(), "https://second.example");
        assert_eq!(copy.extra.as_ref().unwrap().as_str(), "extra1");
        assert!(copy.metadata.is_none());
    }
    for dist in all_without_index() {
        let copy = dist.clone();
        assert_eq!(copy.to_text(), dist.to_text());
        assert!(copy.index().is_none());
    }
}
