use resolution::annotated::AnnotatedDist;
use resolution::dist::{Dist, IndexUrl, RegistrySourceDist, ResolvedDist, SourceDist};
use resolution::graph::{build, Cycles, Link, ResolutionGraph, ResolutionGraphNode};
use resolution::metadata::Tag;
use resolution::names::{ExtraName, PackageName};
use resolution::reach::search;
use resolution::version::Version;

fn node(name: &str, version: &str, extra: Option<&str>) -> AnnotatedDist {
    let name = PackageName::new(name).unwrap();
    let version = Version::parse(version).unwrap();
    AnnotatedDist {
        dist: ResolvedDist::Installable(Dist::Source(SourceDist::Registry(RegistrySourceDist {
            name: name.duplicate(),
            version: version.duplicate(),
            index: IndexUrl::new("https://pypi.example/simple"),
        }))),
        name,
        version,
        extra: extra.map(|e| ExtraName::new(e).unwrap()),
        dev: None,
        hashes: Vec::new(),
        metadata: None,
    }
}

fn link(from: Option<usize>, to: usize) -> Link {
    Link { from, to, tag: Tag::Plain, build: false }
}

fn build_link(from: usize, to: usize) -> Link {
    Link { from: Some(from), to, tag: Tag::Plain, build: true }
}

fn names(graph: &ResolutionGraph) -> Vec<String> {
    (0..graph.node_count()).map(|i| graph.node(i).name.as_str().to_string()).collect()
}

fn edges(graph: &ResolutionGraph) -> Vec<(Option<usize>, usize)> {
    (0..graph.edge_count()).map(|e| (graph.edge(e).from, graph.edge(e).to)).collect()
}

#[test]
fn search_finds_what_walks_lead_to() {
    let links = vec![(0, 1), (1, 2), (3, 4), (2, 0), (9, 1), (1, 9)];
    let found = search(5, &links, &vec![0, 7]);
    assert!(found.is_found(0) && found.is_found(1) && found.is_found(2));
    assert!(!found.is_found(3) && !found.is_found(4));
    assert!(!found.is_found(7) && !found.is_found(9));
    assert_eq!(found.walk_to(2), vec![0, 1, 2]);
    assert_eq!(found.walk_to(0), vec![0]);
    let none = search(3, &links, &Vec::new());
    assert!(!none.is_found(0));
}

#[test]
fn search_reports_a_shortest_first_found_walk() {
    let links = vec![(0, 1), (0, 2), (1, 3), (2, 3)];
    let found = search(4, &links, &vec![0]);
    assert_eq!(found.walk_to(3), vec![0, 1, 3]);
}

#[test]
fn nodes_that_the_root_does_not_lead_to_are_pruned() {
    let dists = vec![node("a", "1.0", None), node("b", "1.0", None), node("c", "1.0", None), node("d", "1.0", None)];
    let links = vec![link(None, 0), link(Some(0), 2), link(Some(1), 3), link(Some(3), 0)];
    let graph = build(dists, links, Cycles::AllowRuntime).unwrap();
    assert_eq!(names(&graph), vec!["a", "c"]);
    assert_eq!(edges(&graph), vec![(None, 0), (Some(0), 1)]);
    assert_eq!(graph.edges_from(None), vec![0]);
    assert_eq!(graph.edges_from(Some(0)), vec![1]);
    assert!(graph.edges_from(Some(1)).is_empty());
}

#[test]
fn nodes_of_one_identity_become_one_node() {
    let dists = vec![node("a", "1.0", None), node("b", "2.0", None), node("A", "1.0", None), node("b", "2.0", None)];
    let links = vec![link(None, 2), link(Some(2), 3), link(Some(1), 0)];
    let graph = build(dists, links, Cycles::AllowRuntime).unwrap();
    assert_eq!(names(&graph), vec!["a", "b"]);
    assert_eq!(edges(&graph), vec![(None, 0), (Some(0), 1), (Some(1), 0)]);
}

#[test]
fn plain_and_extra_stay_two_nodes() {
    let dists = vec![node("a", "1.0", None), node("a", "1.0", Some("extra1"))];
    let links = vec![link(None, 0), link(None, 1)];
    let graph = build(dists, links, Cycles::AllowRuntime).unwrap();
    assert_eq!(graph.node_count(), 2);
    assert!(graph.node(0).is_base());
    assert!(!graph.node(1).is_base());
    assert_eq!(graph.node(0).version.as_str(), graph.node(1).version.as_str());
}

#[test]
fn pins_and_links_to_nowhere_count_for_nothing() {
    let dists = vec![node("a", "1.0", Some("extra1")), node("a", "1.0", None), node("c", "1.0", None)];
    let links = vec![
        link(None, 0),
        Link { from: Some(0), to: 1, tag: Tag::Pin, build: false },
        Link { from: Some(0), to: 2, tag: Tag::Extra(ExtraName::new("extra1").unwrap()), build: false },
        link(Some(0), 17),
        link(Some(17), 1),
    ];
    let graph = build(dists, links, Cycles::AllowRuntime).unwrap();
    assert_eq!(names(&graph), vec!["a", "c"]);
    assert!(!graph.node(0).is_base());
    assert_eq!(edges(&graph), vec![(None, 0), (Some(0), 1)]);
    assert!(matches!(&graph.edge(1).tag, Tag::Extra(e) if e.as_str() == "extra1"));
}

#[test]
fn a_cycle_of_runtime_requirements_is_no_error() {
    let dists = vec![node("a", "1.0", None), node("b", "1.0", None)];
    let links = vec![link(None, 0), link(Some(0), 1), link(Some(1), 0)];
    let graph = build(dists, links, Cycles::AllowRuntime).unwrap();
    assert_eq!(graph.node_count(), 2);
    assert_eq!(graph.edge_count(), 3);
}

#[test]
fn a_build_requirement_on_a_cycle_is_an_error() {
    let dists = vec![node("a", "1.0", None), node("b", "1.0", None), node("c", "1.0", None)];
    let links = vec![link(None, 0), link(Some(0), 1), link(Some(1), 2), build_link(2, 0)];
    let error = build(dists, links, Cycles::AllowRuntime).unwrap_err();
    assert_eq!(error.link, 3);
    assert_eq!(error.places, vec![0, 1, 2]);
    assert_eq!(error.packages, vec!["a", "b", "c"]);
}

#[test]
fn a_package_that_needs_itself_to_build_is_an_error() {
    let dists = vec![node("a", "1.0", None)];
    let error = build(dists, vec![link(None, 0), build_link(0, 0)], Cycles::AllowRuntime).unwrap_err();
    assert_eq!(error.places, vec![0]);
}

#[test]
fn a_build_requirement_off_every_cycle_is_fine() {
    let dists = vec![node("a", "1.0", None), node("b", "1.0", None), node("c", "1.0", None)];
    let links = vec![link(None, 0), build_link(0, 1), link(Some(1), 2), link(Some(0), 2)];
    let graph = build(dists, links, Cycles::AllowRuntime).unwrap();
    assert_eq!(graph.node_count(), 3);
    assert!(graph.edge(1).build);
}

#[test]
fn a_build_cycle_that_the_root_does_not_lead_to_is_pruned_not_reported() {
    let dists = vec![node("a", "1.0", None), node("b", "1.0", None), node("c", "1.0", None)];
    let links = vec![link(None, 0), link(Some(1), 2), build_link(2, 1)];
    let graph = build(dists, links, Cycles::AllowRuntime).unwrap();
    assert_eq!(names(&graph), vec!["a"]);
}

#[test]
fn the_empty_graph_is_built_from_nothing() {
    let graph = build(Vec::new(), Vec::new(), Cycles::AllowRuntime).unwrap();
    assert_eq!(graph.node_count(), 0);
    assert_eq!(graph.edge_count(), 0);
}

#[test]
fn every_cycle_is_an_error_where_cycles_are_forbidden() {
    let dists = || vec![node("a", "1.0", None), node("b", "1.0", None)];
    let links = || vec![link(None, 0), link(Some(0), 1), link(Some(1), 0)];
    assert!(build(dists(), links(), Cycles::AllowRuntime).is_ok());
    let error = build(dists(), links(), Cycles::Forbid).unwrap_err();
    assert_eq!(error.link, 1);
    assert_eq!(error.places, vec![1, 0]);
    assert_eq!(error.packages, vec!["b", "a"]);
    let straight = vec![link(None, 0), link(Some(0), 1)];
    assert!(build(dists(), straight, Cycles::Forbid).is_ok());
}

#[test]
fn the_graph_is_walked_from_the_root_down() {
    let dists = vec![node("a", "1.0", None), node("b", "1.0", None), node("c", "1.0", None)];
    let links = vec![link(None, 0), link(None, 1), link(Some(0), 2), link(Some(1), 2), link(Some(0), 1)];
    let graph = build(dists, links, Cycles::AllowRuntime).unwrap();
    assert_eq!(graph.children_of(None), vec![0, 1]);
    assert_eq!(graph.children_of(Some(0)), vec![2, 1]);
    assert_eq!(graph.children_of(Some(1)), vec![2]);
    assert!(graph.children_of(Some(2)).is_empty());
    assert!(graph.children_of(Some(9)).is_empty());
    assert!(matches!(graph.at(None), Some(ResolutionGraphNode::Root)));
    assert!(matches!(graph.at(Some(2)), Some(ResolutionGraphNode::Dist(d)) if d.name.as_str() == "c"));
    assert!(graph.at(Some(3)).is_none());
}

#[test]
fn packages_at_versions_that_compare_equal_become_one_node() {
    let dists = vec![node("a", "1.0", None), node("a", "1.0.0", None), node("a", "1.1", None)];
    let links = vec![link(None, 0), link(None, 1), link(None, 2)];
    let graph = build(dists, links, Cycles::AllowRuntime).unwrap();
    assert_eq!(graph.node_count(), 2);
    assert_eq!(graph.node(0).version.as_str(), "1.0");
    assert_eq!(graph.node(1).version.as_str(), "1.1");
    assert_eq!(edges(&graph), vec![(None, 0), (None, 0), (None, 1)]);
}

#[test]
fn children_come_in_the_order_of_the_edges() {
    let dists = vec![node("a", "1.0", None), node("b", "1.0", None), node("c", "1.0", None)];
    let links = vec![link(None, 2), link(Some(2), 1), link(None, 0), link(Some(2), 0), link(Some(2), 1)];
    let graph = build(dists, links, Cycles::AllowRuntime).unwrap();
    assert_eq!(graph.edges_from(None), vec![0, 2]);
    assert_eq!(graph.children_of(None), vec![2, 0]);
    assert_eq!(graph.edges_from(Some(2)), vec![1, 3, 4]);
    assert_eq!(graph.children_of(Some(2)), vec![1, 0, 1]);
}
