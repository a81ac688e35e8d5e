use resolution::annotated::AnnotatedDist;
use resolution::dist::{Dist, IndexUrl, RegistrySourceDist, ResolvedDist, SourceDist};
use resolution::graph::{build, Cycles, ResolutionGraph};
use resolution::incompatibility::Cause;
use resolution::metadata::{expand, Declared, Metadata, Tag};
use resolution::names::{ExtraName, GroupName, PackageName};
use resolution::packages::PackageKey;
use resolution::resolver::{node_of, Report, Resolver};
use resolution::selector::{Selected, SelectionError};
use resolution::solver::{Action, Phase};
use resolution::version::Version;
use resolution::version_set::VersionSet;

fn v(text: &str) -> Version {
    Version::parse(text).unwrap()
}

fn needs(name: &str, extras: &[&str], versions: VersionSet) -> Declared {
    Declared {
        name: PackageName::new(name).unwrap(),
        extras: extras.iter().map(|e| ExtraName::new(e).unwrap()).collect(),
        groups: Vec::new(),
        versions,
        active: true,
    }
}

fn at_least(text: &str) -> VersionSet {
    VersionSet::higher_than(&v(text))
}

/// What the provider has of one version.
struct Release {
    version: &'static str,
    requirements: Vec<(&'static str, Vec<&'static str>, &'static str)>,
    extras: Vec<(&'static str, Vec<(&'static str, &'static str)>)>,
}

fn plain(version: &'static str, requirements: Vec<(&'static str, &'static str)>) -> Release {
    Release {
        version,
        requirements: requirements.into_iter().map(|(n, low)| (n, Vec::new(), low)).collect(),
        extras: Vec::new(),
    }
}

struct Shelf {
    packages: Vec<(&'static str, Vec<Release>)>,
}

impl Shelf {
    fn releases(&self, name: &str) -> &Vec<Release> {
        &self.packages.iter().find(|(n, _)| *n == name).unwrap().1
    }

    fn metadata(&self, name: &str, version: &str) -> Option<Metadata> {
        let release = self.releases(name).iter().find(|r| r.version == version)?;
        Some(Metadata {
            requirements: release.requirements.iter().map(|(n, extras, low)| needs(n, extras, at_least(low))).collect(),
            extras: release
                .extras
                .iter()
                .map(|(e, list)| {
                    (ExtraName::new(e).unwrap(), list.iter().map(|(n, low)| needs(n, &[], at_least(low))).collect())
                })
                .collect(),
            groups: Vec::new(),
        })
    }
}

fn run(resolver: &mut Resolver, shelf: &Shelf) -> Phase {
    for _ in 0..100_000 {
        match resolver.step() {
            Action::Continue | Action::Decided { .. } => {}
            Action::NeedCandidates { package } => {
                let name = resolver.key(package).name.as_str().to_string();
                let list = shelf.releases(&name).iter().map(|r| v(r.version)).collect();
                assert!(resolver.provide_candidates(package, list));
            }
            Action::NeedMetadata { package, candidate } => {
                let name = resolver.key(package).name.as_str().to_string();
                let version = resolver.solver().known().candidate(package, candidate).as_str().to_string();
                assert!(resolver.provide_metadata(package, candidate, shelf.metadata(&name, &version)));
            }
            Action::Done => return Phase::Satisfied,
            Action::Failed => return Phase::Unsatisfiable,
        }
    }
    panic!("the resolver did not come to an end");
}

fn graph_of(resolver: &Resolver) -> ResolutionGraph {
    let plan = resolver.plan();
    let dists: Vec<AnnotatedDist> = plan
        .choices
        .into_iter()
        .map(|choice| {
            let dist = ResolvedDist::Installable(Dist::Source(SourceDist::Registry(RegistrySourceDist {
                name: choice.key.name.duplicate(),
                version: choice.version.duplicate(),
                index: IndexUrl::new("https://pypi.example/simple"),
            })));
            node_of(choice, Selected { dist, hashes: Vec::new(), place: None })
        })
        .collect();
    build(dists, plan.links, Cycles::AllowRuntime).unwrap()
}

fn describe(graph: &ResolutionGraph) -> String {
    let mut text = String::new();
    for i in 0..graph.node_count() {
        let node = graph.node(i);
        let extra = node.extra.as_ref().map(|e| e.as_str().to_string()).unwrap_or_default();
        text.push_str(&format!("{i}:{}[{extra}]=={};", node.name.as_str(), node.version.as_str()));
    }
    for e in 0..graph.edge_count() {
        let edge = graph.edge(e);
        let tag = match &edge.tag {
            Tag::Plain => "".to_string(),
            Tag::Extra(x) => format!("extra:{}", x.as_str()),
            Tag::Group(g) => format!("group:{}", g.as_str()),
            Tag::Pin => "pin".to_string(),
        };
        text.push_str(&format!("{:?}->{}({tag});", edge.from, edge.to));
    }
    text
}

fn shelf_with_extra() -> Shelf {
    Shelf {
        packages: vec![
            (
                "a",
                vec![Release { version: "1.0", requirements: Vec::new(), extras: vec![("extra1", vec![("c", "1.0")])] }],
            ),
            ("c", vec![plain("0.9", vec![]), plain("1.2", vec![])]),
        ],
    }
}

#[test]
fn highest_compatible_version_is_resolved() {
    let shelf = Shelf { packages: vec![("a", vec![plain("1.0", vec![]), plain("1.5", vec![]), plain("2.0", vec![])])] };
    let roots = vec![needs("a", &[], VersionSet::between(&v("1.0"), &v("2.0")))];
    let mut resolver = Resolver::new(&roots, false);
    assert_eq!(run(&mut resolver, &shelf), Phase::Satisfied);
    let plan = resolver.plan();
    assert_eq!(plan.choices.len(), 1);
    assert_eq!(plan.choices[0].version.as_str(), "1.5");
    assert_eq!(describe(&graph_of(&resolver)), "0:a[]==1.5;None->0();");
}

#[test]
fn contradicting_requirements_are_unsatisfiable_with_their_causes() {
    // A == 1.0 and B == 1.0 are required; A 1.0 requires B >= 2.0.
    let shelf = Shelf {
        packages: vec![
            ("a", vec![plain("1.0", vec![("b", "2.0")])]),
            ("b", vec![plain("1.0", vec![]), plain("2.0", vec![])]),
        ],
    };
    let roots = vec![
        needs("a", &[], VersionSet::singleton(&v("1.0"))),
        needs("b", &[], VersionSet::singleton(&v("1.0"))),
    ];
    let mut resolver = Resolver::new(&roots, false);
    assert_eq!(run(&mut resolver, &shelf), Phase::Unsatisfiable);
    let solver = resolver.solver();
    let trail = solver.explain();
    let causes: Vec<Cause> = trail.iter().map(|i| solver.incompatibility(*i).cause()).collect();
    assert!(causes.contains(&Cause::Root { requirement: 0 }));
    assert!(causes.contains(&Cause::Root { requirement: 1 }));
    assert!(causes.contains(&Cause::Dependency { package: 0, candidate: 0, requirement: 0 }));
    assert!(solver.incompatibility(*trail.last().unwrap()).is_empty());
    assert!(trail.windows(2).all(|pair| pair[0] < pair[1]));
}

#[test]
fn an_extra_brings_its_requirements_and_no_plain_node() {
    let mut resolver = Resolver::new(&vec![needs("a", &["extra1"], VersionSet::full())], false);
    assert_eq!(run(&mut resolver, &shelf_with_extra()), Phase::Satisfied);
    let graph = graph_of(&resolver);
    assert_eq!(describe(&graph), "0:a[extra1]==1.0;1:c[]==1.2;None->0();Some(0)->1(extra:extra1);");
    assert!(!graph.node(0).is_base());
    assert!(graph.node(1).is_base());
}

#[test]
fn plain_and_extra_requested_together_are_two_nodes() {
    let roots = vec![needs("a", &[], VersionSet::full()), needs("a", &["extra1"], VersionSet::full())];
    let mut resolver = Resolver::new(&roots, false);
    assert_eq!(run(&mut resolver, &shelf_with_extra()), Phase::Satisfied);
    let graph = graph_of(&resolver);
    assert_eq!(
        describe(&graph),
        "0:a[]==1.0;1:a[extra1]==1.0;2:c[]==1.2;None->0();None->1();Some(1)->2(extra:extra1);"
    );
    assert!(graph.node(0).is_base() && !graph.node(1).is_base());
    assert!(!graph.node(0).same_node(graph.node(1)));
    assert_eq!(graph.node(0).version.as_str(), graph.node(1).version.as_str());
}

#[test]
fn resolving_twice_gives_the_same_graph() {
    let shelf = Shelf {
        packages: vec![
            ("a", vec![plain("1.0", vec![("b", "1.0")]), plain("2.0", vec![("b", "3.0")]), plain("3.0", vec![("b", "9.0")])]),
            ("b", vec![plain("1.0", vec![]), plain("3.5", vec![("c", "1.0")])]),
            ("c", vec![plain("1.0", vec![]), plain("2.0", vec![("a", "2.0")])]),
        ],
    };
    let roots = vec![needs("a", &[], VersionSet::full()), needs("c", &[], VersionSet::full())];
    let mut first = Resolver::new(&roots, false);
    let mut second = Resolver::new(&roots, false);
    assert_eq!(run(&mut first, &shelf), Phase::Satisfied);
    assert_eq!(run(&mut second, &shelf), Phase::Satisfied);
    let text = describe(&graph_of(&first));
    assert_eq!(text, describe(&graph_of(&second)));
    assert_eq!(text, "0:a[]==2.0;1:c[]==2.0;2:b[]==3.5;None->0();None->1();Some(0)->2();Some(1)->0();Some(2)->1();");
}

#[test]
fn resolving_what_was_resolved_gives_the_same_nodes_and_edges() {
    let shelf = Shelf {
        packages: vec![
            ("a", vec![plain("1.0", vec![("b", "1.0")]), plain("2.0", vec![("b", "3.0")])]),
            ("b", vec![plain("1.0", vec![]), plain("2.0", vec![])]),
        ],
    };
    let mut first = Resolver::new(&vec![needs("a", &[], VersionSet::full())], false);
    assert_eq!(run(&mut first, &shelf), Phase::Satisfied);
    let solved = graph_of(&first);
    // The versions that were resolved, required exactly.
    let pinned: Vec<Declared> = (0..solved.node_count())
        .map(|i| needs(solved.node(i).name.as_str(), &[], VersionSet::singleton(&solved.node(i).version)))
        .collect();
    let mut again = Resolver::new(&pinned, false);
    assert_eq!(run(&mut again, &shelf), Phase::Satisfied);
    let resolved = graph_of(&again);
    let nodes = |g: &ResolutionGraph| -> Vec<String> {
        let mut all: Vec<String> =
            (0..g.node_count()).map(|i| format!("{}=={}", g.node(i).name.as_str(), g.node(i).version.as_str())).collect();
        all.sort();
        all
    };
    let edges = |g: &ResolutionGraph| -> Vec<String> {
        let mut all: Vec<String> = (0..g.edge_count())
            .filter(|e| g.edge(*e).from.is_some())
            .map(|e| {
                let edge = g.edge(e);
                format!("{}->{}", g.node(edge.from.unwrap()).name.as_str(), g.node(edge.to).name.as_str())
            })
            .collect();
        all.sort();
        all
    };
    assert_eq!(nodes(&solved), vec!["a==1.0", "b==2.0"]);
    assert_eq!(nodes(&solved), nodes(&resolved));
    assert_eq!(edges(&solved), edges(&resolved));
}

#[test]
fn every_edge_leads_to_a_version_that_meets_its_requirement() {
    let shelf = Shelf {
        packages: vec![
            ("a", vec![plain("1.0", vec![("b", "1.0")]), plain("2.0", vec![("b", "2.0"), ("c", "1.0")])]),
            ("b", vec![plain("1.0", vec![]), plain("2.5", vec![("c", "2.0")])]),
            ("c", vec![plain("1.0", vec![]), plain("2.0", vec![])]),
        ],
    };
    let mut resolver = Resolver::new(&vec![needs("a", &[], at_least("1.5"))], false);
    assert_eq!(run(&mut resolver, &shelf), Phase::Satisfied);
    let graph = graph_of(&resolver);
    assert_eq!(describe(&graph), "0:a[]==2.0;1:b[]==2.5;2:c[]==2.0;None->0();Some(0)->1();Some(0)->2();Some(1)->2();");
    for e in 0..graph.edge_count() {
        let edge = graph.edge(e);
        if let Some(from) = edge.from {
            let source = graph.node(from);
            let target = graph.node(edge.to);
            let metadata = shelf.metadata(source.name.as_str(), source.version.as_str()).unwrap();
            let met = metadata
                .requirements
                .iter()
                .filter(|r| r.name.same(&target.name))
                .all(|r| r.versions.contains(&target.version));
            assert!(met);
        }
    }
}

#[test]
fn metadata_that_requires_its_own_package_makes_the_version_unavailable() {
    let shelf = Shelf {
        packages: vec![("a", vec![plain("1.0", vec![]), plain("2.0", vec![("a", "1.0")])])],
    };
    let mut resolver = Resolver::new(&vec![needs("a", &[], VersionSet::full())], false);
    assert_eq!(run(&mut resolver, &shelf), Phase::Satisfied);
    assert_eq!(resolver.plan().choices[0].version.as_str(), "1.0");
}

#[test]
fn inactive_requirements_are_left_out() {
    let mut inactive = needs("b", &[], VersionSet::full());
    inactive.active = false;
    let metadata = Metadata { requirements: vec![inactive, needs("c", &["x", "y"], at_least("1.0"))], extras: Vec::new(), groups: Vec::new() };
    let key = PackageKey::plain(PackageName::new("a").unwrap());
    let wants = expand(&key, &v("1.0"), &metadata);
    let keys: Vec<String> = wants
        .iter()
        .map(|w| format!("{}[{}]", w.key.name.as_str(), w.key.extra.as_ref().map(|e| e.as_str()).unwrap_or("")))
        .collect();
    assert_eq!(keys, vec!["c[x]", "c[y]"]);
    assert!(wants.iter().all(|w| matches!(w.tag, Tag::Plain)));
}

#[test]
fn a_package_taken_with_an_extra_or_a_group_is_pinned_to_itself() {
    let metadata = Metadata {
        requirements: vec![needs("b", &[], VersionSet::full())],
        extras: vec![(ExtraName::new("x").unwrap(), vec![needs("c", &[], VersionSet::full())])],
        groups: vec![(GroupName::new("dev").unwrap(), vec![needs("d", &[], VersionSet::full())])],
    };
    let name = || PackageName::new("a").unwrap();
    let show = |key: &PackageKey| -> Vec<String> {
        expand(key, &v("1.0"), &metadata)
            .iter()
            .map(|w| {
                let tag = match &w.tag {
                    Tag::Plain => "plain".to_string(),
                    Tag::Extra(e) => format!("extra {}", e.as_str()),
                    Tag::Group(g) => format!("group {}", g.as_str()),
                    Tag::Pin => "pin".to_string(),
                };
                format!("{} {tag} {}", w.key.name.as_str(), w.versions.contains(&v("2.0")))
            })
            .collect()
    };
    assert_eq!(show(&PackageKey::plain(name())), vec!["b plain true"]);
    assert_eq!(
        show(&PackageKey::with_extra(name(), ExtraName::new("x").unwrap())),
        vec!["a pin false", "b plain true", "c extra x true"]
    );
    assert_eq!(
        show(&PackageKey::with_group(name(), GroupName::new("dev").unwrap())),
        vec!["a pin false", "b plain true", "d group dev true"]
    );
    assert_eq!(
        show(&PackageKey::with_extra(name(), ExtraName::new("unknown").unwrap())),
        vec!["a pin false", "b plain true"]
    );
}

fn run_with(resolver: &mut Resolver, versions: &[&str], metadata: &dyn Fn(&str) -> Metadata) -> Phase {
    for _ in 0..100_000 {
        match resolver.step() {
            Action::Continue | Action::Decided { .. } => {}
            Action::NeedCandidates { package } => {
                assert!(resolver.provide_candidates(package, versions.iter().map(|t| v(t)).collect()));
            }
            Action::NeedMetadata { package, candidate } => {
                let name = resolver.key(package).name.as_str().to_string();
                assert!(resolver.provide_metadata(package, candidate, Some(metadata(&name))));
            }
            Action::Done => return Phase::Satisfied,
            Action::Failed => return Phase::Unsatisfiable,
        }
    }
    panic!("the resolver did not come to an end");
}

#[test]
fn a_group_asked_for_at_the_roots_brings_in_what_it_declares() {
    let root = Declared {
        name: PackageName::new("a").unwrap(),
        extras: Vec::new(),
        groups: vec![GroupName::new("Dev").unwrap()],
        versions: VersionSet::full(),
        active: true,
    };
    let metadata = |name: &str| -> Metadata {
        if name == "a" {
            Metadata {
                requirements: Vec::new(),
                extras: vec![(ExtraName::new("dev").unwrap(), vec![needs("e", &[], VersionSet::full())])],
                groups: vec![(GroupName::new("dev").unwrap(), vec![needs("d", &[], at_least("1.0"))])],
            }
        } else {
            Metadata { requirements: Vec::new(), extras: Vec::new(), groups: Vec::new() }
        }
    };
    let mut resolver = Resolver::new(&vec![root], false);
    assert_eq!(resolver.package_count(), 1);
    assert_eq!(resolver.key(0).label(), "a:dev");
    assert_eq!(run_with(&mut resolver, &["1.0", "2.0"], &metadata), Phase::Satisfied);
    let graph = graph_of(&resolver);
    assert_eq!(graph.node_count(), 2);
    assert_eq!(graph.node(0).name.as_str(), "a");
    assert_eq!(graph.node(0).dev.as_ref().unwrap().as_str(), "dev");
    assert!(graph.node(0).extra.is_none() && !graph.node(0).is_base());
    assert_eq!(graph.node(1).name.as_str(), "d");
    assert!(graph.node(1).is_base());
    assert_eq!(describe(&graph), "0:a[]==2.0;1:d[]==2.0;None->0();Some(0)->1(group:dev);");
}

#[test]
fn extras_and_groups_of_one_requirement_are_each_a_package() {
    let mut both = needs("a", &["x", "y"], VersionSet::full());
    both.groups = vec![GroupName::new("dev").unwrap()];
    let resolver = Resolver::new(&vec![both, needs("a", &[], VersionSet::full())], false);
    let labels: Vec<String> = (0..resolver.package_count()).map(|p| resolver.key(p).label()).collect();
    assert_eq!(labels, vec!["a[x]", "a[y]", "a:dev", "a"]);
}

#[test]
fn nodes_carry_the_metadata_that_was_fetched() {
    let roots = vec![needs("a", &[], VersionSet::full()), needs("a", &["extra1"], VersionSet::full())];
    let mut resolver = Resolver::new(&roots, false);
    assert_eq!(run(&mut resolver, &shelf_with_extra()), Phase::Satisfied);
    let plan = resolver.plan();
    assert!(plan.choices.iter().all(|choice| choice.metadata.is_some()));
    assert!(plan.choices.iter().all(|choice| resolver.solver().decision(choice.package) == Some(choice.candidate)));
    let graph = graph_of(&resolver);
    let shape = |m: &Metadata| -> Vec<(String, Vec<String>)> {
        m.extras.iter().map(|(e, list)| (e.as_str().to_string(), list.iter().map(|d| d.name.as_str().to_string()).collect())).collect()
    };
    let plain = graph.node(0).metadata.as_ref().unwrap();
    let extra = graph.node(1).metadata.as_ref().unwrap();
    assert_eq!(shape(plain), vec![("extra1".to_string(), vec!["c".to_string()])]);
    assert_eq!(shape(plain), shape(extra));
    assert_eq!(plain.requirements.len(), extra.requirements.len());
    assert!(graph.node(2).metadata.as_ref().unwrap().extras.is_empty());
    let copy = plain.clone();
    assert_eq!(shape(&copy), shape(plain));
}

#[test]
fn a_selection_failure_takes_the_version_out_and_is_what_is_reported() {
    let shelf = Shelf { packages: vec![("a", vec![plain("1.0", vec![]), plain("2.0", vec![])])] };
    let mut resolver = Resolver::new(&vec![needs("a", &[], VersionSet::full())], false);
    assert_eq!(resolver.report(), Report::NoSolution);
    // Nothing is decided yet: the failure ends the run.
    assert!(!resolver.selection_failed(0, SelectionError::HashMismatch));
    assert!(!resolver.selection_failed(7, SelectionError::HashMismatch));
    assert_eq!(run(&mut resolver, &shelf), Phase::Satisfied);
    assert_eq!(resolver.plan().choices[0].version.as_str(), "2.0");
    assert!(resolver.selection_failed(0, SelectionError::HashMismatch));
    assert_eq!(resolver.solver().current_phase(), Phase::Propagating);
    assert_eq!(resolver.solver().decision(0), None);
    assert_eq!(run(&mut resolver, &shelf), Phase::Satisfied);
    assert_eq!(resolver.plan().choices[0].version.as_str(), "1.0");
    assert!(resolver.selection_failed(0, SelectionError::NoDistributionFound));
    assert_eq!(run(&mut resolver, &shelf), Phase::Unsatisfiable);
    assert_eq!(resolver.report(), Report::Selection(SelectionError::NoDistributionFound));
    assert!(!resolver.selection_failed(0, SelectionError::HashMismatch));
    assert_eq!(resolver.report(), Report::Selection(SelectionError::NoDistributionFound));
}

#[test]
fn requirements_without_a_solution_are_reported_as_such() {
    let shelf = Shelf { packages: vec![("a", vec![plain("1.0", vec![])])] };
    let mut resolver = Resolver::new(&vec![needs("a", &[], at_least("2.0"))], false);
    assert_eq!(run(&mut resolver, &shelf), Phase::Unsatisfiable);
    assert_eq!(resolver.report(), Report::NoSolution);
}
