use resolution::incompatibility::Cause;
use resolution::knowledge::Requirement;
use resolution::solver::{Action, Phase, Solver};
use resolution::version::Version;
use resolution::version_set::VersionSet;

fn v(text: &str) -> Version {
    Version::parse(text).unwrap()
}

fn at_least(text: &str) -> VersionSet {
    VersionSet::higher_than(&v(text))
}

fn exactly(text: &str) -> VersionSet {
    VersionSet::singleton(&v(text))
}

/// A provider that holds everything in memory: for each package its
/// versions, and for each version what it requires (`None`: no metadata).
struct Shelf {
    versions: Vec<Vec<&'static str>>,
    declared: Vec<Vec<Option<Vec<(usize, VersionSet)>>>>,
}

impl Shelf {
    fn metadata(&self, package: usize, version: &str) -> Option<Vec<Requirement>> {
        let at = self.versions[package].iter().position(|t| *t == version).unwrap();
        self.declared[package][at]
            .as_ref()
            .map(|list| list.iter().map(|(p, set)| Requirement::new(*p, set.duplicate())).collect())
    }
}

fn run(solver: &mut Solver, shelf: &Shelf) -> Phase {
    for _ in 0..100_000 {
        match solver.step() {
            Action::Continue | Action::Decided { .. } => {}
            Action::NeedCandidates { package } => {
                let list = shelf.versions[package].iter().map(|t| v(t)).collect();
                assert!(solver.provide_candidates(package, list));
            }
            Action::NeedMetadata { package, candidate } => {
                let text = solver.known().candidate(package, candidate).as_str().to_string();
                let declared = shelf.metadata(package, &text);
                assert!(solver.provide_metadata(package, candidate, declared));
            }
            Action::Done => return Phase::Satisfied,
            Action::Failed => return Phase::Unsatisfiable,
        }
    }
    panic!("the solver did not come to an end");
}

fn chosen(solver: &Solver, package: usize) -> Option<String> {
    solver.decided_version(package).map(|version| version.as_str().to_string())
}

#[test]
fn highest_compatible_version_is_chosen() {
    let shelf = Shelf {
        versions: vec![vec!["1.0", "1.5", "2.0"]],
        declared: vec![vec![Some(vec![]), Some(vec![]), Some(vec![])]],
    };
    let set = VersionSet::between(&v("1.0"), &v("2.0"));
    let mut solver = Solver::new(1, vec![Requirement::new(0, set)], false).unwrap();
    assert_eq!(run(&mut solver, &shelf), Phase::Satisfied);
    assert_eq!(chosen(&solver, 0), Some("1.5".to_string()));
}

#[test]
fn conflicting_pins_are_unsatisfiable() {
    // A == 1.0 and B == 1.0 are required; A 1.0 requires B >= 2.0.
    let shelf = Shelf {
        versions: vec![vec!["1.0"], vec!["1.0", "2.0"]],
        declared: vec![vec![Some(vec![(1, at_least("2.0"))])], vec![Some(vec![]), Some(vec![])]],
    };
    let roots = vec![Requirement::new(0, exactly("1.0")), Requirement::new(1, exactly("1.0"))];
    let mut solver = Solver::new(2, roots, false).unwrap();
    assert_eq!(run(&mut solver, &shelf), Phase::Unsatisfiable);
    let mut causes = Vec::new();
    for i in 0..solver.incompatibility_count() {
        causes.push(solver.incompatibility(i).cause());
    }
    assert!(causes.contains(&Cause::Root { requirement: 0 }));
    assert!(causes.contains(&Cause::Root { requirement: 1 }));
    assert!(causes.contains(&Cause::Dependency { package: 0, candidate: 0, requirement: 0 }));
}

#[test]
fn solver_backs_off_a_version_whose_requirement_cannot_be_met() {
    // A 2.0 requires B >= 3.0, which does not exist; A 1.0 requires B >= 1.0.
    let shelf = Shelf {
        versions: vec![vec!["1.0", "2.0"], vec!["1.0", "2.0"]],
        declared: vec![
            vec![Some(vec![(1, at_least("1.0"))]), Some(vec![(1, at_least("3.0"))])],
            vec![Some(vec![]), Some(vec![])],
        ],
    };
    let mut solver = Solver::new(2, vec![Requirement::new(0, VersionSet::full())], false).unwrap();
    assert_eq!(run(&mut solver, &shelf), Phase::Satisfied);
    assert_eq!(chosen(&solver, 0), Some("1.0".to_string()));
    assert_eq!(chosen(&solver, 1), Some("2.0".to_string()));
}

#[test]
fn version_without_metadata_is_passed_over() {
    let shelf = Shelf {
        versions: vec![vec!["1.0", "2.0"]],
        declared: vec![vec![Some(vec![]), None]],
    };
    let mut solver = Solver::new(1, vec![Requirement::new(0, VersionSet::full())], false).unwrap();
    assert_eq!(run(&mut solver, &shelf), Phase::Satisfied);
    assert_eq!(chosen(&solver, 0), Some("1.0".to_string()));
}

#[test]
fn no_usable_version_at_all_is_unsatisfiable() {
    let shelf = Shelf { versions: vec![vec!["1.0", "2.0"]], declared: vec![vec![None, None]] };
    let mut solver = Solver::new(1, vec![Requirement::new(0, VersionSet::full())], false).unwrap();
    assert_eq!(run(&mut solver, &shelf), Phase::Unsatisfiable);
}

#[test]
fn root_outside_the_table_is_refused() {
    assert!(Solver::new(1, vec![Requirement::new(1, VersionSet::full())], false).is_none());
}

#[test]
fn prereleases_are_candidates_only_on_request() {
    let shelf = Shelf {
        versions: vec![vec!["1.0", "2.0a1", "2.0rc1"]],
        declared: vec![vec![Some(vec![]), Some(vec![]), Some(vec![])]],
    };
    let mut stable = Solver::new(1, vec![Requirement::new(0, VersionSet::full())], false).unwrap();
    assert_eq!(run(&mut stable, &shelf), Phase::Satisfied);
    assert_eq!(chosen(&stable, 0), Some("1.0".to_string()));
    assert_eq!(stable.known().candidate_count(0), Some(1));
    let mut any = Solver::new(1, vec![Requirement::new(0, VersionSet::full())], true).unwrap();
    assert_eq!(run(&mut any, &shelf), Phase::Satisfied);
    assert_eq!(chosen(&any, 0), Some("2.0rc1".to_string()));
    let mut only_pre = Solver::new(1, vec![Requirement::new(0, at_least("1.5"))], false).unwrap();
    assert_eq!(run(&mut only_pre, &shelf), Phase::Unsatisfiable);
}

#[test]
fn candidates_are_kept_in_rising_order_and_once() {
    let mut solver = Solver::new(1, vec![Requirement::new(0, VersionSet::full())], false).unwrap();
    assert_eq!(solver.step(), Action::Continue);
    assert_eq!(solver.step(), Action::NeedCandidates { package: 0 });
    assert!(solver.provide_candidates(0, vec![v("2.0"), v("1.0"), v("1.0.0"), v("1.5"), v("2")]));
    assert!(!solver.provide_candidates(0, vec![v("3.0")]));
    assert!(!solver.provide_candidates(7, vec![v("3.0")]));
    let known = solver.known();
    assert_eq!(known.candidate_count(0), Some(3));
    assert!(known.candidate(0, 0).same(&v("1.0")));
    assert_eq!(known.candidate(0, 1).as_str(), "1.5");
    assert!(known.candidate(0, 2).same(&v("2.0")));
}

#[test]
fn the_package_with_the_fewest_candidates_is_decided_first_and_names_break_ties() {
    // Three packages are required; "few" has one candidate, the others two.
    let shelf = Shelf {
        versions: vec![vec!["1.0", "2.0"], vec!["1.0"], vec!["1.0", "2.0"]],
        declared: vec![vec![Some(vec![]), Some(vec![])], vec![Some(vec![])], vec![Some(vec![]), Some(vec![])]],
    };
    let roots = vec![
        Requirement::new(0, VersionSet::full()),
        Requirement::new(1, VersionSet::full()),
        Requirement::new(2, VersionSet::full()),
    ];
    let mut solver = Solver::new(3, roots, false).unwrap();
    assert!(solver.name_package(0, "zebra"));
    assert!(solver.name_package(1, "few"));
    assert!(solver.name_package(2, "apple"));
    assert!(!solver.name_package(3, "nobody"));
    let mut asked = Vec::new();
    loop {
        match solver.step() {
            Action::Continue | Action::Decided { .. } => {}
            Action::NeedCandidates { package } => {
                let list = shelf.versions[package].iter().map(|t| v(t)).collect();
                assert!(solver.provide_candidates(package, list));
            }
            Action::NeedMetadata { package, candidate } => {
                asked.push(package);
                let text = solver.known().candidate(package, candidate).as_str().to_string();
                assert!(solver.provide_metadata(package, candidate, shelf.metadata(package, &text)));
            }
            Action::Done => break,
            Action::Failed => panic!("a solution was expected"),
        }
    }
    assert_eq!(asked, vec![1, 2, 0]);
}

#[test]
fn an_excluded_version_is_passed_over_on_the_next_run() {
    let shelf = Shelf {
        versions: vec![vec!["1.0", "2.0"], vec!["1.0"]],
        declared: vec![vec![Some(vec![(1, at_least("1.0"))]), Some(vec![])], vec![Some(vec![])]],
    };
    let mut solver = Solver::new(2, vec![Requirement::new(0, VersionSet::full())], false).unwrap();
    assert_eq!(run(&mut solver, &shelf), Phase::Satisfied);
    assert_eq!(chosen(&solver, 0), Some("2.0".to_string()));
    assert_eq!(chosen(&solver, 1), None);
    let taken = solver.decision(0).unwrap();
    assert!(solver.exclude(0, taken));
    assert_eq!(solver.current_phase(), Phase::Propagating);
    assert_eq!(chosen(&solver, 0), None);
    assert_eq!(run(&mut solver, &shelf), Phase::Satisfied);
    assert_eq!(chosen(&solver, 0), Some("1.0".to_string()));
    assert_eq!(chosen(&solver, 1), Some("1.0".to_string()));
    let last = solver.decision(0).unwrap();
    assert!(solver.exclude(0, last));
    assert_eq!(run(&mut solver, &shelf), Phase::Unsatisfiable);
    assert!(!solver.exclude(0, 0));
    assert!(!solver.explain().is_empty());
}

#[test]
fn excluding_what_is_not_there_changes_nothing() {
    let mut solver = Solver::new(1, vec![Requirement::new(0, VersionSet::full())], false).unwrap();
    assert!(!solver.exclude(0, 0));
    assert!(!solver.exclude(5, 0));
    assert_eq!(solver.current_phase(), Phase::Propagating);
}

#[test]
fn the_solver_goes_through_its_phases_in_order() {
    // A == 1.0 is required and requires B >= 2.0; B == 1.0 is required.
    let shelf = Shelf {
        versions: vec![vec!["1.0"], vec!["1.0", "2.0"]],
        declared: vec![vec![Some(vec![(1, at_least("2.0"))])], vec![Some(vec![]), Some(vec![])]],
    };
    let roots = vec![Requirement::new(0, exactly("1.0")), Requirement::new(1, exactly("1.0"))];
    let mut solver = Solver::new(2, roots, false).unwrap();
    let mut seen = vec![solver.current_phase()];
    for _ in 0..1000 {
        let before = solver.current_phase();
        match solver.step() {
            Action::NeedCandidates { package } => {
                let list = shelf.versions[package].iter().map(|t| v(t)).collect();
                solver.provide_candidates(package, list);
            }
            Action::NeedMetadata { package, candidate } => {
                let text = solver.known().candidate(package, candidate).as_str().to_string();
                solver.provide_metadata(package, candidate, shelf.metadata(package, &text));
            }
            _ => {}
        }
        let after = solver.current_phase();
        let allowed = match before {
            Phase::Propagating => matches!(after, Phase::Propagating | Phase::ConflictFound { .. } | Phase::Satisfied),
            Phase::ConflictFound { .. } => matches!(after, Phase::Backtracking { .. } | Phase::Unsatisfiable),
            Phase::Backtracking { .. } => after == Phase::Propagating,
            Phase::Satisfied | Phase::Unsatisfiable => after == before,
        };
        assert!(allowed);
        if after != before {
            seen.push(after);
        }
        if after == Phase::Unsatisfiable {
            break;
        }
    }
    assert_eq!(seen.first(), Some(&Phase::Propagating));
    assert_eq!(seen.last(), Some(&Phase::Unsatisfiable));
    assert!(seen.iter().any(|p| matches!(p, Phase::ConflictFound { .. })));
    assert_eq!(solver.step(), Action::Failed);
    assert_eq!(solver.current_phase(), Phase::Unsatisfiable);
}

#[test]
fn a_decision_is_reported_with_its_package_and_candidate() {
    let shelf = Shelf {
        versions: vec![vec!["1.0", "3.0", "2.0"]],
        declared: vec![vec![Some(vec![]), Some(vec![]), Some(vec![])]],
    };
    let mut solver = Solver::new(1, vec![Requirement::new(0, VersionSet::strictly_lower_than(&v("3.0")))], false).unwrap();
    let mut decisions = Vec::new();
    loop {
        match solver.step() {
            Action::Continue => {}
            Action::Decided { package, candidate } => decisions.push((package, candidate)),
            Action::NeedCandidates { package } => {
                let list = shelf.versions[package].iter().map(|t| v(t)).collect();
                assert!(solver.provide_candidates(package, list));
            }
            Action::NeedMetadata { package, candidate } => {
                // The highest candidate that the requirement admits is asked for.
                assert_eq!((package, candidate), (0, 1));
                let text = solver.known().candidate(package, candidate).as_str().to_string();
                assert_eq!(text, "2.0");
                assert!(solver.provide_metadata(package, candidate, shelf.metadata(package, &text)));
            }
            Action::Done => break,
            Action::Failed => panic!("a solution was expected"),
        }
    }
    assert_eq!(decisions, vec![(0, 1)]);
    assert_eq!(solver.decision(0), Some(1));
    assert_eq!(solver.step(), Action::Done);
}

#[test]
fn a_conflict_is_learned_from_and_the_way_back_undoes_the_decisions_above() {
    // A 2.0 requires B >= 3.0, which does not exist; A 1.0 requires B >= 1.0.
    let shelf = Shelf {
        versions: vec![vec!["1.0", "2.0"], vec!["1.0", "2.0"]],
        declared: vec![
            vec![Some(vec![(1, at_least("1.0"))]), Some(vec![(1, at_least("3.0"))])],
            vec![Some(vec![]), Some(vec![])],
        ],
    };
    let mut solver = Solver::new(2, vec![Requirement::new(0, VersionSet::full())], false).unwrap();
    let mut conflicts = 0;
    let mut ways_back = 0;
    for _ in 0..1000 {
        let before = solver.current_phase();
        let held = solver.incompatibility_count();
        let decided: Vec<Option<usize>> = (0..2).map(|p| solver.decision(p)).collect();
        let action = solver.step();
        match (before, solver.current_phase()) {
            (Phase::ConflictFound { incompatibility }, Phase::Backtracking { .. }) => {
                conflicts += 1;
                assert!(incompatibility < held);
                // What is learned is the resolvent of the one before it and of a cause.
                for k in held..solver.incompatibility_count() {
                    let left = if k == held { incompatibility } else { k - 1 };
                    assert!(matches!(solver.incompatibility(k).cause(), Cause::Derived { left: l, right } if l == left && right < k));
                }
                assert_eq!((0..2).map(|p| solver.decision(p)).collect::<Vec<_>>(), decided);
            }
            (Phase::Backtracking { level }, after) => {
                ways_back += 1;
                assert_eq!(after, Phase::Propagating);
                assert_eq!(solver.incompatibility_count(), held);
                if level == 0 {
                    assert!((0..2).all(|p| solver.decision(p).is_none()));
                }
                // A decision that is left was there before.
                assert!((0..2).all(|p| solver.decision(p).is_none() || solver.decision(p) == decided[p]));
            }
            _ => {}
        }
        match action {
            Action::NeedCandidates { package } => {
                let list = shelf.versions[package].iter().map(|t| v(t)).collect();
                assert!(solver.provide_candidates(package, list));
            }
            Action::NeedMetadata { package, candidate } => {
                let text = solver.known().candidate(package, candidate).as_str().to_string();
                assert!(solver.provide_metadata(package, candidate, shelf.metadata(package, &text)));
            }
            Action::Done => break,
            Action::Failed => panic!("a solution was expected"),
            _ => {}
        }
    }
    assert!(conflicts >= 1 && ways_back >= 1);
    assert_eq!(chosen(&solver, 0), Some("1.0".to_string()));
    assert_eq!(chosen(&solver, 1), Some("2.0".to_string()));
}

#[test]
fn what_is_learned_of_metadata_is_held_with_its_cause() {
    let roots = vec![Requirement::new(0, VersionSet::full())];
    let mut solver = Solver::new(3, roots, false).unwrap();
    // One incompatibility for the root requirement.
    assert_eq!(solver.incompatibility_count(), 1);
    assert_eq!(solver.incompatibility(0).cause(), Cause::Root { requirement: 0 });
    assert!(solver.incompatibility(0).mentions(0) && !solver.incompatibility(0).mentions(1));
    let mut asked = Vec::new();
    for _ in 0..1000 {
        match solver.step() {
            Action::NeedCandidates { package } => {
                let held = solver.incompatibility_count();
                assert!(solver.provide_candidates(package, vec![v("1.0"), v("2.0")]));
                assert_eq!(solver.incompatibility_count(), held);
            }
            Action::NeedMetadata { package, candidate } => {
                let held = solver.incompatibility_count();
                asked.push((package, candidate));
                if (package, candidate) == (0, 1) {
                    // No metadata for the highest version of the first package.
                    assert!(solver.provide_metadata(package, candidate, None));
                    assert_eq!(solver.incompatibility_count(), held + 1);
                    assert_eq!(solver.incompatibility(held).cause(), Cause::Unavailable { package: 0, candidate: 1 });
                    assert!(solver.incompatibility(held).mentions(0));
                } else if package == 0 {
                    let declared = vec![Requirement::new(1, at_least("1.0")), Requirement::new(2, at_least("2.0"))];
                    assert!(solver.provide_metadata(package, candidate, Some(declared)));
                    assert_eq!(solver.incompatibility_count(), held + 2);
                    for i in 0..2 {
                        let one = solver.incompatibility(held + i);
                        assert_eq!(one.cause(), Cause::Dependency { package: 0, candidate, requirement: i });
                        assert!(one.mentions(0) && one.mentions(1 + i) && !one.mentions(2 - i));
                    }
                } else {
                    assert!(solver.provide_metadata(package, candidate, Some(Vec::new())));
                    assert_eq!(solver.incompatibility_count(), held);
                }
            }
            Action::Done => break,
            Action::Failed => panic!("a solution was expected"),
            _ => {}
        }
    }
    assert_eq!(asked[0], (0, 1));
    assert_eq!(chosen(&solver, 0), Some("1.0".to_string()));
    assert_eq!(chosen(&solver, 1), Some("2.0".to_string()));
    assert_eq!(chosen(&solver, 2), Some("2.0".to_string()));
}
