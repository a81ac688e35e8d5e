use resolution::knowledge::Requirement;
use resolution::solver::{Action, Phase, Solver};
use resolution::version::Version;
use resolution::version_set::VersionSet;

/// A small generator of numbers that gives the same numbers every time.
struct Dice(u64);

impl Dice {
    fn roll(&mut self, sides: u64) -> u64 {
        self.0 = self.0.wrapping_mul(6364136223846793005).wrapping_add(1442695040888963407);
        (self.0 >> 33) % sides
    }
}

/// A requirement: the package and the lowest and highest version number.
#[derive(Clone, Debug)]
struct Need {
    package: usize,
    low: u64,
    high: u64,
}

/// A world of packages with versions 1..=n, each with its requirements, or
/// none where its metadata cannot be had.
#[derive(Debug)]
struct World {
    versions: Vec<u64>,
    needs: Vec<Vec<Option<Vec<Need>>>>,
    roots: Vec<Need>,
}

fn v(number: u64) -> Version {
    Version::parse(&format!("{number}.0")).unwrap()
}

fn set(need: &Need) -> VersionSet {
    VersionSet::higher_than(&v(need.low)).intersection(&VersionSet::lower_than(&v(need.high)))
}

fn world(dice: &mut Dice, packages: usize, most: u64) -> World {
    let versions: Vec<u64> = (0..packages).map(|_| 1 + dice.roll(most)).collect();
    let need = |dice: &mut Dice, not: usize| -> Need {
        let mut package = dice.roll(packages as u64) as usize;
        if package == not {
            package = (package + 1) % packages;
        }
        let low = 1 + dice.roll(most);
        let high = low + dice.roll(2);
        Need { package, low, high }
    };
    let needs = (0..packages)
        .map(|p| {
            (0..versions[p])
                .map(|_| {
                    if dice.roll(8) == 0 {
                        None
                    } else {
                        Some((0..dice.roll(3)).map(|_| need(dice, p)).collect())
                    }
                })
                .collect()
        })
        .collect();
    let roots = (0..1 + dice.roll(2)).map(|_| need(dice, usize::MAX)).collect();
    World { versions, needs, roots }
}

/// Whether the choice (0: absent) of a version for each package is a solution.
fn solves(world: &World, choice: &[u64]) -> bool {
    let met = |need: &Need| choice[need.package] >= need.low && choice[need.package] <= need.high && choice[need.package] > 0;
    world.roots.iter().all(met)
        && choice.iter().enumerate().all(|(p, c)| {
            *c == 0 || world.needs[p][(*c - 1) as usize].as_ref().is_some_and(|needs| needs.iter().all(met))
        })
}

fn solvable(world: &World) -> bool {
    let mut choice = vec![0u64; world.versions.len()];
    loop {
        if solves(world, &choice) {
            return true;
        }
        let mut p = 0;
        loop {
            if p == choice.len() {
                return false;
            }
            if choice[p] < world.versions[p] {
                choice[p] += 1;
                break;
            }
            choice[p] = 0;
            p += 1;
        }
    }
}

fn run(world: &World) -> (Phase, Vec<u64>, usize) {
    let roots = world.roots.iter().map(|need| Requirement::new(need.package, set(need))).collect();
    let mut solver = Solver::new(world.versions.len(), roots, false).unwrap();
    let mut steps = 0;
    loop {
        steps += 1;
        assert!(steps < 200_000, "the solver did not come to an end on {world:?}");
        match solver.step() {
            Action::Continue | Action::Decided { .. } => {}
            Action::NeedCandidates { package } => {
                // Handed over out of order: the solver puts them in order.
                let list = (1..=world.versions[package]).rev().map(v).collect();
                assert!(solver.provide_candidates(package, list));
            }
            Action::NeedMetadata { package, candidate } => {
                let declared = world.needs[package][candidate]
                    .as_ref()
                    .map(|needs| needs.iter().map(|need| Requirement::new(need.package, set(need))).collect());
                assert!(solver.provide_metadata(package, candidate, declared));
            }
            Action::Done | Action::Failed => break,
        }
    }
    let choice = (0..world.versions.len()).map(|p| solver.decision(p).map_or(0, |c| c as u64 + 1)).collect();
    (solver.current_phase(), choice, steps)
}

#[test]
fn the_solver_agrees_with_a_search_of_all_choices() {
    let mut dice = Dice(20240229);
    let mut satisfied = 0;
    let mut unsatisfiable = 0;
    for round in 0..400 {
        let packages = 2 + (round % 4);
        let world = world(&mut dice, packages, 3);
        let (phase, choice, _) = run(&world);
        if solvable(&world) {
            assert_eq!(phase, Phase::Satisfied, "a solution of {world:?} was missed");
            assert!(solves(&world, &choice), "{choice:?} does not solve {world:?}");
            satisfied += 1;
        } else {
            assert_eq!(phase, Phase::Unsatisfiable, "{choice:?} was given for {world:?}");
            unsatisfiable += 1;
        }
    }
    assert!(satisfied > 50 && unsatisfiable > 50);
}

#[test]
fn the_solver_gives_the_same_answer_every_time() {
    let mut dice = Dice(7);
    for _ in 0..50 {
        let world = world(&mut dice, 5, 3);
        assert_eq!(run(&world), run(&world));
    }
}

#[test]
fn the_solver_finds_its_way_out_of_a_deep_conflict() {
    // A chain of packages each of whose newest version needs a version of the
    // next that does not exist, so that the solver has to climb down step by
    // step.
    let packages = 6;
    let versions: Vec<u64> = vec![3; packages];
    let mut needs: Vec<Vec<Option<Vec<Need>>>> = Vec::new();
    for p in 0..packages {
        let next = (p + 1) % packages;
        let mut list = Vec::new();
        for number in 1..=3u64 {
            if p + 1 == packages {
                list.push(Some(Vec::new()));
            } else if number == 1 {
                list.push(Some(vec![Need { package: next, low: 1, high: 3 }]));
            } else {
                list.push(Some(vec![Need { package: next, low: 7, high: 9 }]));
            }
        }
        needs.push(list);
    }
    let world = World { versions, needs, roots: vec![Need { package: 0, low: 1, high: 3 }] };
    let (phase, choice, _) = run(&world);
    assert_eq!(phase, Phase::Satisfied);
    assert_eq!(choice, vec![1, 1, 1, 1, 1, 3]);
}
