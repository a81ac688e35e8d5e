use resolution::metadata::{Declared, Metadata};
use resolution::names::{ExtraName, PackageName};
use resolution::resolver::Resolver;
use resolution::run::{metadata_on, run, turn, versions_on, Ending, Offer, Release};
use resolution::solver::Phase;
use resolution::version::Version;
use resolution::version_set::VersionSet;

fn v(text: &str) -> Version {
    Version::parse(text).unwrap()
}

fn name(text: &str) -> PackageName {
    PackageName::new(text).unwrap()
}

fn asks(package: &str, extras: &[&str], versions: VersionSet) -> Declared {
    Declared {
        name: name(package),
        extras: extras.iter().map(|e| ExtraName::new(e).unwrap()).collect(),
        groups: Vec::new(),
        versions,
        active: true,
    }
}

fn release(version: &str, requirements: Vec<(&str, &str)>, extras: Vec<(&str, Vec<(&str, &str)>)>) -> Release {
    let list = |items: Vec<(&str, &str)>| -> Vec<Declared> {
        items.into_iter().map(|(n, low)| asks(n, &[], VersionSet::higher_than(&v(low)))).collect()
    };
    Release {
        version: v(version),
        metadata: Some(Metadata {
            requirements: list(requirements),
            extras: extras.into_iter().map(|(e, items)| (ExtraName::new(e).unwrap(), list(items))).collect(),
            groups: Vec::new(),
        }),
    }
}

fn shelf() -> Vec<Offer> {
    vec![
        Offer {
            name: name("a"),
            releases: vec![
                release("1.0", vec![("b", "1.0")], vec![]),
                release("2.0", vec![("b", "2.0")], vec![("extra1", vec![("c", "1.0")])]),
                Release { version: v("3.0"), metadata: None },
            ],
        },
        Offer { name: name("b"), releases: vec![release("1.0", vec![], vec![]), release("2.5", vec![], vec![])] },
        Offer { name: name("c"), releases: vec![release("0.9", vec![], vec![]), release("1.2.0", vec![], vec![])] },
        // A second offer of a name counts for nothing.
        Offer { name: name("b"), releases: vec![release("9.0", vec![], vec![])] },
    ]
}

fn decided(resolver: &Resolver) -> Vec<String> {
    resolver.plan().choices.iter().map(|c| format!("{}=={}", c.key.label(), c.version.as_str())).collect()
}

#[test]
fn a_run_over_a_shelf_settles_on_the_highest_versions_that_fit() {
    let mut resolver = Resolver::new(&vec![asks("a", &[], VersionSet::full())], false);
    assert_eq!(run(&mut resolver, &shelf(), 10_000), Ending::Done);
    assert_eq!(resolver.solver().current_phase(), Phase::Satisfied);
    // 3.0 has no metadata and is passed over.
    assert_eq!(decided(&resolver), vec!["a==2.0", "b==2.5"]);
}

#[test]
fn a_run_that_cannot_be_solved_fails() {
    let mut resolver = Resolver::new(&vec![asks("a", &[], VersionSet::full()), asks("b", &[], VersionSet::strictly_lower_than(&v("1.0")))], false);
    assert_eq!(run(&mut resolver, &shelf(), 10_000), Ending::Failed);
    assert_eq!(resolver.solver().current_phase(), Phase::Unsatisfiable);
    let mut unknown = Resolver::new(&vec![asks("nowhere", &[], VersionSet::full())], false);
    assert_eq!(run(&mut unknown, &shelf(), 10_000), Ending::Failed);
}

#[test]
fn a_run_stops_when_its_steps_are_used_up_and_can_go_on() {
    let mut resolver = Resolver::new(&vec![asks("a", &[], VersionSet::full())], false);
    assert_eq!(run(&mut resolver, &shelf(), 0), Ending::OutOfSteps);
    assert_eq!(run(&mut resolver, &shelf(), 2), Ending::OutOfSteps);
    assert_eq!(resolver.solver().current_phase(), Phase::Propagating);
    let mut rounds = 0;
    while run(&mut resolver, &shelf(), 3) == Ending::OutOfSteps {
        rounds += 1;
        assert!(rounds < 1000);
    }
    assert_eq!(decided(&resolver), vec!["a==2.0", "b==2.5"]);
    // A run that is done stays done.
    assert_eq!(run(&mut resolver, &shelf(), 0), Ending::Done);
    assert_eq!(run(&mut resolver, &shelf(), 5), Ending::Done);
}

#[test]
fn two_runs_over_one_shelf_settle_on_the_same() {
    let roots = vec![asks("a", &["extra1"], VersionSet::full()), asks("b", &[], VersionSet::full())];
    let mut first = Resolver::new(&roots, false);
    let mut second = Resolver::new(&roots, false);
    assert_eq!(run(&mut first, &shelf(), 10_000), Ending::Done);
    assert_eq!(run(&mut second, &shelf(), 10_000), Ending::Done);
    assert_eq!(decided(&first), decided(&second));
    assert_eq!(decided(&first), vec!["a[extra1]==2.0", "b==2.5", "a==2.0", "c==1.2.0"]);
}

#[test]
fn plain_and_extra_of_a_run_share_the_version_and_the_metadata() {
    let roots = vec![asks("a", &[], VersionSet::full()), asks("a", &["extra1"], VersionSet::full())];
    let mut resolver = Resolver::new(&roots, false);
    assert_eq!(run(&mut resolver, &shelf(), 10_000), Ending::Done);
    let plan = resolver.plan();
    let plain = &plan.choices[0];
    let extra = &plan.choices[1];
    assert!(plain.key.is_base() && !extra.key.is_base());
    assert!(plain.version.same(&extra.version));
    let extras_of = |m: &Metadata| -> Vec<String> { m.extras.iter().map(|(e, _)| e.as_str().to_string()).collect() };
    let requirements_of = |m: &Metadata| -> Vec<String> { m.requirements.iter().map(|d| d.name.as_str().to_string()).collect() };
    let (m, n) = (plain.metadata.as_ref().unwrap(), extra.metadata.as_ref().unwrap());
    assert_eq!(extras_of(m), vec!["extra1"]);
    assert_eq!(extras_of(m), extras_of(n));
    assert_eq!(requirements_of(m), vec!["b"]);
    assert_eq!(requirements_of(m), requirements_of(n));
}

#[test]
fn the_shelf_is_asked_by_name_and_by_version() {
    let shelf = shelf();
    let texts = |list: Vec<Version>| -> Vec<String> { list.iter().map(|x| x.as_str().to_string()).collect() };
    assert_eq!(texts(versions_on(&shelf, &name("a"))), vec!["1.0", "2.0", "3.0"]);
    assert_eq!(texts(versions_on(&shelf, &name("B"))), vec!["1.0", "2.5"]);
    assert!(versions_on(&shelf, &name("nowhere")).is_empty());
    assert_eq!(metadata_on(&shelf, &name("a"), &v("1.0")).unwrap().requirements.len(), 1);
    // The version counts, not how it is written.
    assert!(metadata_on(&shelf, &name("c"), &v("1.2")).is_some());
    assert!(metadata_on(&shelf, &name("a"), &v("2.0.0")).unwrap().extras.len() == 1);
    assert!(metadata_on(&shelf, &name("a"), &v("3.0")).is_none());
    assert!(metadata_on(&shelf, &name("a"), &v("4.0")).is_none());
    assert!(metadata_on(&shelf, &name("b"), &v("9.0")).is_none());
    assert!(metadata_on(&shelf, &name("nowhere"), &v("1.0")).is_none());
}

#[test]
fn a_run_is_its_turns_one_after_the_other() {
    let roots = vec![asks("a", &["extra1"], VersionSet::full())];
    let mut resolver = Resolver::new(&roots, false);
    let mut turns = 0;
    let ending = loop {
        turns += 1;
        assert!(turns < 1000);
        if let Some(ending) = turn(&mut resolver, &shelf()) {
            break ending;
        }
    };
    assert_eq!(ending, Ending::Done);
    assert_eq!(decided(&resolver), vec!["a[extra1]==2.0", "a==2.0", "b==2.5", "c==1.2.0"]);
    // As many turns are enough for a run, and one less is not.
    let mut enough = Resolver::new(&roots, false);
    assert_eq!(run(&mut enough, &shelf(), turns), Ending::Done);
    assert_eq!(decided(&enough), decided(&resolver));
    let mut short = Resolver::new(&roots, false);
    assert_eq!(run(&mut short, &shelf(), turns - 1), Ending::OutOfSteps);
    // A turn after the end says so again and changes nothing.
    assert_eq!(turn(&mut resolver, &shelf()), Some(Ending::Done));
    assert_eq!(decided(&resolver), decided(&enough));
}
