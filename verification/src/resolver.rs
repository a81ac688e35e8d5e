//! The resolver: the version solver over named packages.
//!
//! The solver knows packages by number. The resolver keeps the table that
//! numbers them, and turns what metadata declares of named packages into
//! requirements on numbered ones.

use crate::knowledge::{requirement_views, KnowledgeView, MetadataKind, MetadataView, Requirement, RequirementView};
use crate::metadata::{declared_views, expand, metadata_view, want_views, wants, wants_of_all, Declared, Metadata, Tag, TagView, Want, WantView};
use crate::packages::{PackageKey, PackageKeyView, PackageTable};
use crate::solver::{step_says, Action, Phase, Solver};
use crate::annotated::AnnotatedDist;
use crate::graph::{link_views, Link, LinkView};
use crate::selector::{Selected, SelectionError};
use crate::incompatibility::Selection;
use crate::version::Version;
use vstd::prelude::*;

verus! {

/// Whether the requirements are the wants with each package numbered by
/// its place in the table.
pub open spec fn numbered(keys: Seq<PackageKeyView>, reqs: Seq<RequirementView>, wants: Seq<WantView>) -> bool {
    &&& reqs.len() == wants.len()
    &&& forall|i: int|
        0 <= i < reqs.len() ==> {
            &&& 0 <= (#[trigger] reqs[i]).package < keys.len()
            &&& keys[reqs[i].package] == wants[i].key
            &&& reqs[i].versions == wants[i].versions
            &&& reqs[i].tag == wants[i].tag
        }
}

/// Whether `longer` begins with `shorter`.
pub open spec fn begins_with(longer: Seq<PackageKeyView>, shorter: Seq<PackageKeyView>) -> bool {
    shorter.len() <= longer.len() && forall|i: int| 0 <= i < shorter.len() ==> longer[i] == shorter[i]
}

/// The table once the packages of the wants are in it: each in its turn is
/// put at the end unless the table has it already.
pub open spec fn interned(keys: Seq<PackageKeyView>, ws: Seq<WantView>) -> Seq<PackageKeyView>
    decreases ws.len(),
{
    if ws.len() == 0 {
        keys
    } else {
        let before = interned(keys, ws.drop_last());
        if exists|i: int| 0 <= i < before.len() && before[i] == ws.last().key {
            before
        } else {
            before.push(ws.last().key)
        }
    }
}

/// Numbers the packages of the wants, putting new ones into the table.
fn number(table: &mut PackageTable, wants: &Vec<Want>) -> (r: Vec<Requirement>)
    requires
        old(table).wf(),
    ensures
        final(table).wf(),
        begins_with(final(table)@, old(table)@),
        numbered(final(table)@, requirement_views(r@), want_views(wants@)),
        final(table)@ == interned(old(table)@, want_views(wants@)),
{
    let mut out: Vec<Requirement> = Vec::new();
    let mut i: usize = 0;
    let ghost all = want_views(wants@);
    assert(all.take(0) =~= Seq::empty());
    while i < wants.len()
        invariant
            i <= wants.len(),
            table.wf(),
            all == want_views(wants@),
            table@ == interned(old(table)@, all.take(i as int)),
            begins_with(table@, old(table)@),
            out.len() == i,
            forall|k: int|
                0 <= k < i ==> {
                    &&& 0 <= (#[trigger] out[k])@.package < table@.len()
                    &&& table@[out[k]@.package] == wants[k]@.key
                    &&& out[k]@.versions == wants[k]@.versions
                    &&& out[k]@.tag == wants[k]@.tag
                },
        decreases wants.len() - i,
    {
        let ghost before = table@;
        let w = &wants[i];
        let p = table.intern(w.key.duplicate());
        assert(begins_with(table@, before));
        proof {
            assert(all.take(i + 1).drop_last() =~= all.take(i as int));
            assert(all.take(i + 1).last() == w@);
        }
        let ghost had = out@;
        out.push(Requirement::tagged(p, w.versions.duplicate(), w.tag.duplicate()));
        proof {
            assert forall|k: int| 0 <= k < i + 1 implies {
                &&& (#[trigger] out[k])@.package < table@.len()
                &&& table@[out[k]@.package] == wants[k]@.key
                &&& out[k]@.versions == wants[k]@.versions
                &&& out[k]@.tag == wants[k]@.tag
            } by {
                if k < i {
                    assert(out[k] == had[k]);
                    assert(had[k]@.package < before.len());
                    assert(table@[had[k]@.package] == before[had[k]@.package]);
                }
            }
        }
        i += 1;
    }
    proof {
        assert(all.take(wants.len() as int) =~= all);
        let reqs = requirement_views(out@);
        let ws = want_views(wants@);
        assert forall|k: int| 0 <= k < reqs.len() implies {
            &&& 0 <= (#[trigger] reqs[k]).package < table@.len()
            &&& table@[reqs[k].package] == ws[k].key
            &&& reqs[k].versions == ws[k].versions
            &&& reqs[k].tag == ws[k].tag
        } by {
            assert(reqs[k] == out[k]@);
            assert(ws[k] == wants[k]@);
        }
    }
    out
}

/// The number of decided packages below package `p`: the place of `p`
/// among the decided packages.
pub open spec fn place_of(decided: Seq<Option<usize>>, p: int) -> int
    decreases p,
{
    if p <= 0 {
        0
    } else {
        place_of(decided, p - 1) + if 0 <= p - 1 < decided.len() && decided[p - 1] is Some {
            1int
        } else {
            0int
        }
    }
}

/// The decided packages below `upto`, in their order.
pub open spec fn chosen(decided: Seq<Option<usize>>, upto: int) -> Seq<int>
    decreases upto,
{
    if upto <= 0 {
        Seq::empty()
    } else if 0 <= upto - 1 < decided.len() && decided[upto - 1] is Some {
        chosen(decided, upto - 1).push(upto - 1)
    } else {
        chosen(decided, upto - 1)
    }
}

/// The links that requirements make, from the place `from` (none: the
/// root) to the places of the packages required.
pub open spec fn links_of(decided: Seq<Option<usize>>, from: Option<int>, rs: Seq<RequirementView>) -> Seq<LinkView> {
    Seq::new(
        rs.len(),
        |i: int| LinkView { from, to: place_of(decided, rs[i].package), tag: rs[i].tag, build: false },
    )
}

/// The links of a plan: those of the roots, then for each decided package
/// below `upto` those of the requirements that its decided candidate
/// declares.
pub open spec fn planned_links(k: KnowledgeView, decided: Seq<Option<usize>>, upto: int) -> Seq<LinkView>
    decreases upto,
{
    if upto <= 0 {
        links_of(decided, None, k.roots)
    } else if 0 <= upto - 1 < decided.len() && decided[upto - 1] is Some {
        planned_links(k, decided, upto - 1) + links_of(
            decided,
            Some(place_of(decided, upto - 1)),
            k.packages[upto - 1].metadata[decided[upto - 1]->0 as int]->Known_0,
        )
    } else {
        planned_links(k, decided, upto - 1)
    }
}

/// The mathematical value of what was fetched for one candidate.
pub struct FetchedView {
    pub package: int,
    pub candidate: int,
    pub metadata: crate::metadata::MetadataView,
}

/// The metadata that the provider answered for one candidate of a package.
#[derive(Debug)]
pub struct Fetched {
    pub package: usize,
    pub candidate: usize,
    pub metadata: Metadata,
}

/// The views of a list of what was fetched.
pub open spec fn fetched_views(fs: Seq<Fetched>) -> Seq<FetchedView> {
    Seq::new(
        fs.len(),
        |i: int|
            FetchedView { package: fs[i].package as int, candidate: fs[i].candidate as int, metadata: fs[i].metadata@ },
    )
}

/// The metadata that was fetched for candidate `c` of package `p`: that of
/// the first entry for it; none where there is no entry for it.
pub open spec fn fetched_for(fs: Seq<FetchedView>, p: int, c: int) -> Option<crate::metadata::MetadataView>
    decreases fs.len(),
{
    if fs.len() == 0 {
        None
    } else if fs.first().package == p && fs.first().candidate == c {
        Some(fs.first().metadata)
    } else {
        fetched_for(fs.drop_first(), p, c)
    }
}

/// A copy of the metadata that was fetched for candidate `c` of package
/// `p`, if any was.
fn find_fetched(fs: &Vec<Fetched>, p: usize, c: usize) -> (r: Option<Metadata>)
    ensures
        metadata_view(r) == fetched_for(fetched_views(fs@), p as int, c as int),
{
    let ghost all = fetched_views(fs@);
    let mut i: usize = 0;
    assert(all.skip(0) =~= all);
    while i < fs.len()
        invariant
            i <= fs.len(),
            all == fetched_views(fs@),
            fetched_for(all, p as int, c as int) == fetched_for(all.skip(i as int), p as int, c as int),
        decreases fs.len() - i,
    {
        assert(all.skip(i as int).first() == all[i as int]);
        if fs[i].package == p && fs[i].candidate == c {
            return Some(fs[i].metadata.duplicate());
        }
        assert(all.skip(i as int).drop_first() =~= all.skip(i + 1));
        i += 1;
    }
    None
}

/// A decided package: its number, what it is, the number of the candidate
/// that was decided and its version, and the metadata that was fetched for
/// that candidate.
#[derive(Debug)]
pub struct Choice {
    pub package: usize,
    pub key: PackageKey,
    pub candidate: usize,
    pub version: Version,
    pub metadata: Option<Metadata>,
}

/// The node of the graph that a decided package becomes with the artifact
/// that was selected for it: the package at its version, brought in by the
/// extra or the group of its key, with the artifact and its hashes and with
/// the metadata that was fetched.
pub fn node_of(choice: Choice, selected: Selected) -> (r: AnnotatedDist)
    ensures
        r.dist == selected.dist,
        r.hashes == selected.hashes,
        r.name == choice.key.name,
        r.version == choice.version,
        r.extra == choice.key.extra,
        r.dev == choice.key.group,
        r.metadata == choice.metadata,
{
    AnnotatedDist {
        dist: selected.dist,
        name: choice.key.name,
        version: choice.version,
        extra: choice.key.extra,
        dev: choice.key.group,
        hashes: selected.hashes,
        metadata: choice.metadata,
    }
}

/// What a run that ended without a solution reports.
#[derive(Debug, Clone, Copy, PartialEq, Eq, Structural)]
pub enum Report {
    /// No artifact could be selected for a version that the run would
    /// otherwise have settled on.
    Selection(SelectionError),
    /// The requirements have no solution.
    NoSolution,
}

/// The mathematical value of a choice.
pub struct ChoiceView {
    pub package: int,
    pub key: PackageKeyView,
    pub candidate: int,
    pub version: Seq<char>,
    pub metadata: Option<crate::metadata::MetadataView>,
}

impl View for Choice {
    type V = ChoiceView;

    open spec fn view(&self) -> ChoiceView {
        ChoiceView {
            package: self.package as int,
            key: self.key@,
            candidate: self.candidate as int,
            version: self.version@,
            metadata: metadata_view(self.metadata),
        }
    }
}

/// The views of a list of choices.
pub open spec fn choice_views(cs: Seq<Choice>) -> Seq<ChoiceView> {
    Seq::new(cs.len(), |t: int| cs[t]@)
}

/// The choice that stands for the decided package `p`: the package with
/// its key, the candidate decided and its version, and the metadata that was
/// fetched for the candidate.
pub open spec fn choice_of(x: Resolver, p: int) -> ChoiceView {
    ChoiceView {
        package: p,
        key: x.keys()[p],
        candidate: x.decisions()[p]->0 as int,
        version: x.selection()[p],
        metadata: fetched_for(x.fetched(), p, x.decisions()[p]->0 as int),
    }
}

/// The choices of a plan: one for each decided package, in the order of
/// their numbers.
pub open spec fn choices_of(x: Resolver) -> Seq<ChoiceView> {
    let places = chosen(x.decisions(), x.keys().len() as int);
    Seq::new(places.len(), |t: int| choice_of(x, places[t]))
}

/// What a run has settled: the decided packages in the order of their
/// numbers, and the links between their places.
#[derive(Debug)]
pub struct Plan {
    pub choices: Vec<Choice>,
    pub links: Vec<Link>,
}

/// The place of a package is at most its number.
proof fn lemma_place_bound(decided: Seq<Option<usize>>, p: int)
    requires
        0 <= p,
    ensures
        0 <= place_of(decided, p) <= p,
        place_of(decided, p) == chosen(decided, p).len(),
    decreases p,
{
    if p > 0 {
        lemma_place_bound(decided, p - 1);
    }
}

/// Whether the solver has changed in nothing but what it knows: its
/// decisions, its log, its terms and level, what it holds and the names are
/// as they were.
pub open spec fn only_learned(before: Solver, after: Solver) -> bool {
    &&& after.phase() == before.phase()
    &&& after.labels() == before.labels()
    &&& after.decisions() == before.decisions()
    &&& after.assignments() == before.assignments()
    &&& after.allowed() == before.allowed()
    &&& after.level() == before.level()
    &&& after.incompatibilities() == before.incompatibilities()
    &&& after.causes() == before.causes()
}

/// Whether the solver is as it is made: nothing is decided, logged or
/// narrowed, and it holds one incompatibility for each root requirement,
/// that the requirement is not unmet.
pub open spec fn begun(s: Solver) -> bool {
    let k = s.knowledge();
    &&& s.decisions() == Seq::new(k.packages.len(), |p: int| None::<usize>)
    &&& s.assignments() == Seq::<crate::solver::AssignmentView>::empty()
    &&& s.level() == 0
    &&& s.allowed() == crate::solver::nothing(k.packages.len())
    &&& s.incompatibilities() == Seq::new(
        k.roots.len(),
        |i: int| crate::solver::lone(k.roots[i].package, crate::knowledge::unmet_term(k.roots[i])),
    )
    &&& s.causes() == Seq::new(k.roots.len(), |i: int| crate::incompatibility::Cause::Root { requirement: i as usize })
}

/// What recording an answer for the metadata of candidate `c` of package
/// `p` makes of the solver, beyond what it knows: the packages that are new
/// in the table may be anything and are undecided, the solver holds the
/// incompatibilities that the answer gives, and its log and level are as
/// they were.
pub open spec fn recorded_in(before: Solver, after: Solver, p: int, c: int) -> bool {
    let more = after.knowledge().packages.len() - before.knowledge().packages.len();
    &&& after.phase() == before.phase()
    &&& after.assignments() == before.assignments()
    &&& after.level() == before.level()
    &&& after.decisions() == before.decisions() + Seq::new(more as nat, |q: int| None::<usize>)
    &&& after.allowed() == before.allowed() + Seq::new(more as nat, |q: int| crate::term::TermView::any())
    &&& after.incompatibilities() == before.incompatibilities() + crate::solver::clause_terms(after.knowledge(), p, c)
    &&& after.causes() == before.causes() + crate::solver::clause_causes(after.knowledge(), p, c)
}

/// The resolver.
#[derive(Debug)]
pub struct Resolver {
    solver: Solver,
    table: PackageTable,
    fetched: Vec<Fetched>,
    setback: Option<SelectionError>,
}

impl Resolver {
    /// The packages, by number.
    pub closed spec fn keys(&self) -> Seq<PackageKeyView> {
        self.table@
    }

    /// The solver that the resolver runs.
    pub closed spec fn engine(&self) -> Solver {
        self.solver
    }

    /// The metadata that the provider answered, in the order of the
    /// answers.
    pub closed spec fn fetched(&self) -> Seq<FetchedView> {
        fetched_views(self.fetched@)
    }

    /// The selection failure that last took a candidate out of the run, if
    /// one did.
    pub closed spec fn setback(&self) -> Option<SelectionError> {
        self.setback
    }

    /// What the run knows.
    pub open spec fn knowledge(&self) -> KnowledgeView {
        self.engine().knowledge()
    }

    /// Where the solver stands.
    pub open spec fn phase(&self) -> Phase {
        self.engine().phase()
    }

    /// The selection that the decisions made so far stand for.
    pub open spec fn selection(&self) -> Selection {
        self.engine().selection()
    }

    /// Whether each package goes by the text of its key where the solver
    /// breaks ties.
    pub open spec fn labelled(&self) -> bool {
        &&& self.engine().labels().len() == self.keys().len()
        &&& forall|p: int| 0 <= p < self.keys().len() ==> #[trigger] self.engine().labels()[p] == self.keys()[p].label()
    }

    /// The invariant of the resolver: that of its solver, and a table
    /// without repetitions that numbers the packages of the solver, each of
    /// which goes by the text of its key.
    pub closed spec fn inv(&self) -> bool {
        &&& self.solver.inv()
        &&& self.table.wf()
        &&& self.table@.len() == self.solver.knowledge().packages.len()
        &&& self.labelled()
    }

    /// What the invariant says of the solver and of the names.
    pub proof fn lemma_inv_says(&self)
        requires
            self.inv(),
        ensures
            self.engine().inv(),
            self.keys().len() == self.knowledge().packages.len(),
            crate::packages::keys_distinct(self.keys()),
            self.labelled(),
    {
    }

    /// Whether pre-releases may be candidates.
    pub open spec fn admits_prereleases(&self) -> bool {
        self.knowledge().prereleases
    }

    /// A resolver for the root requirements given. Pre-releases are
    /// candidates only if `prereleases` says so.
    pub fn new(roots: &Vec<Declared>, prereleases: bool) -> (r: Resolver)
        ensures
            r.inv(),
            r.phase() == Phase::Propagating,
            r.admits_prereleases() == prereleases,
            numbered(r.keys(), r.knowledge().roots, wants_of_all(declared_views(roots@), TagView::Plain)),
            r.keys() == interned(Seq::empty(), wants_of_all(declared_views(roots@), TagView::Plain)),
            r.knowledge().packages.len() == r.keys().len(),
            forall|p: int| 0 <= p < r.keys().len() ==> (#[trigger] r.knowledge().packages[p]).candidates is None,
            r.fetched() == Seq::<FetchedView>::empty(),
            r.setback() is None,
            r.labelled(),
            begun(r.engine()),
            made_from(r, declared_views(roots@), prereleases),
    {
        let mut wants: Vec<Want> = Vec::new();
        assert(want_views(wants@) =~= Seq::empty());
        crate::metadata::push_wants_of_all(&mut wants, roots, &Tag::Plain);
        assert(want_views(wants@) =~= wants_of_all(declared_views(roots@), TagView::Plain));
        let mut table = PackageTable::new();
        let reqs = number(&mut table, &wants);
        let ghost views = requirement_views(reqs@);
        match Solver::new(table.len(), reqs, prereleases) {
            Some(solver) => {
                let mut solver = solver;
                let ghost known = solver.knowledge();
                proof {
                    solver.lemma_inv_known();
                    assert(begun(solver)) by {
                        assert(known.roots == views);
                        assert(solver.incompatibilities() =~= Seq::new(
                            known.roots.len(),
                            |i: int|
                                crate::solver::lone(known.roots[i].package, crate::knowledge::unmet_term(known.roots[i])),
                        ));
                    }
                }
                let mut p: usize = 0;
                while p < table.len()
                    invariant
                        p <= table@.len(),
                        solver.inv(),
                        solver.phase() == Phase::Propagating,
                        solver.knowledge() == known,
                        solver.labels().len() == table@.len(),
                        forall|q: int| 0 <= q < p ==> #[trigger] solver.labels()[q] == table@[q].label(),
                        begun(solver),
                    decreases table@.len() - p,
                {
                    proof {
                        solver.lemma_inv_known();
                    }
                    solver.name_package(p, table.key(p).label().as_str());
                    p += 1;
                }
                let r = Resolver { solver, table, fetched: Vec::new(), setback: None };
                assert(r.fetched() =~= Seq::empty());
                r
            },
            None => {
                proof {
                    assert forall|i: int| 0 <= i < reqs.len() implies (#[trigger] reqs[i])@.package < table@.len() by {
                        assert(views[i] == reqs[i]@);
                    }
                }
                vstd::pervasive::unreached()
            },
        }
    }

    /// The solver.
    pub fn solver(&self) -> (r: &Solver)
        ensures
            *r == self.engine(),
            self.inv() ==> r.inv(),
    {
        &self.solver
    }

    /// The number of packages.
    pub fn package_count(&self) -> (r: usize)
        ensures
            r == self.keys().len(),
    {
        self.table.len()
    }

    /// The package of number `p`.
    pub fn key(&self, p: usize) -> (r: &PackageKey)
        requires
            p < self.keys().len(),
        ensures
            r@ == self.keys()[p as int],
    {
        self.table.key(p)
    }

    /// The number of the package, if it has one.
    pub fn find(&self, key: &PackageKey) -> (r: Option<usize>)
        ensures
            match r {
                Some(p) => p < self.keys().len() && self.keys()[p as int] == key@,
                None => forall|i: int| 0 <= i < self.keys().len() ==> self.keys()[i] != key@,
            },
    {
        self.table.find(key)
    }

    /// One step of the solver: what the step of the solver does, on the
    /// solver of this resolver. The table of packages stays as it is, and so
    /// do the names that the packages go by.
    pub fn step(&mut self) -> (r: Action)
        requires
            old(self).inv(),
        ensures
            final(self).inv(),
            final(self).keys() == old(self).keys(),
            final(self).labelled(),
            final(self).fetched() == old(self).fetched(),
            final(self).setback() == old(self).setback(),
            step_says(old(self).engine(), final(self).engine(), r),
    {
        self.solver.step()
    }

    /// Hands the solver the candidates of package `p`.
    pub fn provide_candidates(&mut self, p: usize, versions: Vec<Version>) -> (r: bool)
        requires
            old(self).inv(),
        ensures
            final(self).inv(),
            final(self).keys() == old(self).keys(),
            final(self).fetched() == old(self).fetched(),
            final(self).setback() == old(self).setback(),
            final(self).phase() == old(self).phase(),
            final(self).selection() == old(self).selection(),
            only_learned(old(self).engine(), final(self).engine()),
            final(self).knowledge().extends(old(self).knowledge()),
            r == (old(self).phase() == Phase::Propagating && p < old(self).knowledge().packages.len() && old(
                self,
            ).knowledge().packages[p as int].candidates is None),
            !r ==> final(self).knowledge() == old(self).knowledge(),
            r ==> {
                let was = old(self).knowledge();
                let now = final(self).knowledge();
                &&& now.roots == was.roots
                &&& now.packages.len() == was.packages.len()
                &&& forall|q: int| 0 <= q < was.packages.len() && q != p ==> #[trigger] now.packages[q] == was.packages[q]
                &&& now.packages[p as int].candidates is Some
                &&& crate::knowledge::ascending(now.packages[p as int].candidates->0)
                &&& forall|i: int|
                    0 <= i < now.packages[p as int].candidates->0.len() ==> crate::knowledge::listed(
                        crate::knowledge::version_views(versions@),
                        #[trigger] now.packages[p as int].candidates->0[i],
                    ) && (old(self).admits_prereleases() || !crate::version::version_is_prerelease(
                        now.packages[p as int].candidates->0[i],
                    ))
                &&& forall|j: int|
                    0 <= j < versions.len() && (old(self).admits_prereleases()
                        || !crate::version::version_is_prerelease(#[trigger] versions[j]@))
                        ==> crate::knowledge::has_same(now.packages[p as int].candidates->0, versions[j]@)
                &&& forall|c: int|
                    0 <= c < now.packages[p as int].metadata.len() ==> #[trigger] now.packages[p as int].metadata[c]
                        is Unknown
                &&& forall|i: int|
                    0 <= i < now.packages[p as int].candidates->0.len() ==> crate::knowledge::first_written(
                        crate::knowledge::admitted_of(
                            crate::knowledge::version_views(versions@),
                            old(self).admits_prereleases(),
                        ),
                        #[trigger] now.packages[p as int].candidates->0[i],
                    )
            },
    {
        let ghost was = self.solver.knowledge();
        let ghost decided = self.solver.decisions();
        proof {
            self.solver.lemma_inv_known();
        }
        let r = self.solver.provide_candidates(p, versions);
        proof {
            lemma_same_selection(was, self.solver.knowledge(), decided);
        }
        r
    }

    /// Hands the solver what the provider answered for the metadata of the
    /// candidate of number `c` of package `p`. The packages that the
    /// metadata names are numbered, new ones at the end of the table; what
    /// the package requires at that version becomes requirements on the
    /// numbered packages. Metadata that makes the package require itself is
    /// malformed: the candidate is then unavailable, as it is where there
    /// is no metadata. Nothing changes, and the answer is `false`, unless
    /// the solver is propagating, there is such a candidate and its
    /// metadata was not recorded before.
    pub fn provide_metadata(&mut self, p: usize, c: usize, answer: Option<Metadata>) -> (r: bool)
        requires
            old(self).inv(),
        ensures
            final(self).inv(),
            final(self).phase() == old(self).phase(),
            final(self).selection() == old(self).selection(),
            begins_with(final(self).keys(), old(self).keys()),
            final(self).knowledge().extends(old(self).knowledge()),
            r == (old(self).phase() == Phase::Propagating && p < old(self).knowledge().packages.len() && c < old(self).knowledge().packages[p as int].metadata.len() && old(self).knowledge().packages[p as int].metadata[c as int] is Unknown),
            !r ==> final(self).knowledge() == old(self).knowledge() && final(self).keys() == old(self).keys(),
            final(self).setback() == old(self).setback(),
            final(self).labelled(),
            !r ==> only_learned(old(self).engine(), final(self).engine()),
            r ==> recorded_in(old(self).engine(), final(self).engine(), p as int, c as int),
            forall|q: int|
                0 <= q < old(self).knowledge().packages.len() && q != p ==> #[trigger] final(self).knowledge().packages[q]
                    == old(self).knowledge().packages[q],
            forall|q: int|
                old(self).knowledge().packages.len() <= q < final(self).knowledge().packages.len() ==> (
                #[trigger] final(self).knowledge().packages[q]).candidates is None,
            final(self).keys() == match answer {
                Some(m) if r => interned(
                    old(self).keys(),
                    wants(old(self).keys()[p as int], old(self).knowledge().packages[p as int].candidates->0[c as int], m@),
                ),
                _ => old(self).keys(),
            },
            final(self).fetched() == match answer {
                Some(m) if r => old(self).fetched().push(
                    FetchedView { package: p as int, candidate: c as int, metadata: m@ },
                ),
                _ => old(self).fetched(),
            },
            r ==> {
                let was = old(self).knowledge().packages[p as int];
                let now = final(self).knowledge().packages[p as int];
                &&& now.candidates == was.candidates
                &&& now.metadata.len() == was.metadata.len()
                &&& forall|d: int| 0 <= d < was.metadata.len() && d != c ==> #[trigger] now.metadata[d] == was.metadata[d]
                &&& match answer {
                    None => now.metadata[c as int] is Unavailable,
                    Some(m) => {
                        let ws = wants(old(self).keys()[p as int], was.candidates->0[c as int], m@);
                        if exists|i: int| 0 <= i < ws.len() && (#[trigger] ws[i]).key == old(self).keys()[p as int] {
                            now.metadata[c as int] is Unavailable
                        } else {
                            now.metadata[c as int] matches MetadataView::Known(rs) && numbered(final(self).keys(), rs, ws)
                        }
                    },
                }
            },
    {
        proof {
            self.solver.lemma_inv_known();
        }
        let ghost was = self.solver.knowledge();
        let ghost decided = self.solver.decisions();
        let ghost keys = self.table@;
        let ghost start = self.solver;
        assert(was.wf());
        if self.solver.current_phase() != Phase::Propagating || p >= self.table.len() {
            return false;
        }
        assert(was.package_wf(p as int));
        match self.solver.known().candidate_count(p) {
            None => {
                return false;
            },
            Some(n) => {
                if c >= n {
                    return false;
                }
            },
        }
        if self.solver.known().metadata_kind(p, c) != MetadataKind::Unknown {
            return false;
        }
        match answer {
            None => {
                let r = self.solver.provide_metadata(p, c, None);
                proof {
                    lemma_same_selection(was, self.solver.knowledge(), decided);
                    assert(self.solver.decisions() =~= start.decisions() + Seq::new(0nat, |q: int| None::<usize>));
                    assert(self.solver.allowed() =~= start.allowed() + Seq::new(
                        0nat,
                        |q: int| crate::term::TermView::any(),
                    ));
                }
                r
            },
            Some(m) => {
                let wants = expand(self.table.key(p), self.solver.known().candidate(p, c), &m);
                let ghost ws = want_views(wants@);
                let reqs = number(&mut self.table, &wants);
                let ghost tbl = self.table@;
                proof {
                    assert(self.solver.decisions() =~= start.decisions() + Seq::new(0nat, |q: int| None::<usize>));
                    assert(self.solver.allowed() =~= start.allowed() + Seq::new(
                        0nat,
                        |q: int| crate::term::TermView::any(),
                    ));
                }
                while self.solver.package_count() < self.table.len()
                    invariant
                        self.solver.inv(),
                        self.table.wf(),
                        self.table@ == tbl,
                        self.solver.phase() == Phase::Propagating,
                        self.solver.knowledge().packages.len() <= self.table@.len(),
                        self.solver.knowledge().packages.len() >= was.packages.len(),
                        self.solver.knowledge().roots == was.roots,
                        self.solver.knowledge().prereleases == was.prereleases,
                        forall|q: int| 0 <= q < was.packages.len() ==> #[trigger] self.solver.knowledge().packages[q] == was.packages[q],
                        self.solver.decisions().len() == self.solver.knowledge().packages.len(),
                        forall|q: int| 0 <= q < decided.len() ==> #[trigger] self.solver.decisions()[q] == decided[q],
                        forall|q: int| decided.len() <= q < self.solver.decisions().len() ==> (#[trigger] self.solver.decisions()[q]) is None,
                        decided.len() == was.packages.len(),
                        self.solver.labels().len() == self.solver.knowledge().packages.len(),
                        forall|q: int|
                            0 <= q < self.solver.labels().len() ==> #[trigger] self.solver.labels()[q]
                                == tbl[q].label(),
                        self.fetched == old(self).fetched,
                        self.setback == old(self).setback,
                        forall|q: int|
                            was.packages.len() <= q < self.solver.knowledge().packages.len() ==> (
                            #[trigger] self.solver.knowledge().packages[q]).candidates is None,
                        start == old(self).solver,
                        was == start.knowledge(),
                        self.solver.assignments() == start.assignments(),
                        self.solver.level() == start.level(),
                        self.solver.incompatibilities() == start.incompatibilities(),
                        self.solver.causes() == start.causes(),
                        self.solver.decisions() == start.decisions() + Seq::new(
                            (self.solver.knowledge().packages.len() - was.packages.len()) as nat,
                            |q: int| None::<usize>,
                        ),
                        self.solver.allowed() == start.allowed() + Seq::new(
                            (self.solver.knowledge().packages.len() - was.packages.len()) as nat,
                            |q: int| crate::term::TermView::any(),
                        ),
                    decreases self.table@.len() - self.solver.knowledge().packages.len(),
                {
                    proof {
                        self.solver.lemma_inv_known();
                    }
                    let ghost count = self.solver.knowledge().packages.len() - was.packages.len();
                    let added = self.solver.add_package();
                    self.solver.name_package(added, self.table.key(added).label().as_str());
                    proof {
                        assert(self.solver.decisions() =~= start.decisions() + Seq::new(
                            (count + 1) as nat,
                            |q: int| None::<usize>,
                        ));
                        assert(self.solver.allowed() =~= start.allowed() + Seq::new(
                            (count + 1) as nat,
                            |q: int| crate::term::TermView::any(),
                        ));
                    }
                }
                let ghost mid = self.solver.knowledge();
                let ghost grown = self.solver.decisions();
                proof {
                    self.solver.lemma_inv_known();
                }
                let ghost views = requirement_views(reqs@);
                let r = self.solver.provide_metadata(p, c, Some(reqs));
                let ghost held = fetched_views(self.fetched@);
                let ghost value = m@;
                self.fetched.push(Fetched { package: p, candidate: c, metadata: m });
                assert(fetched_views(self.fetched@) =~= held.push(
                    FetchedView { package: p as int, candidate: c as int, metadata: value },
                ));
                proof {
                    let now = self.solver.knowledge();
                    let n = mid.packages.len() as int;
                    assert(mid.packages[p as int] == was.packages[p as int]);
                    assert(r);
                    assert forall|i: int| 0 <= i < views.len() implies views[i] == (#[trigger] reqs[i])@ by {}
                    let own = exists|i: int| 0 <= i < ws.len() && (#[trigger] ws[i]).key == keys[p as int];
                    let fine = forall|i: int| 0 <= i < reqs.len() ==> (#[trigger] reqs[i])@.package < n && reqs[i]@.package != p;
                    if own {
                        let i = choose|i: int| 0 <= i < ws.len() && (#[trigger] ws[i]).key == keys[p as int];
                        assert(views[i].package == p) by {
                            assert(self.table@[views[i].package] == ws[i].key);
                            assert(self.table@[p as int] == keys[p as int]);
                        }
                        assert(reqs[i]@.package == p);
                        assert(!fine);
                    } else {
                        assert forall|i: int| 0 <= i < reqs.len() implies (#[trigger] reqs[i])@.package < n && reqs[i]@.package != p by {
                            assert(views[i] == reqs[i]@);
                            if reqs[i]@.package == p {
                                assert(self.table@[p as int] == ws[i].key);
                                assert(self.table@[p as int] == keys[p as int]);
                            }
                        }
                        assert(fine);
                    }
                    assert(now.extends(was)) by {
                        assert forall|q: int|
                            #![trigger was.packages[q]]
                            0 <= q < was.packages.len() && was.packages[q].candidates is Some implies {
                                &&& now.packages[q].candidates == was.packages[q].candidates
                                &&& now.packages[q].metadata.len() == was.packages[q].metadata.len()
                                &&& forall|k: int|
                                    0 <= k < was.packages[q].metadata.len() && !(#[trigger] was.packages[q].metadata[k]
                                        is Unknown) ==> now.packages[q].metadata[k] == was.packages[q].metadata[k]
                            } by {
                            assert(mid.packages[q] == was.packages[q]);
                        }
                    }
                    let a = crate::solver::selection_of(was, decided);
                    let b = crate::solver::selection_of(now, grown);
                    assert forall|q: int| a.dom().contains(q) implies #[trigger] a[q] == b[q] by {
                        assert(decided[q] is Some);
                        assert(grown[q] == decided[q]);
                        assert(was.package_wf(q));
                        assert(mid.packages[q] == was.packages[q]);
                    }
                    assert forall|q: int| b.dom().contains(q) implies a.dom().contains(q) by {
                        if q >= decided.len() {
                            assert(grown[q] is None);
                        } else {
                            assert(grown[q] == decided[q]);
                        }
                    }
                    assert(a =~= b);
                }
                r
            },
        }
    }

    /// The candidate number that was decided for each package, if any.
    pub open spec fn decisions(&self) -> Seq<Option<usize>> {
        self.engine().decisions()
    }

    /// The links that the requirements given make from the place `from`.
    fn push_links(&self, out: &mut Vec<Link>, from: Option<usize>, place: &Vec<usize>, p: usize, c: usize)
        requires
            self.inv(),
            place.len() == self.keys().len(),
            forall|q: int| 0 <= q < place.len() ==> #[trigger] place[q] == place_of(self.decisions(), q),
            crate::solver::candidate_known(self.knowledge(), p as int, c as int),
        ensures
            link_views(final(out)@) == link_views(old(out)@) + links_of(
                self.decisions(),
                match from {
                    Some(f) => Some(f as int),
                    None => None,
                },
                self.knowledge().packages[p as int].metadata[c as int]->Known_0,
            ),
    {
        proof {
            self.solver.lemma_inv_known();
        }
        let ghost k = self.knowledge();
        assert(k.package_wf(p as int));
        let ghost rs = k.packages[p as int].metadata[c as int]->Known_0;
        let ghost before = link_views(out@);
        let ghost source = match from {
            Some(f) => Some(f as int),
            None => None,
        };
        let n = self.solver.known().dependency_count(p, c);
        let mut i: usize = 0;
        assert(link_views(out@) =~= before + links_of(self.decisions(), source, rs.take(0)));
        while i < n
            invariant
                i <= n,
                n == rs.len(),
                self.inv(),
                k == self.knowledge(),
                k.wf(),
                k.package_wf(p as int),
                crate::solver::candidate_known(k, p as int, c as int),
                rs == k.packages[p as int].metadata[c as int]->Known_0,
                place.len() == self.keys().len(),
                place.len() == k.packages.len(),
                forall|q: int| 0 <= q < place.len() ==> #[trigger] place[q] == place_of(self.decisions(), q),
                source == match from {
                    Some(f) => Some(f as int),
                    None => None,
                },
                link_views(out@) == before + links_of(self.decisions(), source, rs.take(i as int)),
            decreases n - i,
        {
            let dep = self.solver.known().dependency(p, c, i);
            assert(dep@ == rs[i as int]);
            let link = Link { from, to: place[dep.package()], tag: dep.tag().duplicate(), build: false };
            let ghost had = link_views(out@);
            out.push(link);
            proof {
                assert(link_views(out@) =~= had.push(link@));
                assert(rs.take(i + 1) =~= rs.take(i as int).push(rs[i as int]));
                assert(links_of(self.decisions(), source, rs.take(i + 1)) =~= links_of(
                    self.decisions(),
                    source,
                    rs.take(i as int),
                ).push(link@));
            }
            i += 1;
        }
        assert(rs.take(n as int) =~= rs);
    }

    /// What the run has settled so far: the decided packages in the order
    /// of their numbers, each with its version, and the links that the root
    /// requirements and the requirements of the decided candidates make
    /// between the places of the decided packages.
    pub fn plan(&self) -> (r: Plan)
        requires
            self.inv(),
        ensures
            choice_views(r.choices@) == choices_of(*self),
            r.choices.len() == chosen(self.decisions(), self.keys().len() as int).len(),
            forall|t: int|
                0 <= t < r.choices.len() ==> {
                    let p = chosen(self.decisions(), self.keys().len() as int)[t];
                    &&& (#[trigger] r.choices[t]).package == p
                    &&& 0 <= p < self.keys().len()
                    &&& r.choices[t].key@ == self.keys()[p]
                    &&& self.selection().dom().contains(p)
                    &&& r.choices[t].version@ == self.selection()[p]
                    &&& self.decisions()[p] == Some(r.choices[t].candidate)
                    &&& metadata_view(r.choices[t].metadata) == fetched_for(
                        self.fetched(),
                        p,
                        r.choices[t].candidate as int,
                    )
                },
            link_views(r.links@) == planned_links(self.knowledge(), self.decisions(), self.keys().len() as int),
    {
        proof {
            self.solver.lemma_inv_known();
        }
        let ghost k = self.knowledge();
        let ghost decided = self.decisions();
        let n = self.table.len();
        let mut place: Vec<usize> = Vec::new();
        let mut choices: Vec<Choice> = Vec::new();
        let mut p: usize = 0;
        while p < n
            invariant
                p <= n,
                self.inv(),
                k == self.knowledge(),
                decided == self.decisions(),
                n == self.keys().len(),
                n == k.packages.len(),
                n == decided.len(),
                place.len() == p,
                forall|q: int| 0 <= q < p ==> #[trigger] place[q] == place_of(decided, q),
                choices.len() == place_of(decided, p as int),
                choices.len() == chosen(decided, p as int).len(),
                forall|t: int|
                    0 <= t < choices.len() ==> {
                        let q = chosen(decided, p as int)[t];
                        &&& (#[trigger] choices[t]).package == q
                        &&& 0 <= q < p
                        &&& choices[t].key@ == self.keys()[q]
                        &&& self.selection().dom().contains(q)
                        &&& choices[t].version@ == self.selection()[q]
                        &&& decided[q] == Some(choices[t].candidate)
                        &&& metadata_view(choices[t].metadata) == fetched_for(
                            self.fetched(),
                            q,
                            choices[t].candidate as int,
                        )
                    },
            decreases n - p,
        {
            proof {
                lemma_place_bound(decided, p as int);
            }
            place.push(choices.len());
            match self.solver.decided_version(p) {
                Some(v) => {
                    let ghost had = choices@;
                    let c = match self.solver.decision(p) {
                        Some(c) => c,
                        None => vstd::pervasive::unreached(),
                    };
                    choices.push(
                        Choice {
                            package: p,
                            key: self.table.key(p).duplicate(),
                            candidate: c,
                            version: v.duplicate(),
                            metadata: find_fetched(&self.fetched, p, c),
                        },
                    );
                    proof {
                        assert(decided[p as int] is Some);
                        assert(chosen(decided, p + 1) == chosen(decided, p as int).push(p as int));
                        assert forall|t: int| 0 <= t < choices.len() implies {
                            let q = chosen(decided, p + 1)[t];
                            &&& (#[trigger] choices[t]).package == q
                            &&& 0 <= q < p + 1
                            &&& choices[t].key@ == self.keys()[q]
                            &&& self.selection().dom().contains(q)
                            &&& choices[t].version@ == self.selection()[q]
                            &&& decided[q] == Some(choices[t].candidate)
                            &&& metadata_view(choices[t].metadata) == fetched_for(
                                self.fetched(),
                                q,
                                choices[t].candidate as int,
                            )
                        } by {
                            if t < had.len() {
                                assert(choices[t] == had[t]);
                            }
                        }
                    }
                },
                None => {
                    assert(decided[p as int] is None);
                },
            }
            p += 1;
        }
        let mut links: Vec<Link> = Vec::new();
        let roots = self.solver.known().roots();
        let mut i: usize = 0;
        assert(link_views(links@) =~= links_of(decided, None, k.roots.take(0)));
        while i < roots.len()
            invariant
                i <= roots.len(),
                self.inv(),
                k == self.knowledge(),
                k.wf(),
                decided == self.decisions(),
                requirement_views(roots@) == k.roots,
                n == k.packages.len(),
                place.len() == n,
                forall|q: int| 0 <= q < n ==> #[trigger] place[q] == place_of(decided, q),
                link_views(links@) == links_of(decided, None, k.roots.take(i as int)),
            decreases roots.len() - i,
        {
            let root = &roots[i];
            assert(k.roots[i as int] == root@);
            let link = Link { from: None, to: place[root.package()], tag: root.tag().duplicate(), build: false };
            let ghost had = link_views(links@);
            links.push(link);
            proof {
                assert(link_views(links@) =~= had.push(link@));
                assert(k.roots.take(i + 1) =~= k.roots.take(i as int).push(k.roots[i as int]));
                assert(links_of(decided, None, k.roots.take(i + 1)) =~= links_of(
                    decided,
                    None,
                    k.roots.take(i as int),
                ).push(link@));
            }
            i += 1;
        }
        assert(k.roots.take(roots.len() as int) =~= k.roots);
        let mut q: usize = 0;
        while q < n
            invariant
                q <= n,
                self.inv(),
                k == self.knowledge(),
                decided == self.decisions(),
                n == self.keys().len(),
                n == k.packages.len(),
                n == decided.len(),
                place.len() == n,
                forall|x: int| 0 <= x < n ==> #[trigger] place[x] == place_of(decided, x),
                link_views(links@) == planned_links(k, decided, q as int),
            decreases n - q,
        {
            match self.solver.decision(q) {
                Some(c) => {
                    self.push_links(&mut links, Some(place[q]), &place, q, c);
                },
                None => {},
            }
            q += 1;
        }
        proof {
            let places = chosen(decided, n as int);
            assert forall|t: int| 0 <= t < choices.len() implies (#[trigger] choices[t])@ == choice_of(*self, places[t]) by {}
            assert(choice_views(choices@) =~= choices_of(*self));
        }
        Plan { choices, links }
    }

    /// Soundness of the graph that a plan makes: in a satisfied resolver,
    /// the link of every requirement that a decided candidate declares
    /// leads to the place of a decided package whose version is in the set
    /// that the requirement names.
    pub proof fn lemma_edges_sound(&self, p: int, i: int)
        requires
            self.inv(),
            self.phase() == Phase::Satisfied,
            0 <= p < self.decisions().len(),
            self.decisions()[p] is Some,
            0 <= i < self.knowledge().packages[p].metadata[self.decisions()[p]->0 as int]->Known_0.len(),
        ensures
            ({
                let r = self.knowledge().packages[p].metadata[self.decisions()[p]->0 as int]->Known_0[i];
                let places = chosen(self.decisions(), self.keys().len() as int);
                &&& self.selection().dom().contains(r.package)
                &&& r.versions.contains(self.selection()[r.package])
                &&& 0 <= place_of(self.decisions(), r.package) < places.len()
                &&& places[place_of(self.decisions(), r.package)] == r.package
            }),
    {
        self.solver.lemma_inv_known();
        self.solver.lemma_requirements_met(p, i);
        let r = self.knowledge().packages[p].metadata[self.decisions()[p]->0 as int]->Known_0[i];
        assert(self.selection().dom().contains(r.package));
        lemma_place_is_chosen(self.decisions(), self.keys().len() as int, r.package);
    }

    /// Soundness of the graph that a plan makes: in a satisfied resolver,
    /// the link of every root requirement leads to the place of a decided
    /// package whose version is in the set that the requirement names.
    pub proof fn lemma_root_edges_sound(&self, i: int)
        requires
            self.inv(),
            self.phase() == Phase::Satisfied,
            0 <= i < self.knowledge().roots.len(),
        ensures
            ({
                let r = self.knowledge().roots[i];
                let places = chosen(self.decisions(), self.keys().len() as int);
                &&& self.selection().dom().contains(r.package)
                &&& r.versions.contains(self.selection()[r.package])
                &&& 0 <= place_of(self.decisions(), r.package) < places.len()
                &&& places[place_of(self.decisions(), r.package)] == r.package
            }),
    {
        self.solver.lemma_inv_known();
        self.solver.lemma_roots_met(i);
        let r = self.knowledge().roots[i];
        assert(self.selection().dom().contains(r.package));
        lemma_place_is_chosen(self.decisions(), self.keys().len() as int, r.package);
    }

    /// Takes a candidate out of the run, for a reason that the solver did
    /// not find itself: every decision is undone, the candidate is recorded
    /// as unusable, and the solver propagates anew. Nothing changes, and
    /// the answer is `false`, where the solver has found that there is no
    /// solution, or where there is no such candidate.
    pub fn exclude(&mut self, p: usize, c: usize) -> (r: bool)
        requires
            old(self).inv(),
        ensures
            final(self).inv(),
            final(self).keys() == old(self).keys(),
            final(self).fetched() == old(self).fetched(),
            final(self).setback() == old(self).setback(),
            final(self).labelled(),
            !r ==> only_learned(old(self).engine(), final(self).engine()),
            r ==> crate::solver::cut_back(old(self).engine(), final(self).engine(), 0) && crate::solver::held_one(
                old(self).engine(),
                final(self).engine(),
                crate::solver::lone(
                    p as int,
                    crate::solver::exactly(old(self).knowledge().packages[p as int].candidates->0[c as int]),
                ),
                crate::incompatibility::Cause::Unavailable { package: p, candidate: c },
            ),
            r == (old(self).phase() != Phase::Unsatisfiable && p < old(self).knowledge().packages.len() && c < old(self).knowledge().packages[p as int].metadata.len()),
            !r ==> final(self).knowledge() == old(self).knowledge() && final(self).phase() == old(self).phase()
                && final(self).decisions() == old(self).decisions(),
            r ==> {
                let was = old(self).knowledge();
                let now = final(self).knowledge();
                &&& final(self).phase() == Phase::Propagating
                &&& now.bars(was)
                &&& forall|q: int| 0 <= q < was.packages.len() && q != p ==> #[trigger] now.packages[q] == was.packages[q]
                &&& now.packages[p as int].metadata == was.packages[p as int].metadata.update(
                    c as int,
                    MetadataView::Unavailable,
                )
                &&& forall|q: int| 0 <= q < final(self).decisions().len() ==> (#[trigger] final(self).decisions()[q]) is None
            },
    {
        self.solver.exclude(p, c)
    }

    /// Tells the resolver that no artifact could be selected for the
    /// version that was decided for package `p`. Where the solver has not
    /// failed and a version is decided for the package, that candidate is
    /// taken out as `exclude` does, the failure is remembered, and the
    /// answer is `true`: the run goes on with what is left. Else nothing
    /// changes and the answer is `false`: the failure ends the run.
    pub fn selection_failed(&mut self, p: usize, failure: SelectionError) -> (r: bool)
        requires
            old(self).inv(),
        ensures
            final(self).inv(),
            final(self).keys() == old(self).keys(),
            final(self).fetched() == old(self).fetched(),
            final(self).labelled(),
            !r ==> only_learned(old(self).engine(), final(self).engine()),
            r ==> crate::solver::cut_back(old(self).engine(), final(self).engine(), 0) && crate::solver::held_one(
                old(self).engine(),
                final(self).engine(),
                crate::solver::lone(
                    p as int,
                    crate::solver::exactly(
                        old(self).knowledge().packages[p as int].candidates->0[old(self).decisions()[p as int]->0 as int],
                    ),
                ),
                crate::incompatibility::Cause::Unavailable { package: p, candidate: old(self).decisions()[p as int]->0 },
            ),
            r == (old(self).phase() != Phase::Unsatisfiable && p < old(self).decisions().len() && old(
                self,
            ).decisions()[p as int] is Some),
            !r ==> final(self).knowledge() == old(self).knowledge() && final(self).phase() == old(self).phase()
                && final(self).decisions() == old(self).decisions() && final(self).setback() == old(self).setback(),
            r ==> {
                let was = old(self).knowledge();
                let now = final(self).knowledge();
                let c = old(self).decisions()[p as int]->0;
                &&& final(self).setback() == Some(failure)
                &&& final(self).phase() == Phase::Propagating
                &&& now.bars(was)
                &&& forall|q: int| 0 <= q < was.packages.len() && q != p ==> #[trigger] now.packages[q] == was.packages[q]
                &&& now.packages[p as int].metadata == was.packages[p as int].metadata.update(
                    c as int,
                    MetadataView::Unavailable,
                )
                &&& forall|q: int| 0 <= q < final(self).decisions().len() ==> (#[trigger] final(self).decisions()[q]) is None
            },
    {
        proof {
            self.solver.lemma_inv_known();
            if p < self.decisions().len() && self.decisions()[p as int] is Some {
                assert(self.knowledge().package_wf(p as int));
            }
        }
        match self.solver.decision(p) {
            Some(c) => {
                if self.solver.exclude(p, c) {
                    self.setback = Some(failure);
                    true
                } else {
                    false
                }
            },
            None => false,
        }
    }

    /// What a run that ended without a solution is to report: the selection
    /// failure that last took a candidate out of the run, where one did;
    /// else that the requirements have no solution.
    pub fn report(&self) -> (r: Report)
        ensures
            r == match self.setback() {
                Some(failure) => Report::Selection(failure),
                None => Report::NoSolution,
            },
    {
        match self.setback {
            Some(failure) => Report::Selection(failure),
            None => Report::NoSolution,
        }
    }
}

/// Whether the resolver is as it is made for these root requirements:
/// the packages that the requirements name are in the table, in their
/// order; the roots are the requirements on the numbered packages; nothing
/// is known of any package, nothing was fetched, and the solver has only
/// begun.
pub open spec fn made_from(r: Resolver, roots: Seq<crate::metadata::DeclaredView>, prereleases: bool) -> bool {
    let ws = wants_of_all(roots, TagView::Plain);
    &&& r.inv()
    &&& r.labelled()
    &&& r.phase() == Phase::Propagating
    &&& r.knowledge().prereleases == prereleases
    &&& r.keys() == interned(Seq::empty(), ws)
    &&& numbered(r.keys(), r.knowledge().roots, ws)
    &&& r.knowledge().packages.len() == r.keys().len()
    &&& forall|p: int| 0 <= p < r.keys().len() ==> (#[trigger] r.knowledge().packages[p]).candidates is None
    &&& r.fetched() == Seq::<FetchedView>::empty()
    &&& r.setback() is None
    &&& begun(r.engine())
}

/// A decided package stands at its place among the decided packages.
pub proof fn lemma_place_is_chosen(decided: Seq<Option<usize>>, upto: int, q: int)
    requires
        0 <= q < upto <= decided.len(),
        decided[q] is Some,
    ensures
        0 <= place_of(decided, q) < chosen(decided, upto).len(),
        chosen(decided, upto)[place_of(decided, q)] == q,
    decreases upto,
{
    lemma_place_bound(decided, q);
    lemma_place_bound(decided, upto - 1);
    if q < upto - 1 {
        lemma_place_is_chosen(decided, upto - 1, q);
    }
}

/// The decisions stand for the same selection once more is known.
proof fn lemma_same_selection(was: KnowledgeView, now: KnowledgeView, decided: Seq<Option<usize>>)
    requires
        was.wf(),
        now.extends(was),
        crate::solver::decisions_ok(was, decided),
    ensures
        crate::solver::selection_of(now, decided) == crate::solver::selection_of(was, decided),
{
    let a = crate::solver::selection_of(was, decided);
    let b = crate::solver::selection_of(now, decided);
    assert forall|p: int| a.dom().contains(p) implies #[trigger] a[p] == b[p] by {
        assert(decided[p] is Some);
        assert(was.package_wf(p));
        assert(now.packages[p].candidates == was.packages[p].candidates);
    }
    assert(a =~= b);
}

} // verus!
