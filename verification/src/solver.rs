//! The version solver: a state machine that narrows what each package may be
//! by unit propagation, learns an incompatibility from every conflict, jumps
//! back to the decision that the learned incompatibility blames, and decides
//! versions latest first.
//!
//! The solver never fetches anything. Where it needs the candidates of a
//! package or the metadata of a candidate it says so, and goes on once the
//! answer has been handed to it.

use crate::incompatibility::{
    lemma_resolvent_sound, says_nothing, term_views, Cause, Incompatibility, Selection,
};
use crate::knowledge::{
    lemma_dependency_entailed, lemma_entails_persists, lemma_no_versions_entailed, lemma_root_entailed, recorded,
    requirement_views, unmet_term, version_views, Knowledge, KnowledgeView, MetadataKind, MetadataView, Requirement,
};
use crate::names::{precedes, text_before};
use crate::reach::{is_walk, linked, reached_from, reaches, search};
use crate::term::{Term, TermView};
use crate::version::{is_version, version_same, Version};
use crate::version_set::VersionSet;
use vstd::prelude::*;

verus! {

/// Where the solver stands.
#[derive(Debug, Clone, Copy, PartialEq, Eq, Structural)]
pub enum Phase {
    /// Narrowing what the packages may be, and deciding where nothing more
    /// follows.
    Propagating,
    /// The partial solution is in a state that an incompatibility forbids.
    ConflictFound { incompatibility: usize },
    /// A learned incompatibility blames a decision: everything above
    /// `level` is about to be undone.
    Backtracking { level: usize },
    /// Every package that is required has a version, and all requirements
    /// are met.
    Satisfied,
    /// No selection meets the requirements.
    Unsatisfiable,
}

/// Where an assignment comes from.
#[derive(Debug, Clone, Copy, PartialEq, Eq, Structural)]
pub enum Origin {
    /// The solver chose this candidate.
    Decision { candidate: usize },
    /// It follows from this incompatibility.
    Derivation { cause: usize },
}

/// One entry of the log: a term that holds of a package from here on.
#[derive(Debug)]
pub struct Assignment {
    package: usize,
    term: Term,
    level: usize,
    origin: Origin,
}

/// The version solver.
#[derive(Debug)]
pub struct Solver {
    knowledge: Knowledge,
    store: Vec<Incompatibility>,
    log: Vec<Assignment>,
    allowed: Vec<Term>,
    decided: Vec<Option<usize>>,
    labels: Vec<String>,
    level: usize,
    phase: Phase,
}

/// The selection that a list of decisions stands for.
pub open spec fn selection_of(k: KnowledgeView, decided: Seq<Option<usize>>) -> Selection {
    Map::new(
        |p: int| 0 <= p < decided.len() && decided[p] is Some,
        |p: int| k.packages[p].candidates->0[decided[p]->0 as int],
    )
}

/// Each decision names a candidate whose metadata is known.
pub open spec fn decisions_ok(k: KnowledgeView, decided: Seq<Option<usize>>) -> bool {
    &&& decided.len() == k.packages.len()
    &&& forall|p: int|
        0 <= p < decided.len() && (#[trigger] decided[p]) is Some ==> candidate_known(k, p, decided[p]->0 as int)
}

/// Package `p` has a candidate of number `c` whose metadata is known.
pub open spec fn candidate_known(k: KnowledgeView, p: int, c: int) -> bool {
    &&& 0 <= p < k.packages.len()
    &&& k.packages[p].candidates is Some
    &&& 0 <= c < k.packages[p].candidates->0.len()
    &&& k.packages[p].metadata[c] is Known
}

/// Every incompatibility held is entailed by what is known, speaks of
/// packages of the table only, and where it is a resolvent names two earlier
/// ones.
pub closed spec fn store_ok(k: KnowledgeView, store: Seq<Incompatibility>) -> bool {
    forall|i: int|
        0 <= i < store.len() ==> {
            &&& (#[trigger] store[i]).wf()
            &&& store[i]@.terms.len() <= k.packages.len()
            &&& k.entails(store[i]@.terms)
            &&& store[i]@.cause matches Cause::Derived { left, right } ==> left < i && right < i
        }
}

/// The log names packages of the table, candidates whose metadata is known
/// and incompatibilities that are held, and its levels do not fall.
pub closed spec fn log_ok(k: KnowledgeView, held: int, level: int, log: Seq<Assignment>) -> bool {
    &&& forall|j: int|
        0 <= j < log.len() ==> {
            &&& (#[trigger] log[j]).package < k.packages.len()
            &&& log[j].term.wf()
            &&& log[j].level <= level
            &&& log[j].level <= j + 1
            &&& match log[j].origin {
                Origin::Decision { candidate } => log[j].level >= 1 && candidate_known(
                    k,
                    log[j].package as int,
                    candidate as int,
                ),
                Origin::Derivation { cause } => cause < held,
            }
        }
    &&& forall|i: int, j: int| 0 <= i <= j < log.len() ==> (#[trigger] log[i]).level <= (#[trigger] log[j]).level
    &&& level <= log.len()
}

/// There is one term for each package of the table.
pub closed spec fn allowed_ok(k: KnowledgeView, allowed: Seq<Term>) -> bool {
    &&& allowed.len() == k.packages.len()
    &&& forall|p: int| 0 <= p < allowed.len() ==> (#[trigger] allowed[p]).wf()
}

/// What a phase claims.
pub open spec fn phase_ok(k: KnowledgeView, held: int, level: int, decided: Seq<Option<usize>>, phase: Phase) -> bool {
    match phase {
        Phase::Propagating => true,
        Phase::ConflictFound { incompatibility } => incompatibility < held,
        Phase::Backtracking { level: target } => target <= level,
        Phase::Satisfied => k.solved_by(selection_of(k, decided)),
        Phase::Unsatisfiable => forall|sel: Selection| !k.possible(sel),
    }
}

/// What is held stays entailed once more is known.
proof fn lemma_store_extends(earlier: KnowledgeView, later: KnowledgeView, store: Seq<Incompatibility>)
    requires
        earlier.wf(),
        later.extends(earlier),
        store_ok(earlier, store),
    ensures
        store_ok(later, store),
{
    assert forall|i: int| 0 <= i < store.len() implies later.entails((#[trigger] store[i])@.terms) by {
        lemma_entails_persists(later, earlier, store[i]@.terms);
    }
}

/// A candidate whose metadata is known stays so once more is known.
proof fn lemma_candidate_extends(earlier: KnowledgeView, later: KnowledgeView, p: int, c: int)
    requires
        earlier.wf(),
        later.extends(earlier),
        candidate_known(earlier, p, c),
    ensures
        candidate_known(later, p, c),
        later.packages[p].candidates == earlier.packages[p].candidates,
{
    assert(earlier.package_wf(p));
    assert(later.packages[p].candidates == earlier.packages[p].candidates);
    assert(later.packages[p].metadata[c] == earlier.packages[p].metadata[c]);
}

/// The log stays in order once more is known and more is held.
proof fn lemma_log_extends(
    earlier: KnowledgeView,
    later: KnowledgeView,
    held: int,
    more: int,
    level: int,
    log: Seq<Assignment>,
)
    requires
        earlier.wf(),
        later.extends(earlier),
        held <= more,
        log_ok(earlier, held, level, log),
    ensures
        log_ok(later, more, level, log),
{
    assert forall|j: int| 0 <= j < log.len() implies match (#[trigger] log[j]).origin {
        Origin::Decision { candidate } => log[j].level >= 1 && candidate_known(
            later,
            log[j].package as int,
            candidate as int,
        ),
        Origin::Derivation { cause } => cause < more,
    } by {
        if let Origin::Decision { candidate } = log[j].origin {
            lemma_candidate_extends(earlier, later, log[j].package as int, candidate as int);
        }
    }
}

/// How a pass of unit propagation ended.
#[derive(Debug, Clone, Copy, PartialEq, Eq, Structural)]
pub enum Pass {
    /// The partial solution satisfies every term of this incompatibility.
    Conflict { incompatibility: usize },
    /// Some package was narrowed: another pass may find more.
    Narrowed,
    /// Nothing follows from what is held.
    Settled,
}

/// Of the candidates of a package, only the one of number `c` is in a set
/// that holds the versions that are the same as it.
proof fn lemma_only_candidate(k: KnowledgeView, p: int, c: int, set: crate::version_set::VersionSetView)
    requires
        k.wf(),
        0 <= p < k.packages.len(),
        k.packages[p].candidates is Some,
        0 <= c < k.packages[p].candidates->0.len(),
        k.packages[p].metadata[c] is Unavailable,
        forall|x: Seq<char>|
            is_version(x) ==> (#[trigger] set.contains(x) <==> version_same(k.packages[p].candidates->0[c], x)),
    ensures
        forall|d: int|
            0 <= d < k.packages[p].candidates->0.len() && set.contains(#[trigger] k.packages[p].candidates->0[d])
                ==> k.packages[p].metadata[d] is Unavailable,
{
    assert(k.package_wf(p));
    let cs = k.packages[p].candidates->0;
    assert forall|d: int| 0 <= d < cs.len() && set.contains(#[trigger] cs[d]) implies k.packages[p].metadata[d]
        is Unavailable by {
        assert(is_version(cs[d]));
        assert(version_same(cs[c], cs[d]));
        assert(d == c);
    }
}

/// A selection that solved what was known solves what is known once more
/// packages are in the table.
proof fn lemma_solved_extends(
    earlier: KnowledgeView,
    later: KnowledgeView,
    decided: Seq<Option<usize>>,
    longer: Seq<Option<usize>>,
)
    requires
        earlier.wf(),
        later.extends(earlier),
        decisions_ok(earlier, decided),
        longer.len() >= decided.len(),
        forall|p: int| 0 <= p < decided.len() ==> longer[p] == decided[p],
        forall|p: int| decided.len() <= p < longer.len() ==> longer[p] is None,
        earlier.solved_by(selection_of(earlier, decided)),
    ensures
        later.solved_by(selection_of(later, longer)),
{
    let a = selection_of(earlier, decided);
    let b = selection_of(later, longer);
    assert forall|p: int| #[trigger] b.dom().contains(p) implies a.dom().contains(p) && b[p] == a[p] by {
        assert(decided[p] is Some);
        lemma_candidate_extends(earlier, later, p, decided[p]->0 as int);
    }
    assert(a.dom() =~= b.dom());
    assert(a =~= b);
    assert forall|p: int| #![trigger a.dom().contains(p)] a.dom().contains(p) implies {
        &&& 0 <= p < later.packages.len()
        &&& later.packages[p].candidates is Some
        &&& crate::knowledge::listed(later.packages[p].candidates->0, a[p])
        &&& forall|k: int|
            0 <= k < later.packages[p].candidates->0.len() && #[trigger] later.packages[p].candidates->0[k] == a[p]
                ==> later.packages[p].metadata[k] is Known && crate::knowledge::metadata_allows(
                later.packages[p].metadata[k],
                a,
            )
    } by {
        assert(earlier.package_wf(p));
        assert(later.packages[p].candidates == earlier.packages[p].candidates);
        assert forall|k: int|
            0 <= k < later.packages[p].candidates->0.len() && #[trigger] later.packages[p].candidates->0[k] == a[p]
            implies later.packages[p].metadata[k] is Known && crate::knowledge::metadata_allows(
            later.packages[p].metadata[k],
            a,
        ) by {
            assert(earlier.packages[p].metadata[k] is Known);
            assert(later.packages[p].metadata[k] == earlier.packages[p].metadata[k]);
        }
    }
}

/// What the solver asks of its caller after a step.
#[derive(Debug, Clone, Copy, PartialEq, Eq, Structural)]
pub enum Action {
    /// Nothing: take the next step.
    Continue,
    /// This candidate was decided for this package: take the next step.
    Decided { package: usize, candidate: usize },
    /// List the candidates of this package, hand them over, and go on.
    NeedCandidates { package: usize },
    /// Fetch the metadata of this candidate, hand it over, and go on.
    NeedMetadata { package: usize, candidate: usize },
    /// The decisions are a solution.
    Done,
    /// There is no solution.
    Failed,
}

/// Whether the candidate of number `c` of package `p` may be decided under
/// the term `allowed`: the term allows its version, and its metadata is not
/// known to be unavailable.
pub open spec fn admitted(k: KnowledgeView, allowed: TermView, p: int, c: int) -> bool {
    allowed.versions.contains(k.packages[p].candidates->0[c]) && !(k.packages[p].metadata[c] is Unavailable)
}

/// Decisions that meet the roots and the requirements of every decided
/// candidate are a solution.
proof fn lemma_decisions_solve(k: KnowledgeView, decided: Seq<Option<usize>>)
    requires
        k.wf(),
        decisions_ok(k, decided),
        crate::knowledge::requirements_met(k.roots, selection_of(k, decided)),
        forall|q: int|
            0 <= q < decided.len() && (#[trigger] decided[q]) is Some ==> crate::knowledge::requirements_met(
                k.packages[q].metadata[decided[q]->0 as int]->Known_0,
                selection_of(k, decided),
            ),
    ensures
        k.solved_by(selection_of(k, decided)),
{
    let sel = selection_of(k, decided);
    assert forall|p: int| sel.dom().contains(p) implies is_version(#[trigger] sel[p]) by {
        assert(decided[p] is Some);
        assert(k.package_wf(p));
    }
    assert forall|p: int| #![trigger sel.dom().contains(p)] sel.dom().contains(p) implies {
        &&& 0 <= p < k.packages.len()
        &&& k.packages[p].candidates is Some
        &&& crate::knowledge::listed(k.packages[p].candidates->0, sel[p])
        &&& forall|c: int|
            0 <= c < k.packages[p].candidates->0.len() && #[trigger] k.packages[p].candidates->0[c] == sel[p]
                ==> k.packages[p].metadata[c] is Known && crate::knowledge::metadata_allows(
                k.packages[p].metadata[c],
                sel,
            )
    } by {
        assert(decided[p] is Some);
        let mine = decided[p]->0 as int;
        let cs = k.packages[p].candidates->0;
        assert(k.package_wf(p));
        assert(cs[mine] == sel[p]);
        assert forall|c: int| 0 <= c < cs.len() && #[trigger] cs[c] == sel[p] implies k.packages[p].metadata[c]
            is Known && crate::knowledge::metadata_allows(k.packages[p].metadata[c], sel) by {
            assert(is_version(cs[mine]));
            assert(version_same(cs[c], cs[mine]));
            assert(c == mine);
        }
    }
}

/// Which phase may follow which.
pub open spec fn may_follow(before: Phase, after: Phase) -> bool {
    match before {
        Phase::Propagating => after == Phase::Propagating || after is ConflictFound || after == Phase::Satisfied,
        Phase::ConflictFound { .. } => after is Backtracking || after == Phase::Unsatisfiable,
        Phase::Backtracking { .. } => after == Phase::Propagating,
        Phase::Satisfied => after == Phase::Satisfied,
        Phase::Unsatisfiable => after == Phase::Unsatisfiable,
    }
}

/// What an action says of the state it is handed out in.
pub open spec fn action_fits(k: KnowledgeView, phase: Phase, action: Action) -> bool {
    match action {
        Action::Continue => phase != Phase::Satisfied && phase != Phase::Unsatisfiable,
        Action::Decided { package, candidate } => phase == Phase::Propagating && candidate_known(
            k,
            package as int,
            candidate as int,
        ),
        Action::NeedCandidates { package } => {
            &&& phase == Phase::Propagating
            &&& package < k.packages.len()
            &&& k.packages[package as int].candidates is None
        },
        Action::NeedMetadata { package, candidate } => {
            &&& phase == Phase::Propagating
            &&& package < k.packages.len()
            &&& k.packages[package as int].candidates is Some
            &&& candidate < k.packages[package as int].candidates->0.len()
            &&& candidate < k.packages[package as int].metadata.len()
            &&& k.packages[package as int].metadata[candidate as int] is Unknown
        },
        Action::Done => phase == Phase::Satisfied,
        Action::Failed => phase == Phase::Unsatisfiable,
    }
}

/// The links from each resolvent to the two incompatibilities it was
/// resolved from.
pub open spec fn derivations(causes: Seq<Cause>) -> Seq<(usize, usize)>
    decreases causes.len(),
{
    if causes.len() == 0 {
        Seq::empty()
    } else {
        let rest = derivations(causes.drop_last());
        match causes.last() {
            Cause::Derived { left, right } => rest.push(((causes.len() - 1) as usize, left)).push(
                ((causes.len() - 1) as usize, right),
            ),
            _ => rest,
        }
    }
}

/// Whether the incompatibility of number `i` is on the trail of the one of
/// number `last`: it is that one, or one on the trail was resolved from it.
pub open spec fn on_trail(causes: Seq<Cause>, last: int, i: int) -> bool {
    reaches(causes.len() as int, derivations(causes), last, i)
}

/// Each derivation leads from a resolvent to an earlier incompatibility.
proof fn lemma_derivations_fall(causes: Seq<Cause>, e: int)
    requires
        causes.len() <= usize::MAX,
        forall|j: int|
            0 <= j < causes.len() ==> (#[trigger] causes[j] matches Cause::Derived { left, right } ==> left < j
                && right < j),
        0 <= e < derivations(causes).len(),
    ensures
        derivations(causes)[e].1 < derivations(causes)[e].0 < causes.len(),
    decreases causes.len(),
{
    if causes.len() > 0 {
        let rest = derivations(causes.drop_last());
        assert forall|j: int| 0 <= j < causes.drop_last().len() implies (#[trigger] causes.drop_last()[j] matches Cause::Derived {
            left,
            right,
        } ==> left < j && right < j) by {
            assert(causes.drop_last()[j] == causes[j]);
        }
        if e < rest.len() {
            lemma_derivations_fall(causes.drop_last(), e);
            match causes.last() {
                Cause::Derived { left, right } => {
                    assert(derivations(causes)[e] == rest[e]);
                },
                _ => {},
            }
        } else {
            assert(causes[causes.len() - 1] == causes.last());
        }
    }
}

/// What is on the trail of an incompatibility is not after it.
pub proof fn lemma_trail_before(causes: Seq<Cause>, last: int, i: int)
    requires
        causes.len() <= usize::MAX,
        forall|j: int|
            0 <= j < causes.len() ==> (#[trigger] causes[j] matches Cause::Derived { left, right } ==> left < j
                && right < j),
        on_trail(causes, last, i),
    ensures
        0 <= i <= last < causes.len(),
{
    let n = causes.len() as int;
    let links = derivations(causes);
    let w = choose|w: Seq<int>| is_walk(n, links, w) && w.first() == last && w.last() == i;
    lemma_walk_falls(causes, w, w.len() - 1);
}

/// Along a walk over derivations the numbers do not rise.
proof fn lemma_walk_falls(causes: Seq<Cause>, w: Seq<int>, k: int)
    requires
        causes.len() <= usize::MAX,
        forall|j: int|
            0 <= j < causes.len() ==> (#[trigger] causes[j] matches Cause::Derived { left, right } ==> left < j
                && right < j),
        is_walk(causes.len() as int, derivations(causes), w),
        0 <= k < w.len(),
    ensures
        0 <= w[k] <= w[0] < causes.len(),
    decreases k,
{
    if k > 0 {
        lemma_walk_falls(causes, w, k - 1);
        let links = derivations(causes);
        assert(linked(causes.len() as int, links, w[k - 1], w[k - 1 + 1]));
        let e = choose|e: int| 0 <= e < links.len() && (#[trigger] links[e]).0 == w[k - 1] && links[e].1 == w[k];
        lemma_derivations_fall(causes, e);
    }
}

/// Where one list of incompatibilities begins another, so do their terms
/// and their causes.
proof fn lemma_views_prefix(a: Seq<Incompatibility>, b: Seq<Incompatibility>)
    requires
        a.is_prefix_of(b),
    ensures
        Seq::new(a.len(), |i: int| a[i]@.terms).is_prefix_of(Seq::new(b.len(), |i: int| b[i]@.terms)),
        Seq::new(a.len(), |i: int| a[i]@.cause).is_prefix_of(Seq::new(b.len(), |i: int| b[i]@.cause)),
{
    let ta = Seq::new(a.len(), |i: int| a[i]@.terms);
    let tb = Seq::new(b.len(), |i: int| b[i]@.terms);
    let ca = Seq::new(a.len(), |i: int| a[i]@.cause);
    let cb = Seq::new(b.len(), |i: int| b[i]@.cause);
    assert(a =~= b.subrange(0, a.len() as int));
    assert(ta =~= tb.subrange(0, ta.len() as int)) by {
        assert forall|i: int| 0 <= i < ta.len() implies ta[i] == tb[i] by {
            assert(a[i] == b.subrange(0, a.len() as int)[i]);
        }
    }
    assert(ca =~= cb.subrange(0, ca.len() as int)) by {
        assert forall|i: int| 0 <= i < ca.len() implies ca[i] == cb[i] by {
            assert(a[i] == b.subrange(0, a.len() as int)[i]);
        }
    }
}

/// Whether package `p` is required and has no decision yet.
pub open spec fn is_pending(allowed: Seq<TermView>, decided: Seq<Option<usize>>, p: int) -> bool {
    0 <= p < allowed.len() && p < decided.len() && !allowed[p].absent && decided[p] is None
}

/// How many of the first `upto` candidates of package `p` may be decided
/// under the term `t`.
pub open spec fn admitted_count(k: KnowledgeView, t: TermView, p: int, upto: int) -> int
    decreases upto,
{
    if upto <= 0 {
        0
    } else {
        admitted_count(k, t, p, upto - 1) + if admitted(k, t, p, upto - 1) {
            1int
        } else {
            0int
        }
    }
}

/// How many candidates of package `p` are left to decide from.
pub open spec fn candidates_left(k: KnowledgeView, allowed: Seq<TermView>, p: int) -> int {
    admitted_count(k, allowed[p], p, k.packages[p].candidates->0.len() as int)
}

/// Whether package `p` is to be decided no later than package `q`: it has
/// fewer candidates left; or as many, and its name comes first; or as many
/// and the same name, and its number is not the higher.
pub open spec fn goes_first(k: KnowledgeView, allowed: Seq<TermView>, labels: Seq<Seq<char>>, p: int, q: int) -> bool {
    let a = candidates_left(k, allowed, p);
    let b = candidates_left(k, allowed, q);
    a < b || (a == b && (text_before(labels[p], labels[q]) || (labels[p] == labels[q] && p <= q)))
}

/// Whether package `p` is the one to decide next: it is pending, and goes
/// before every other pending package.
pub open spec fn is_choice(
    k: KnowledgeView,
    allowed: Seq<TermView>,
    decided: Seq<Option<usize>>,
    labels: Seq<Seq<char>>,
    p: int,
) -> bool {
    &&& is_pending(allowed, decided, p)
    &&& forall|q: int| is_pending(allowed, decided, q) ==> #[trigger] goes_first(k, allowed, labels, p, q)
}

/// Whether the candidate of number `c` is the highest of package `p` that
/// may be decided under the term `t`.
pub open spec fn is_highest(k: KnowledgeView, t: TermView, p: int, c: int) -> bool {
    &&& 0 <= c < k.packages[p].candidates->0.len()
    &&& admitted(k, t, p, c)
    &&& forall|d: int| c < d < k.packages[p].candidates->0.len() ==> !admitted(k, t, p, d)
}

/// Going first is transitive.
proof fn lemma_goes_first_trans(k: KnowledgeView, allowed: Seq<TermView>, labels: Seq<Seq<char>>, p: int, q: int, r: int)
    requires
        goes_first(k, allowed, labels, p, q),
        goes_first(k, allowed, labels, q, r),
    ensures
        goes_first(k, allowed, labels, p, r),
{
    let a = candidates_left(k, allowed, p);
    let b = candidates_left(k, allowed, q);
    let c = candidates_left(k, allowed, r);
    if a == b && b == c {
        if text_before(labels[p], labels[q]) && text_before(labels[q], labels[r]) {
            crate::names::lemma_text_before_trans(labels[p], labels[q], labels[r]);
        }
    }
}

/// The decision is determined by the state: one package only is the one
/// to decide next, and one candidate only is its highest that may be
/// decided.
pub proof fn lemma_decision_determined(
    k: KnowledgeView,
    allowed: Seq<TermView>,
    decided: Seq<Option<usize>>,
    labels: Seq<Seq<char>>,
    p: int,
    c: int,
    q: int,
    d: int,
)
    requires
        is_choice(k, allowed, decided, labels, p),
        is_choice(k, allowed, decided, labels, q),
        is_highest(k, allowed[p], p, c),
        is_highest(k, allowed[q], q, d),
    ensures
        p == q,
        c == d,
{
    assert(goes_first(k, allowed, labels, p, q));
    assert(goes_first(k, allowed, labels, q, p));
    crate::names::lemma_text_order(labels[p], labels[q]);
    assert(p == q);
    if c < d {
        assert(!admitted(k, allowed[p], p, d));
    } else if d < c {
        assert(!admitted(k, allowed[p], p, c));
    }
}

/// Whether the selection has each decided package at the candidate decided.
pub open spec fn agrees(k: KnowledgeView, decided: Seq<Option<usize>>, sel: Selection) -> bool {
    forall|p: int|
        0 <= p < decided.len() && (#[trigger] decided[p]) is Some ==> sel.dom().contains(p) && sel[p]
            == k.packages[p].candidates->0[decided[p]->0 as int]
}

/// Whether the selection has each package that one of the first `upto`
/// entries of the log decides at the candidate decided.
pub closed spec fn agrees_with_log(k: KnowledgeView, log: Seq<Assignment>, upto: int, sel: Selection) -> bool {
    forall|j: int|
        0 <= j < upto && j < log.len() && (#[trigger] log[j]).origin is Decision ==> sel.dom().contains(
            log[j].package as int,
        ) && sel[log[j].package as int] == k.packages[log[j].package as int].candidates->0[log[j].origin->candidate as int]
}

/// Each entry of the log is justified: every possible selection that
/// agrees with the decisions up to the entry has the package of the entry
/// in a state that its term allows.
pub closed spec fn log_sound(k: KnowledgeView, log: Seq<Assignment>) -> bool {
    forall|j: int, sel: Selection|
        0 <= j < log.len() && #[trigger] k.possible(sel) && agrees_with_log(k, log, j + 1, sel) ==> (#[trigger] log[j]).term@.holds(
            crate::incompatibility::state_of(sel, log[j].package as int),
        )
}

/// The narrowing is justified: every possible selection that agrees with
/// the decisions of the log has each package in a state that its term
/// allows.
pub closed spec fn allowed_sound(k: KnowledgeView, log: Seq<Assignment>, allowed: Seq<Term>) -> bool {
    forall|sel: Selection, p: int|
        #[trigger] k.possible(sel) && agrees_with_log(k, log, log.len() as int, sel) && 0 <= p < allowed.len()
            ==> (#[trigger] allowed[p])@.holds(crate::incompatibility::state_of(sel, p))
}

/// Each decision of the log is among the decisions.
pub closed spec fn decisions_logged(log: Seq<Assignment>, decided: Seq<Option<usize>>) -> bool {
    forall|j: int|
        0 <= j < log.len() && (#[trigger] log[j]).origin is Decision ==> log[j].package < decided.len()
            && decided[log[j].package as int] == Some(log[j].origin->candidate)
}

/// What is justified stays justified once more is known, or once
/// candidates have turned out to be unusable.
proof fn lemma_sound_persists(
    earlier: KnowledgeView,
    later: KnowledgeView,
    held: int,
    level: int,
    log: Seq<Assignment>,
    allowed: Seq<Term>,
)
    requires
        earlier.wf(),
        later.extends(earlier) || later.bars(earlier),
        log_ok(earlier, held, level, log),
        log_sound(earlier, log),
        allowed_sound(earlier, log, allowed),
    ensures
        log_sound(later, log),
        allowed_sound(later, log, allowed),
{
    assert forall|sel: Selection, upto: int| #[trigger] later.possible(sel) && #[trigger] agrees_with_log(later, log, upto, sel)
        implies earlier.possible(sel) && agrees_with_log(earlier, log, upto, sel) by {
        if later.extends(earlier) {
            crate::knowledge::lemma_possible_shrinks(later, earlier, sel);
        } else {
            crate::knowledge::lemma_possible_after_bar(later, earlier, sel);
        }
        assert forall|j: int| 0 <= j < upto && j < log.len() && (#[trigger] log[j]).origin is Decision implies sel.dom().contains(
            log[j].package as int,
        ) && sel[log[j].package as int] == earlier.packages[log[j].package as int].candidates->0[log[j].origin->candidate as int] by {
            let p = log[j].package as int;
            assert(candidate_known(earlier, p, log[j].origin->candidate as int));
            assert(earlier.package_wf(p));
            assert(later.packages[p].candidates == earlier.packages[p].candidates);
        }
    }
    assert forall|j: int, sel: Selection|
        0 <= j < log.len() && #[trigger] later.possible(sel) && agrees_with_log(later, log, j + 1, sel) implies (#[trigger] log[j]).term@.holds(
        crate::incompatibility::state_of(sel, log[j].package as int),
    ) by {
        assert(earlier.possible(sel) && agrees_with_log(earlier, log, j + 1, sel));
    }
    assert forall|sel: Selection, p: int|
        #[trigger] later.possible(sel) && agrees_with_log(later, log, log.len() as int, sel) && 0 <= p
            < allowed.len() implies (#[trigger] allowed[p])@.holds(crate::incompatibility::state_of(sel, p)) by {
        assert(earlier.possible(sel) && agrees_with_log(earlier, log, log.len() as int, sel));
    }
}

/// A selection that agrees with the decisions agrees with the log.
proof fn lemma_agrees(k: KnowledgeView, log: Seq<Assignment>, decided: Seq<Option<usize>>, sel: Selection, upto: int)
    requires
        decisions_logged(log, decided),
        agrees(k, decided, sel),
    ensures
        agrees_with_log(k, log, upto, sel),
{
}

/// Unit propagation is sound. Where an incompatibility is entailed and the
/// narrowing satisfies each of its terms but that of package `o`, every
/// possible selection that agrees with the decisions has `o` in a state
/// that the term does not allow: the complement may be logged, and `o` be
/// narrowed by it.
proof fn lemma_derive(
    k: KnowledgeView,
    log: Seq<Assignment>,
    allowed: Seq<Term>,
    terms: Seq<TermView>,
    o: int,
    entry: Assignment,
    less: Term,
)
    requires
        k.entails(terms),
        crate::incompatibility::terms_wf(terms),
        log_sound(k, log),
        allowed_sound(k, log, allowed),
        0 <= o < allowed.len(),
        terms.len() <= allowed.len(),
        forall|q: int|
            0 <= q < allowed.len() && q != o ==> (#[trigger] allowed[q])@.subset_of(
                crate::incompatibility::term_at(terms, q),
            ),
        entry.package == o,
        entry.term@ == crate::incompatibility::term_at(terms, o).complement(),
        entry.origin is Derivation,
        allowed[o].wf(),
        less@ == allowed[o]@.intersection(entry.term@),
    ensures
        log_sound(k, log.push(entry)),
        allowed_sound(k, log.push(entry), allowed.update(o, less)),
{
    let log2 = log.push(entry);
    let allowed2 = allowed.update(o, less);
    let t = crate::incompatibility::term_at(terms, o);
    assert(t.wf()) by {
        if 0 <= o < terms.len() {
            assert(terms[o].wf());
        }
    }
    assert forall|sel: Selection, upto: int| #[trigger] agrees_with_log(k, log2, upto, sel) && upto <= log2.len() implies agrees_with_log(
        k,
        log,
        upto,
        sel,
    ) by {
        assert forall|j: int| 0 <= j < upto && j < log.len() && (#[trigger] log[j]).origin is Decision implies sel.dom().contains(
            log[j].package as int,
        ) && sel[log[j].package as int] == k.packages[log[j].package as int].candidates->0[log[j].origin->candidate as int] by {
            assert(log2[j] == log[j]);
        }
    }
    assert forall|sel: Selection|
        #[trigger] k.possible(sel) && agrees_with_log(k, log, log.len() as int, sel) implies entry.term@.holds(
        crate::incompatibility::state_of(sel, o),
    ) by {
        assert(!crate::incompatibility::forbids(terms, sel));
        assert forall|q: int| q != o implies (#[trigger] crate::incompatibility::term_at(terms, q)).holds(
            crate::incompatibility::state_of(sel, q),
        ) by {
            if 0 <= q < allowed.len() {
                let s = crate::incompatibility::state_of(sel, q);
                if sel.dom().contains(q) {
                    assert(is_version(sel[q]));
                }
                assert(allowed[q]@.holds(s));
                assert(allowed[q]@.subset_of(crate::incompatibility::term_at(terms, q)));
            } else {
                crate::incompatibility::lemma_any_holds(crate::incompatibility::state_of(sel, q));
            }
        }
        let s = crate::incompatibility::state_of(sel, o);
        if sel.dom().contains(o) {
            assert(is_version(sel[o]));
        }
        crate::term::lemma_term_ops(t, t, s);
        if t.holds(s) {
            assert forall|q: int| (#[trigger] crate::incompatibility::term_at(terms, q)).holds(
                crate::incompatibility::state_of(sel, q),
            ) by {}
        }
    }
    assert forall|j: int, sel: Selection|
        0 <= j < log2.len() && #[trigger] k.possible(sel) && agrees_with_log(k, log2, j + 1, sel) implies (#[trigger] log2[j]).term@.holds(
        crate::incompatibility::state_of(sel, log2[j].package as int),
    ) by {
        assert(agrees_with_log(k, log, j + 1, sel));
        if j < log.len() {
            assert(log2[j] == log[j]);
        } else {
            assert(agrees_with_log(k, log, log.len() as int, sel));
        }
    }
    assert forall|sel: Selection, p: int|
        #[trigger] k.possible(sel) && agrees_with_log(k, log2, log2.len() as int, sel) && 0 <= p
            < allowed2.len() implies (#[trigger] allowed2[p])@.holds(crate::incompatibility::state_of(sel, p)) by {
        assert(agrees_with_log(k, log, log2.len() as int, sel));
        assert(agrees_with_log(k, log, log.len() as int, sel));
        assert(allowed[p]@.holds(crate::incompatibility::state_of(sel, p)));
        if p == o {
            let s = crate::incompatibility::state_of(sel, o);
            if sel.dom().contains(o) {
                assert(is_version(sel[o]));
            }
            assert(entry.term@.wf()) by {
                crate::term::lemma_term_ops(t, t, s);
            }
            crate::term::lemma_term_ops(allowed[o]@, entry.term@, s);
        }
    }
}

/// A decision is sound for the selections that agree with it: they have
/// the package at the candidate decided, which the term of the decision
/// allows.
proof fn lemma_decide(
    k: KnowledgeView,
    log: Seq<Assignment>,
    allowed: Seq<Term>,
    log2: Seq<Assignment>,
    p: int,
    c: int,
    less: Term,
)
    requires
        k.wf(),
        candidate_known(k, p, c),
        log_sound(k, log),
        allowed_sound(k, log, allowed),
        0 <= p < allowed.len(),
        allowed[p].wf(),
        log2.len() == log.len() + 1,
        forall|j: int| 0 <= j < log.len() ==> #[trigger] log2[j] == log[j],
        log2[log.len() as int].package == p,
        log2[log.len() as int].origin == (Origin::Decision { candidate: c as usize }),
        c <= usize::MAX,
        log2[log.len() as int].term@.wf(),
        !log2[log.len() as int].term@.absent,
        forall|x: Seq<char>|
            is_version(x) ==> (#[trigger] log2[log.len() as int].term@.versions.contains(x) <==> version_same(
                k.packages[p].candidates->0[c],
                x,
            )),
        less@ == allowed[p]@.intersection(log2[log.len() as int].term@),
    ensures
        log_sound(k, log2),
        allowed_sound(k, log2, allowed.update(p, less)),
{
    let n = log.len() as int;
    let entry = log2[n];
    let allowed2 = allowed.update(p, less);
    let v = k.packages[p].candidates->0[c];
    assert(k.package_wf(p));
    assert(is_version(v));
    assert forall|sel: Selection, upto: int| #[trigger] agrees_with_log(k, log2, upto, sel) implies agrees_with_log(
        k,
        log,
        upto,
        sel,
    ) by {
        assert forall|j: int| 0 <= j < upto && j < log.len() && (#[trigger] log[j]).origin is Decision implies sel.dom().contains(
            log[j].package as int,
        ) && sel[log[j].package as int] == k.packages[log[j].package as int].candidates->0[log[j].origin->candidate as int] by {
            assert(log2[j] == log[j]);
        }
    }
    assert forall|sel: Selection| #[trigger] agrees_with_log(k, log2, n + 1, sel) implies entry.term@.holds(
        crate::incompatibility::state_of(sel, p),
    ) by {
        assert(log2[n].origin is Decision);
        assert(sel.dom().contains(p) && sel[p] == v);
        assert(version_same(v, v));
    }
    assert forall|j: int, sel: Selection|
        0 <= j < log2.len() && #[trigger] k.possible(sel) && agrees_with_log(k, log2, j + 1, sel) implies (#[trigger] log2[j]).term@.holds(
        crate::incompatibility::state_of(sel, log2[j].package as int),
    ) by {
        if j < n {
            assert(agrees_with_log(k, log, j + 1, sel));
            assert(log2[j] == log[j]);
        }
    }
    assert forall|sel: Selection, q: int|
        #[trigger] k.possible(sel) && agrees_with_log(k, log2, log2.len() as int, sel) && 0 <= q
            < allowed2.len() implies (#[trigger] allowed2[q])@.holds(crate::incompatibility::state_of(sel, q)) by {
        assert(agrees_with_log(k, log, log2.len() as int, sel));
        assert(agrees_with_log(k, log, log.len() as int, sel));
        assert(allowed[q]@.holds(crate::incompatibility::state_of(sel, q)));
        if q == p {
            let s = crate::incompatibility::state_of(sel, p);
            crate::term::lemma_term_ops(allowed[p]@, entry.term@, s);
        }
    }
}

/// What holds while the terms are made anew from the first `m` entries of
/// the log: every possible selection that agrees with all `m` entries has
/// each package in a state that its term, gathered so far, allows.
spec fn gathered_sound(k: KnowledgeView, log: Seq<Assignment>, allowed: Seq<Term>) -> bool {
    forall|sel: Selection, p: int|
        #[trigger] k.possible(sel) && agrees_with_log(k, log, log.len() as int, sel) && 0 <= p < allowed.len()
            ==> (#[trigger] allowed[p])@.holds(crate::incompatibility::state_of(sel, p))
}

/// The first entries of a justified log are a justified log.
proof fn lemma_log_prefix(k: KnowledgeView, log: Seq<Assignment>, m: int)
    requires
        log_sound(k, log),
        0 <= m <= log.len(),
    ensures
        log_sound(k, log.subrange(0, m)),
{
    let kept = log.subrange(0, m);
    assert forall|j: int, sel: Selection|
        0 <= j < kept.len() && #[trigger] k.possible(sel) && agrees_with_log(k, kept, j + 1, sel) implies (#[trigger] kept[j]).term@.holds(
        crate::incompatibility::state_of(sel, kept[j].package as int),
    ) by {
        assert(kept[j] == log[j]);
        assert(agrees_with_log(k, log, j + 1, sel)) by {
            assert forall|i: int| 0 <= i < j + 1 && i < log.len() && (#[trigger] log[i]).origin is Decision implies sel.dom().contains(
                log[i].package as int,
            ) && sel[log[i].package as int] == k.packages[log[i].package as int].candidates->0[log[i].origin->candidate as int] by {
                assert(kept[i] == log[i]);
            }
        }
    }
}

/// Terms that allow every state are justified.
proof fn lemma_gathered_start(k: KnowledgeView, log: Seq<Assignment>, allowed: Seq<Term>)
    requires
        forall|p: int| 0 <= p < allowed.len() ==> (#[trigger] allowed[p])@ == TermView::any(),
    ensures
        gathered_sound(k, log, allowed),
{
    assert forall|sel: Selection, p: int|
        #[trigger] k.possible(sel) && agrees_with_log(k, log, log.len() as int, sel) && 0 <= p
            < allowed.len() implies (#[trigger] allowed[p])@.holds(crate::incompatibility::state_of(sel, p)) by {
        crate::incompatibility::lemma_any_holds(crate::incompatibility::state_of(sel, p));
    }
}

/// Gathering the term of one more entry of a justified log keeps the terms
/// justified.
proof fn lemma_gathered_step(k: KnowledgeView, log: Seq<Assignment>, allowed: Seq<Term>, j: int, less: Term)
    requires
        log_sound(k, log),
        gathered_sound(k, log, allowed),
        0 <= j < log.len(),
        log[j].package < allowed.len(),
        log[j].term.wf(),
        allowed[log[j].package as int].wf(),
        less@ == allowed[log[j].package as int]@.intersection(log[j].term@),
    ensures
        gathered_sound(k, log, allowed.update(log[j].package as int, less)),
{
    let q = log[j].package as int;
    let allowed2 = allowed.update(q, less);
    assert forall|sel: Selection, p: int|
        #[trigger] k.possible(sel) && agrees_with_log(k, log, log.len() as int, sel) && 0 <= p
            < allowed2.len() implies (#[trigger] allowed2[p])@.holds(crate::incompatibility::state_of(sel, p)) by {
        assert(allowed[p]@.holds(crate::incompatibility::state_of(sel, p)));
        if p == q {
            assert(agrees_with_log(k, log, j + 1, sel));
            assert(log[j].term@.holds(crate::incompatibility::state_of(sel, q)));
            let s = crate::incompatibility::state_of(sel, q);
            if sel.dom().contains(q) {
                assert(is_version(sel[q]));
            }
            crate::term::lemma_term_ops(allowed[q]@, log[j].term@, s);
        }
    }
}

/// The mathematical value of an entry of the log: a term that holds of a
/// package from the entry on, the level at which it was logged, and where it
/// comes from.
pub struct AssignmentView {
    pub package: int,
    pub term: TermView,
    pub level: int,
    pub origin: Origin,
}

/// The decisions that the first `upto` entries of the log make, for `n`
/// packages.
pub open spec fn decided_upto(log: Seq<AssignmentView>, n: nat, upto: int) -> Seq<Option<usize>>
    decreases upto,
{
    if upto <= 0 {
        Seq::new(n, |p: int| None::<usize>)
    } else {
        let before = decided_upto(log, n, upto - 1);
        match log[upto - 1].origin {
            Origin::Decision { candidate } => before.update(log[upto - 1].package, Some(candidate)),
            Origin::Derivation { .. } => before,
        }
    }
}

/// Whether the term `a` lies within the term `t`, as the algebra of terms
/// finds it: what `a` allows beyond `t` is the term that allows no state.
pub open spec fn within(a: TermView, t: TermView) -> bool {
    a.intersection(t.complement()) == TermView::never()
}

/// Whether the terms `a` and `t` lie apart, as the algebra of terms finds
/// it: what both allow is the term that allows no state.
pub open spec fn apart(a: TermView, t: TermView) -> bool {
    a.intersection(t) == TermView::never()
}

/// Whether the incompatibility speaks of package `q`, and the term
/// gathered for `q` does not lie within its term.
pub open spec fn unmet(terms: Seq<TermView>, gathered: Seq<TermView>, q: int) -> bool {
    0 <= q < terms.len() && terms[q] != TermView::any() && !within(gathered[q], terms[q])
}

/// Whether the gathered terms satisfy the incompatibility: the term
/// gathered for each package that it speaks of lies within its term.
pub open spec fn satisfied_by(terms: Seq<TermView>, gathered: Seq<TermView>) -> bool {
    forall|q: int| !#[trigger] unmet(terms, gathered, q)
}

/// Whether the gathered terms satisfy every term of the incompatibility
/// but that of package `o`, which they neither satisfy nor contradict.
pub open spec fn unit_on(terms: Seq<TermView>, gathered: Seq<TermView>, o: int) -> bool {
    &&& unmet(terms, gathered, o)
    &&& !apart(gathered[o], terms[o])
    &&& forall|q: int| q != o ==> !#[trigger] unmet(terms, gathered, q)
}

/// One term for each of `n` packages, each allowing every state.
pub open spec fn nothing(n: nat) -> Seq<TermView> {
    Seq::new(n, |p: int| TermView::any())
}

/// The terms gathered from the first `upto` entries of the log, on top of
/// `start`: for each entry the term of its package is narrowed by the term
/// of the entry.
pub open spec fn gathered_from(start: Seq<TermView>, log: Seq<AssignmentView>, upto: int) -> Seq<TermView>
    decreases upto,
{
    if upto <= 0 {
        start
    } else {
        let before = gathered_from(start, log, upto - 1);
        let p = log[upto - 1].package;
        before.update(p, before[p].intersection(log[upto - 1].term))
    }
}

/// Whether the entry of number `j` is on a package that the
/// incompatibility speaks of, and the terms gathered up to and with it
/// satisfy the incompatibility.
pub open spec fn satisfies_at(terms: Seq<TermView>, start: Seq<TermView>, log: Seq<AssignmentView>, j: int) -> bool {
    crate::incompatibility::term_at(terms, log[j].package) != TermView::any() && satisfied_by(
        terms,
        gathered_from(start, log, j + 1),
    )
}

/// Whether the entry of number `at` is the first of the log that
/// satisfies the incompatibility with what was gathered before it.
pub open spec fn first_satisfies(terms: Seq<TermView>, start: Seq<TermView>, log: Seq<AssignmentView>, at: int) -> bool {
    &&& 0 <= at < log.len()
    &&& satisfies_at(terms, start, log, at)
    &&& forall|j: int| 0 <= j < at ==> !#[trigger] satisfies_at(terms, start, log, j)
}

/// Whether `back` is the level to go back to for the satisfier `at`: 0
/// where the term of the satisfier alone satisfies the incompatibility; else
/// the level of the first entry before the satisfier with which, on top of
/// the term of the satisfier, the log satisfies it; and the level of the
/// satisfier where there is no such entry.
pub open spec fn goes_back_to(terms: Seq<TermView>, n: nat, log: Seq<AssignmentView>, at: int, back: int) -> bool {
    let alone = nothing(n).update(log[at].package, log[at].term);
    if satisfied_by(terms, alone) {
        back == 0
    } else {
        ||| exists|k: int| k < at && #[trigger] first_satisfies(terms, alone, log, k) && back == log[k].level
        ||| (forall|k: int| 0 <= k < at ==> !#[trigger] satisfies_at(terms, alone, log, k)) && back == log[at].level
    }
}

/// What a pass of unit propagation comes to: the narrowed terms, the
/// derivations made, each as the number of the incompatibility and the
/// package narrowed, and the incompatibility found in conflict, if any.
pub struct PassView {
    pub allowed: Seq<TermView>,
    pub derived: Seq<(int, int)>,
    pub conflict: Option<int>,
}

/// The package that the incompatibility is unit on, if it is on any.
pub open spec fn unit_of(terms: Seq<TermView>, gathered: Seq<TermView>) -> Option<int> {
    if exists|o: int| unit_on(terms, gathered, o) {
        Some(choose|o: int| unit_on(terms, gathered, o))
    } else {
        None
    }
}

/// A pass of unit propagation from the incompatibility of number `i` on.
/// The incompatibilities are taken in their order. One that the terms
/// satisfy is a conflict, and ends the pass. One that is unit on a package
/// narrows the package by the complement of its term, and the pass goes on
/// with the narrowed terms. Nothing follows from any other.
pub open spec fn pass_from(store: Seq<Seq<TermView>>, allowed: Seq<TermView>, i: int) -> PassView
    decreases store.len() - i,
{
    if i < 0 || i >= store.len() {
        PassView { allowed, derived: Seq::empty(), conflict: None }
    } else if satisfied_by(store[i], allowed) {
        PassView { allowed, derived: Seq::empty(), conflict: Some(i) }
    } else {
        match unit_of(store[i], allowed) {
            Some(o) => {
                let rest = pass_from(
                    store,
                    allowed.update(o, allowed[o].intersection(store[i][o].complement())),
                    i + 1,
                );
                PassView { allowed: rest.allowed, derived: seq![(i, o)] + rest.derived, conflict: rest.conflict }
            },
            None => pass_from(store, allowed, i + 1),
        }
    }
}

/// How a pass ends that comes to this.
pub open spec fn pass_result(out: PassView) -> Pass {
    match out.conflict {
        Some(i) => Pass::Conflict { incompatibility: i as usize },
        None => if out.derived.len() > 0 {
            Pass::Narrowed
        } else {
            Pass::Settled
        },
    }
}

/// Whether the entry of the log is the derivation `d`: on its package, from
/// its incompatibility, with the complement of the term that the
/// incompatibility has for the package.
pub open spec fn is_derivation(e: AssignmentView, store: Seq<Seq<TermView>>, d: (int, int), level: int) -> bool {
    &&& e.package == d.1
    &&& e.origin == (Origin::Derivation { cause: d.0 as usize })
    &&& e.level == level
    &&& e.term == store[d.0][d.1].complement()
}

/// An incompatibility is unit on one package at most.
proof fn lemma_unit_of(terms: Seq<TermView>, gathered: Seq<TermView>, o: int)
    requires
        unit_on(terms, gathered, o),
    ensures
        unit_of(terms, gathered) == Some(o),
        !satisfied_by(terms, gathered),
{
    let c = choose|c: int| unit_on(terms, gathered, c);
    if c != o {
        assert(!unmet(terms, gathered, o));
    }
    assert(unmet(terms, gathered, o));
}

/// Nothing follows from an incompatibility one of whose terms the gathered
/// terms contradict, or two of whose terms they do not satisfy.
proof fn lemma_dead(terms: Seq<TermView>, gathered: Seq<TermView>, x: int, y: int)
    requires
        unmet(terms, gathered, x),
        apart(gathered[x], terms[x]) || (x != y && unmet(terms, gathered, y)),
    ensures
        unit_of(terms, gathered) is None,
        !satisfied_by(terms, gathered),
{
    assert forall|o: int| !unit_on(terms, gathered, o) by {
        if unit_on(terms, gathered, o) {
            if o != x {
                assert(!unmet(terms, gathered, x));
            } else if !apart(gathered[x], terms[x]) {
                assert(!unmet(terms, gathered, y));
            }
        }
    }
}

/// What one step says of the solver before it, the solver after it and
/// the action handed out.
///
/// The step changes nothing of what is known and of the names, only adds
/// incompatibilities, and follows the order of the phases. Once the solver
/// is satisfied its decisions solve what is known; once it is
/// unsatisfiable no selection at all is possible under what is known, and
/// an incompatibility that speaks of no package is held. While the solver
/// propagates, a step that only goes on has added an assignment or an
/// incompatibility; decisions change only where one is reported, and the
/// decision reported is that of the package to decide next at its highest
/// candidate that may be decided; what is asked for is the first pending
/// package without candidates, or the metadata of the decision to come; and
/// the run is done only when no package is pending. A step that propagates
/// does what the pass of unit propagation does, and a decision is logged
/// one level up. From a conflict the step learns as `learned_from` says,
/// and from the way back it undoes as `went_back` says.
pub open spec fn step_says(before: Solver, after: Solver, r: Action) -> bool {
    &&& after.inv()
    &&& after.knowledge() == before.knowledge()
    &&& after.labels() == before.labels()
    &&& may_follow(before.phase(), after.phase())
    &&& action_fits(after.knowledge(), after.phase(), r)
    &&& after.phase() == Phase::Satisfied ==> after.knowledge().solved_by(after.selection())
    &&& after.phase() == Phase::Unsatisfiable ==> forall|sel: Selection| !after.knowledge().possible(sel)
    &&& after.phase() == Phase::Unsatisfiable ==> exists|i: int|
        0 <= i < after.incompatibilities().len() && says_nothing(#[trigger] after.incompatibilities()[i])
    &&& before.phase() == Phase::Satisfied || before.phase() == Phase::Unsatisfiable ==> after.decisions()
        == before.decisions()
    &&& before.incompatibilities().is_prefix_of(after.incompatibilities())
    &&& before.causes().is_prefix_of(after.causes())
    &&& r == Action::Continue && before.phase() == Phase::Propagating && after.phase() == Phase::Propagating
        ==> after.incompatibilities().len() > before.incompatibilities().len() || after.assignment_count()
        > before.assignment_count()
    &&& before.phase() == Phase::Propagating && !(r is Decided) ==> after.decisions() == before.decisions()
    &&& r matches Action::NeedCandidates { package } ==> {
        &&& after.pending_at(package as int)
        &&& forall|q: int|
            0 <= q < package ==> !(after.pending_at(q) && (#[trigger] after.knowledge().packages[q]).candidates
                is None)
    }
    &&& r matches Action::NeedMetadata { package, candidate } ==> after.choice_is(package as int)
        && after.highest_is(package as int, candidate as int)
    &&& r matches Action::Decided { package, candidate } ==> {
        &&& before.choice_is(package as int)
        &&& before.highest_is(package as int, candidate as int)
        &&& after.decisions() == before.decisions().update(package as int, Some(candidate))
        &&& after.assignment_count() > before.assignment_count()
        &&& decided_as(before, after, package as int, candidate as int)
    }
    &&& r == Action::Done && before.phase() == Phase::Propagating ==> forall|q: int| !before.pending_at(q)
    &&& before.phase() matches Phase::ConflictFound { incompatibility } ==> learned_from(
        before,
        after,
        incompatibility as int,
    )
    &&& before.phase() matches Phase::Backtracking { level } ==> went_back(before, after, level as int) && r
        == Action::Continue
    &&& before.phase() == Phase::Satisfied || before.phase() == Phase::Unsatisfiable ==> {
        &&& after.phase() == before.phase()
        &&& after.assignments() == before.assignments()
        &&& after.allowed() == before.allowed()
        &&& after.level() == before.level()
        &&& after.incompatibilities() == before.incompatibilities()
        &&& after.causes() == before.causes()
    }
    &&& before.phase() == Phase::Propagating ==> passed(before, after, r)
    &&& before.phase() == Phase::Propagating && pass_result(
        pass_from(before.incompatibilities(), before.allowed(), 0),
    ) == Pass::Settled ==> settled(before, after, r)
}

/// The incompatibility that speaks of package `p` alone, with this term.
pub open spec fn lone(p: int, term: TermView) -> Seq<TermView> {
    Seq::new(
        (p + 1) as nat,
        |q: int|
            if q == p {
                term
            } else {
                TermView::any()
            },
    )
}

/// The incompatibility that speaks of the packages `p` and `q` alone, with
/// these terms.
pub open spec fn pair_of(p: int, tp: TermView, q: int, tq: TermView) -> Seq<TermView> {
    Seq::new(
        crate::incompatibility::longer(p as nat, q as nat) + 1,
        |x: int|
            if x == p {
                tp
            } else if x == q {
                tq
            } else {
                TermView::any()
            },
    )
}

/// Whether the solver has come to hold one incompatibility more, with
/// these terms and this cause.
pub open spec fn held_one(before: Solver, after: Solver, terms: Seq<TermView>, cause: Cause) -> bool {
    &&& after.incompatibilities() == before.incompatibilities().push(terms)
    &&& after.causes() == before.causes().push(cause)
}

/// What the solver learns where package `p`, the one to decide next, has no
/// candidate that may be decided: that the package is at none of the
/// versions that its term allows.
pub open spec fn found_none(before: Solver, after: Solver, p: int) -> bool {
    &&& before.choice_is(p)
    &&& forall|d: int|
        0 <= d < before.knowledge().packages[p].candidates->0.len() ==> !admitted(
            before.knowledge(),
            before.allowed()[p],
            p,
            d,
        )
    &&& held_one(
        before,
        after,
        lone(p, crate::knowledge::present_term(before.allowed()[p].versions)),
        Cause::NoVersions { package: p as usize },
    )
}

/// What the solver learns where the root requirement of number `i` is the
/// first that the decisions do not meet: that the requirement is met.
pub open spec fn root_unmet(before: Solver, after: Solver, i: int) -> bool {
    let k = before.knowledge();
    let sel = before.selection();
    &&& 0 <= i < k.roots.len()
    &&& !crate::knowledge::requirement_met(k.roots[i], sel)
    &&& forall|j: int| 0 <= j < i ==> crate::knowledge::requirement_met(#[trigger] k.roots[j], sel)
    &&& held_one(
        before,
        after,
        lone(k.roots[i].package, crate::knowledge::unmet_term(k.roots[i])),
        Cause::Root { requirement: i as usize },
    )
}

/// What the solver learns where the roots are met and the requirement of
/// number `i` of the candidate decided for package `p` is the first that
/// the decisions do not meet: that the candidate does not go with the
/// requirement unmet.
pub open spec fn dependency_unmet(before: Solver, after: Solver, p: int, i: int) -> bool {
    let k = before.knowledge();
    let sel = before.selection();
    let decided = before.decisions();
    &&& 0 <= p < decided.len()
    &&& decided[p] is Some
    &&& 0 <= i < k.packages[p].metadata[decided[p]->0 as int]->Known_0.len()
    &&& !crate::knowledge::requirement_met(k.packages[p].metadata[decided[p]->0 as int]->Known_0[i], sel)
    &&& crate::knowledge::requirements_met(k.roots, sel)
    &&& forall|q: int|
        0 <= q < p && (#[trigger] decided[q]) is Some ==> crate::knowledge::requirements_met(
            k.packages[q].metadata[decided[q]->0 as int]->Known_0,
            sel,
        )
    &&& forall|e: int|
        0 <= e < i ==> crate::knowledge::requirement_met(
            #[trigger] k.packages[p].metadata[decided[p]->0 as int]->Known_0[e],
            sel,
        )
    &&& held_one(
        before,
        after,
        pair_of(
            p,
            exactly(k.packages[p].candidates->0[decided[p]->0 as int]),
            k.packages[p].metadata[decided[p]->0 as int]->Known_0[i].package,
            crate::knowledge::unmet_term(k.packages[p].metadata[decided[p]->0 as int]->Known_0[i]),
        ),
        Cause::Dependency { package: p as usize, candidate: decided[p]->0, requirement: i as usize },
    )
}

/// Whether the solver has found a requirement that the decisions do not
/// meet, and holds what it has learned of it as its last incompatibility.
pub open spec fn found_unmet(before: Solver, after: Solver) -> bool {
    ||| exists|i: int| #[trigger] root_unmet(before, after, i)
    ||| exists|p: int, i: int| #[trigger] dependency_unmet(before, after, p, i)
}

/// What a step makes of the solver once nothing more follows from what is
/// held. Where it goes on propagating it has learned that the package to
/// decide next has no candidate left. Where it has found a conflict, the
/// conflict is a requirement that the decisions do not meet. Else it holds
/// what it held. The log and the terms change with a decision only. The
/// candidates of a package are asked for as long as a pending package has
/// none, and the decisions are held against the requirements only where no
/// package is pending.
pub open spec fn settled(before: Solver, after: Solver, r: Action) -> bool {
    &&& r == Action::Continue && after.phase() == Phase::Propagating ==> exists|p: int|
        #[trigger] found_none(before, after, p)
    &&& after.phase() matches Phase::ConflictFound { incompatibility } ==> incompatibility
        == before.incompatibilities().len() && found_unmet(before, after)
    &&& r != Action::Continue ==> after.incompatibilities() == before.incompatibilities() && after.causes()
        == before.causes()
    &&& !(r is NeedCandidates) ==> forall|q: int|
        0 <= q < before.knowledge().packages.len() ==> !(before.pending_at(q) && (
        #[trigger] before.knowledge().packages[q]).candidates is None)
    &&& r == Action::Done || after.phase() is ConflictFound ==> forall|q: int| !before.pending_at(q)
    &&& !(r is Decided) ==> after.assignments() == before.assignments() && after.allowed() == before.allowed()
        && after.level() == before.level()
}

/// The term of a decision: the package is present, at a version that is
/// the same as `v`.
pub open spec fn exactly(v: Seq<char>) -> TermView {
    TermView {
        absent: false,
        versions: VersionSet::higher_than_view(v).intersection(VersionSet::lower_than_view(v)),
    }
}

/// What deciding the candidate of number `c` for package `p` makes of the
/// solver: the decision is logged one level up, with the term of the
/// version of the candidate, and the package is narrowed by that term.
pub open spec fn decided_as(before: Solver, after: Solver, p: int, c: int) -> bool {
    let term = exactly(before.knowledge().packages[p].candidates->0[c]);
    &&& after.level() == before.level() + 1
    &&& after.assignments() == before.assignments().push(
        AssignmentView { package: p, term, level: before.level() + 1, origin: Origin::Decision { candidate: c as usize } },
    )
    &&& after.allowed() == before.allowed().update(p, before.allowed()[p].intersection(term))
    &&& after.incompatibilities() == before.incompatibilities()
    &&& after.causes() == before.causes()
    &&& after.phase() == Phase::Propagating
}

/// What a pass of unit propagation makes of the solver, where it does not
/// end with nothing found: the terms are narrowed as the pass narrows them,
/// each derivation of the pass is logged at the level of the last decision,
/// in the order of the pass and after what was logged before, and nothing
/// else changes but the phase. After a conflict the solver has found the
/// incompatibility of the conflict; else it propagates on.
pub open spec fn passed(before: Solver, after: Solver, r: Action) -> bool {
    let out = pass_from(before.incompatibilities(), before.allowed(), 0);
    let was = before.assignments();
    let now = after.assignments();
    pass_result(out) != Pass::Settled ==> {
        &&& r == Action::Continue
        &&& after.phase() == match out.conflict {
            Some(i) => Phase::ConflictFound { incompatibility: i as usize },
            None => Phase::Propagating,
        }
        &&& after.allowed() == out.allowed
        &&& after.incompatibilities() == before.incompatibilities()
        &&& after.causes() == before.causes()
        &&& after.decisions() == before.decisions()
        &&& after.level() == before.level()
        &&& now.len() == was.len() + out.derived.len()
        &&& now.take(was.len() as int) == was
        &&& forall|j: int|
            0 <= j < out.derived.len() ==> is_derivation(
                now[was.len() + j],
                before.incompatibilities(),
                #[trigger] out.derived[j],
                before.level(),
            )
    }
}

/// What undoing the assignments above `level` makes of the log, the
/// decisions, the terms and the level: the log keeps its first entries,
/// those up to the first that lies above `level`; the decisions are those of
/// the entries kept; and the term of each package is gathered anew from the
/// entries kept.
pub open spec fn cut_back(before: Solver, after: Solver, level: int) -> bool {
    let was = before.assignments();
    let now = after.assignments();
    let n = after.knowledge().packages.len();
    &&& now.len() <= was.len()
    &&& now == was.take(now.len() as int)
    &&& forall|j: int| 0 <= j < now.len() ==> (#[trigger] now[j]).level <= level
    &&& now.len() < was.len() ==> was[now.len() as int].level > level
    &&& after.decisions() == decided_upto(now, n, now.len() as int)
    &&& after.allowed() == gathered_from(nothing(n), now, now.len() as int)
    &&& after.level() == if now.len() == 0 {
        0
    } else {
        now[now.len() - 1].level
    }
}

/// What going back to `level` makes of the solver: the assignments above
/// the level are undone, and nothing else changes but the phase.
pub open spec fn went_back(before: Solver, after: Solver, level: int) -> bool {
    &&& cut_back(before, after, level)
    &&& after.incompatibilities() == before.incompatibilities()
    &&& after.causes() == before.causes()
    &&& after.phase() == Phase::Propagating
}

/// The incompatibilities that what is known of candidate `c` of package `p`
/// gives: where the candidate cannot be used, that the package is not at its
/// version; where its requirements are known, for each of them that the
/// package is not at that version with the requirement unmet.
pub open spec fn clause_terms(k: KnowledgeView, p: int, c: int) -> Seq<Seq<TermView>> {
    let v = k.packages[p].candidates->0[c];
    match k.packages[p].metadata[c] {
        MetadataView::Unknown => Seq::empty(),
        MetadataView::Unavailable => seq![lone(p, exactly(v))],
        MetadataView::Known(rs) => Seq::new(
            rs.len(),
            |i: int| pair_of(p, exactly(v), rs[i].package, crate::knowledge::unmet_term(rs[i])),
        ),
    }
}

/// The causes of those incompatibilities.
pub open spec fn clause_causes(k: KnowledgeView, p: int, c: int) -> Seq<Cause> {
    match k.packages[p].metadata[c] {
        MetadataView::Unknown => Seq::empty(),
        MetadataView::Unavailable => seq![Cause::Unavailable { package: p as usize, candidate: c as usize }],
        MetadataView::Known(rs) => Seq::new(
            rs.len(),
            |i: int| Cause::Dependency { package: p as usize, candidate: c as usize, requirement: i as usize },
        ),
    }
}

/// The number of the incompatibility that the one of number `k` was
/// learned from: the conflict for the first that was learned, the one before
/// it for the others.
pub open spec fn came_from(first: int, conflict: int, k: int) -> int {
    if k == first {
        conflict
    } else {
        k - 1
    }
}

/// Whether the incompatibility of number `k` was learned from that of
/// number `left`, whose satisfier is the entry `at`: it is the resolvent of
/// `left` and of the cause of the satisfier, on the package of the
/// satisfier; the satisfier is a derivation, and the level to go back to
/// for it is its own.
pub open spec fn resolved_at(
    held: Seq<Seq<TermView>>,
    causes: Seq<Cause>,
    log: Seq<AssignmentView>,
    n: nat,
    k: int,
    left: int,
    at: int,
) -> bool {
    &&& first_satisfies(held[left], nothing(n), log, at)
    &&& log[at].origin matches Origin::Derivation { cause }
    &&& cause < k
    &&& causes[k] == (Cause::Derived { left: left as usize, right: cause })
    &&& held[k] == crate::incompatibility::resolvent(held[left], held[cause as int], log[at].package)
    &&& goes_back_to(held[left], n, log, at, log[at].level)
}

/// Whether the incompatibility of number `k` was learned from that of
/// number `left`.
pub open spec fn resolved(
    held: Seq<Seq<TermView>>,
    causes: Seq<Cause>,
    log: Seq<AssignmentView>,
    n: nat,
    k: int,
    left: int,
) -> bool {
    exists|at: int| #[trigger] resolved_at(held, causes, log, n, k, left, at)
}

/// Whether each incompatibility from number `first` on was learned from the
/// one before it, the first of them from the conflict, and the satisfier
/// that each was learned with lies before that of the one before it.
pub open spec fn learned_in_turn(
    held: Seq<Seq<TermView>>,
    causes: Seq<Cause>,
    log: Seq<AssignmentView>,
    n: nat,
    first: int,
    conflict: int,
) -> bool {
    &&& forall|k: int|
        first <= k < held.len() ==> #[trigger] resolved(held, causes, log, n, k, came_from(first, conflict, k))
    &&& forall|j: int, k: int, prev: int, at: int|
        first <= j && k == j + 1 && k < held.len() && #[trigger] resolved_at(
            held,
            causes,
            log,
            n,
            j,
            came_from(first, conflict, j),
            prev,
        ) && #[trigger] resolved_at(held, causes, log, n, k, came_from(first, conflict, k), at) ==> at < prev
}

/// Whether `level` is where to go back to for the incompatibility, its
/// satisfier being looked for among the first `bound` entries of the log:
/// the start where none of them satisfies it; else the level that its first
/// satisfier names, that satisfier being a decision or lying above the
/// level.
pub open spec fn turns_back_to(
    terms: Seq<TermView>,
    n: nat,
    log: Seq<AssignmentView>,
    bound: int,
    level: int,
) -> bool {
    ||| level == 0 && forall|j: int| 0 <= j < bound ==> !#[trigger] satisfies_at(terms, nothing(n), log, j)
    ||| exists|at: int|
        {
            &&& #[trigger] first_satisfies(terms, nothing(n), log, at)
            &&& at < bound
            &&& goes_back_to(terms, n, log, at, level)
            &&& log[at].origin is Decision || level < log[at].level
        }
}

/// Whether the satisfier of the last incompatibility is looked for among
/// the first `bound` entries of the log: all of them where nothing was
/// learned, else those before the satisfier that the last was learned
/// with.
pub open spec fn searched_below(
    first: int,
    held: Seq<Seq<TermView>>,
    causes: Seq<Cause>,
    log: Seq<AssignmentView>,
    n: nat,
    conflict: int,
    bound: int,
) -> bool {
    if held.len() == first {
        bound == log.len()
    } else {
        resolved_at(held, causes, log, n, held.len() - 1, came_from(first, conflict, held.len() - 1), bound)
    }
}

/// Whether `level` is where to go back to after what was learned from the
/// conflict: the level that the last incompatibility asks for, its
/// satisfier being looked for where the learning left off.
pub open spec fn way_back(
    first: int,
    held: Seq<Seq<TermView>>,
    causes: Seq<Cause>,
    log: Seq<AssignmentView>,
    n: nat,
    conflict: int,
    level: int,
) -> bool {
    exists|bound: int|
        searched_below(first, held, causes, log, n, conflict, bound) && #[trigger] turns_back_to(
            held[came_from(first, conflict, held.len() as int)],
            n,
            log,
            bound,
            level,
        )
}

/// What conflict resolution makes of the solver, from the incompatibility
/// of number `conflict`. Each incompatibility that it adds is learned from
/// the one before it, the first from the conflict. Where the last of them
/// speaks of no package there is no solution. Else the solver is about to
/// go back, to the level that the last of them asks for. The log, the
/// decisions and the terms are as they were.
pub open spec fn learned_from(before: Solver, after: Solver, conflict: int) -> bool {
    let was = before.incompatibilities();
    let now = after.incompatibilities();
    let log = after.assignments();
    let n = after.knowledge().packages.len();
    let last = came_from(was.len() as int, conflict, now.len() as int);
    &&& after.assignments() == before.assignments()
    &&& after.decisions() == before.decisions()
    &&& after.allowed() == before.allowed()
    &&& after.level() == before.level()
    &&& was.len() <= now.len()
    &&& learned_in_turn(now, after.causes(), log, n, was.len() as int, conflict)
    &&& after.phase() == Phase::Unsatisfiable <==> says_nothing(now[last])
    &&& after.phase() matches Phase::Backtracking { level } ==> level <= after.level() && way_back(
        was.len() as int,
        now,
        after.causes(),
        log,
        n,
        conflict,
        level as int,
    )
}

/// Whether an incompatibility was learned with a satisfier does not depend
/// on what is held after it.
proof fn lemma_resolved_at_same(
    held: Seq<Seq<TermView>>,
    causes: Seq<Cause>,
    more: Seq<Seq<TermView>>,
    more_causes: Seq<Cause>,
    log: Seq<AssignmentView>,
    n: nat,
    k: int,
    left: int,
    at: int,
)
    requires
        0 <= left < k < held.len(),
        held.len() == causes.len(),
        held.len() <= more.len(),
        held.len() <= more_causes.len(),
        forall|i: int| 0 <= i < held.len() ==> more[i] == held[i] && more_causes[i] == causes[i],
    ensures
        resolved_at(more, more_causes, log, n, k, left, at) == resolved_at(held, causes, log, n, k, left, at),
{
}

/// What was learned stays what it is when more is held.
proof fn lemma_resolved_stays(
    held: Seq<Seq<TermView>>,
    causes: Seq<Cause>,
    more: Seq<Seq<TermView>>,
    more_causes: Seq<Cause>,
    log: Seq<AssignmentView>,
    n: nat,
    k: int,
    left: int,
)
    requires
        resolved(held, causes, log, n, k, left),
        0 <= left < k < held.len(),
        held.len() == causes.len(),
        held.len() <= more.len(),
        held.len() <= more_causes.len(),
        forall|i: int| 0 <= i < held.len() ==> more[i] == held[i] && more_causes[i] == causes[i],
    ensures
        resolved(more, more_causes, log, n, k, left),
{
    let at = choose|at: int| #[trigger] resolved_at(held, causes, log, n, k, left, at);
    assert(resolved_at(more, more_causes, log, n, k, left, at));
}

impl Solver {
    /// What the run knows.
    pub closed spec fn knowledge(&self) -> KnowledgeView {
        self.knowledge@
    }

    /// Where the solver stands.
    pub closed spec fn phase(&self) -> Phase {
        self.phase
    }

    /// The candidate number that was decided for each package, if any.
    pub closed spec fn decisions(&self) -> Seq<Option<usize>> {
        self.decided@
    }

    /// The selection that the decisions made so far stand for.
    pub open spec fn selection(&self) -> Selection {
        selection_of(self.knowledge(), self.decisions())
    }

    /// The terms of the incompatibilities learned or derived so far.
    pub closed spec fn incompatibilities(&self) -> Seq<Seq<TermView>> {
        Seq::new(self.store.len() as nat, |i: int| self.store[i]@.terms)
    }

    /// The causes of the incompatibilities learned or derived so far.
    pub closed spec fn causes(&self) -> Seq<Cause> {
        Seq::new(self.store.len() as nat, |i: int| self.store[i]@.cause)
    }

    /// The invariant of the solver: what it knows is well formed, every
    /// incompatibility it holds is entailed by what it knows, its decisions
    /// name candidates whose metadata is known, and a final phase is
    /// justified.
    pub closed spec fn inv(&self) -> bool {
        &&& self.knowledge.wf()
        &&& store_ok(self.knowledge@, self.store@)
        &&& log_ok(self.knowledge@, self.store.len() as int, self.level as int, self.log@)
        &&& allowed_ok(self.knowledge@, self.allowed@)
        &&& decisions_ok(self.knowledge@, self.decided@)
        &&& self.labels.len() == self.knowledge@.packages.len()
        &&& log_sound(self.knowledge@, self.log@)
        &&& allowed_sound(self.knowledge@, self.log@, self.allowed@)
        &&& decisions_logged(self.log@, self.decided@)
        &&& phase_ok(self.knowledge@, self.store.len() as int, self.level as int, self.decided@, self.phase)
        &&& self.phase == Phase::Unsatisfiable ==> exists|i: int|
            0 <= i < self.store.len() && says_nothing((#[trigger] self.store[i])@.terms)
    }

    /// Whether pre-releases may be candidates.
    pub open spec fn admits_prereleases(&self) -> bool {
        self.knowledge().prereleases
    }

    /// A solver for the root requirements given, over a table of `packages`
    /// packages of which nothing is known yet; `None` where a root names a
    /// package that is not in the table. Pre-releases are candidates only
    /// if `prereleases` says so.
    pub fn new(packages: usize, roots: Vec<Requirement>, prereleases: bool) -> (r: Option<Solver>)
        ensures
            r is Some <==> forall|i: int| 0 <= i < roots.len() ==> (#[trigger] roots[i])@.package < packages,
            r matches Some(s) ==> {
                &&& s.inv()
                &&& s.phase() == Phase::Propagating
                &&& s.admits_prereleases() == prereleases
                &&& s.knowledge().roots == requirement_views(roots@)
                &&& s.knowledge().packages.len() == packages
                &&& forall|p: int|
                    0 <= p < packages ==> (#[trigger] s.knowledge().packages[p]).candidates is None
                &&& s.decisions() == Seq::new(packages as nat, |p: int| None::<usize>)
                &&& s.assignments() == Seq::<AssignmentView>::empty()
                &&& s.level() == 0
                &&& s.allowed() == nothing(packages as nat)
                &&& s.labels() == Seq::new(packages as nat, |p: int| Seq::<char>::empty())
                &&& s.incompatibilities() == Seq::new(
                    roots.len() as nat,
                    |i: int| lone(roots[i]@.package, crate::knowledge::unmet_term(roots[i]@)),
                )
                &&& s.causes() == Seq::new(roots.len() as nat, |i: int| Cause::Root { requirement: i as usize })
            },
    {
        let ghost given = requirement_views(roots@);
        let knowledge = match Knowledge::new(packages, roots, prereleases) {
            None => {
                return None;
            },
            Some(k) => k,
        };
        let mut allowed: Vec<Term> = Vec::new();
        let mut decided: Vec<Option<usize>> = Vec::new();
        let mut labels: Vec<String> = Vec::new();
        let mut p: usize = 0;
        while p < packages
            invariant
                p <= packages,
                allowed.len() == p,
                decided.len() == p,
                labels.len() == p,
                forall|q: int| 0 <= q < p ==> (#[trigger] labels[q])@ == Seq::<char>::empty(),
                forall|q: int| 0 <= q < p ==> (#[trigger] allowed[q]).wf(),
                forall|q: int| 0 <= q < p ==> (#[trigger] allowed[q])@ == TermView::any(),
                forall|q: int| 0 <= q < p ==> (#[trigger] decided[q]) is None,
            decreases packages - p,
        {
            allowed.push(Term::any());
            decided.push(None);
            labels.push(String::new());
            p += 1;
        }
        let mut store: Vec<Incompatibility> = Vec::new();
        let mut i: usize = 0;
        while i < knowledge.roots().len()
            invariant
                knowledge.wf(),
                knowledge@.packages.len() == packages,
                i <= knowledge@.roots.len(),
                store.len() == i,
                forall|j: int|
                    0 <= j < i ==> {
                        &&& (#[trigger] store[j]).wf()
                        &&& store[j]@.terms.len() <= packages
                        &&& knowledge@.entails(store[j]@.terms)
                        &&& store[j]@.cause == Cause::Root { requirement: j as usize }
                        &&& store[j]@.terms == lone(
                            knowledge@.roots[j].package,
                            crate::knowledge::unmet_term(knowledge@.roots[j]),
                        )
                    },
            decreases knowledge@.roots.len() - i,
        {
            let root = &knowledge.roots()[i];
            let term = Term::new(true, root.versions().complement());
            let one = Incompatibility::of_one(root.package(), term, Cause::Root { requirement: i });
            proof {
                assert(knowledge@.roots[i as int] == root@);
                lemma_root_entailed(knowledge@, i as int, one@.terms);
                let want = lone(root@.package, crate::knowledge::unmet_term(root@));
                assert(one@.terms =~= want) by {
                    assert forall|q: int| 0 <= q < one@.terms.len() implies one@.terms[q] == want[q] by {
                        assert(crate::incompatibility::term_at(one@.terms, q) == one@.terms[q]);
                    }
                }
            }
            store.push(one);
            i += 1;
        }
        let s = Solver {
            knowledge,
            store,
            log: Vec::new(),
            allowed,
            decided,
            labels,
            level: 0,
            phase: Phase::Propagating,
        };
        assert(s.decisions() =~= Seq::new(packages as nat, |p: int| None::<usize>));
        assert(s.assignments() =~= Seq::<AssignmentView>::empty());
        assert(s.allowed() =~= nothing(packages as nat));
        assert(s.labels() =~= Seq::new(packages as nat, |p: int| Seq::<char>::empty()));
        assert(s.knowledge().roots == given);
        assert(s.incompatibilities() =~= Seq::new(
            given.len(),
            |i: int| lone(given[i].package, crate::knowledge::unmet_term(given[i])),
        ));
        assert(s.causes() =~= Seq::new(given.len(), |i: int| Cause::Root { requirement: i as usize }));
        Some(s)
    }

    /// Where the solver stands.
    pub fn current_phase(&self) -> (r: Phase)
        ensures
            r == self.phase(),
    {
        self.phase
    }

    /// The number of packages in the table.
    pub fn package_count(&self) -> (r: usize)
        ensures
            r == self.knowledge().packages.len(),
    {
        self.knowledge.package_count()
    }

    /// What the run knows.
    pub fn known(&self) -> (r: &Knowledge)
        ensures
            r@ == self.knowledge(),
    {
        &self.knowledge
    }

    /// The candidate number decided for package `p`, if any.
    pub fn decision(&self, p: usize) -> (r: Option<usize>)
        requires
            self.inv(),
        ensures
            r == if p < self.decisions().len() { self.decisions()[p as int] } else { None },
            r matches Some(c) ==> candidate_known(self.knowledge(), p as int, c as int),
    {
        if p < self.decided.len() {
            self.decided[p]
        } else {
            None
        }
    }

    /// The version decided for package `p`, if any.
    pub fn decided_version(&self, p: usize) -> (r: Option<&Version>)
        requires
            self.inv(),
        ensures
            match r {
                None => !self.selection().dom().contains(p as int),
                Some(v) => self.selection().dom().contains(p as int) && self.selection()[p as int] == v@,
            },
    {
        if p < self.decided.len() {
            match self.decided[p] {
                None => None,
                Some(c) => Some(self.knowledge.candidate(p, c)),
            }
        } else {
            None
        }
    }

    /// The number of incompatibilities learned or derived so far.
    pub fn incompatibility_count(&self) -> (r: usize)
        ensures
            r == self.incompatibilities().len(),
            r == self.causes().len(),
    {
        self.store.len()
    }

    /// The incompatibility of number `i`.
    pub fn incompatibility(&self, i: usize) -> (r: &Incompatibility)
        requires
            i < self.incompatibilities().len(),
        ensures
            r@.terms == self.incompatibilities()[i as int],
            r@.cause == self.causes()[i as int],
    {
        &self.store[i]
    }

    /// Holds one more incompatibility that what is known entails.
    fn hold(&mut self, one: Incompatibility)
        requires
            old(self).inv(),
            one@.terms.len() <= old(self).knowledge().packages.len(),
            old(self).knowledge().entails(one@.terms),
            one@.cause matches Cause::Derived { left, right } ==> left < old(self).store.len() && right < old(self).store.len(),
        ensures
            final(self).inv(),
            final(self).knowledge == old(self).knowledge,
            final(self).phase == old(self).phase,
            final(self).decided == old(self).decided,
            final(self).log == old(self).log,
            final(self).allowed == old(self).allowed,
            final(self).labels == old(self).labels,
            final(self).level == old(self).level,
            final(self).store@ == old(self).store@.push(one),
    {
        proof {
            use_type_invariant(&one);
        }
        self.store.push(one);
        proof {
            if self.phase == Phase::Unsatisfiable {
                let i = choose|i: int|
                    0 <= i < old(self).store.len() && says_nothing((#[trigger] old(self).store[i])@.terms);
                assert(self.store[i] == old(self).store[i]);
            }
        }
    }

    /// Adds a package of which nothing is known yet, and gives its number.
    pub fn add_package(&mut self) -> (r: usize)
        requires
            old(self).inv(),
        ensures
            final(self).inv(),
            final(self).labels() == old(self).labels().push(Seq::empty()),
            final(self).phase() == old(self).phase(),
            r == old(self).knowledge().packages.len(),
            final(self).knowledge().roots == old(self).knowledge().roots,
            final(self).knowledge().prereleases == old(self).knowledge().prereleases,
            final(self).knowledge().packages == old(self).knowledge().packages.push(
                crate::knowledge::PackageView { candidates: None, metadata: Seq::empty() },
            ),
            final(self).decisions() == old(self).decisions().push(None),
            final(self).incompatibilities() == old(self).incompatibilities(),
            final(self).causes() == old(self).causes(),
            final(self).assignments() == old(self).assignments(),
            final(self).allowed() == old(self).allowed().push(TermView::any()),
            final(self).level() == old(self).level(),
    {
        let ghost before = self.knowledge@;
        let r = self.knowledge.add_package();
        self.allowed.push(Term::any());
        self.decided.push(None);
        self.labels.push(String::new());
        proof {
            let now = self.knowledge@;
            lemma_sound_persists(
                before,
                now,
                self.store.len() as int,
                self.level as int,
                self.log@,
                old(self).allowed@,
            );
            assert forall|sel: Selection, p: int|
                #[trigger] now.possible(sel) && agrees_with_log(now, self.log@, self.log.len() as int, sel) && 0 <= p
                    < self.allowed.len() implies (#[trigger] self.allowed[p])@.holds(
                crate::incompatibility::state_of(sel, p),
            ) by {
                if p < old(self).allowed.len() {
                    assert(self.allowed[p] == old(self).allowed[p]);
                } else {
                    crate::incompatibility::lemma_any_holds(crate::incompatibility::state_of(sel, p));
                }
            }
            assert forall|j: int| 0 <= j < self.log.len() && (#[trigger] self.log[j]).origin is Decision implies self.log[j].package
                < self.decided.len() && self.decided[self.log[j].package as int] == Some(
                self.log[j].origin->candidate,
            ) by {
                assert(self.decided[self.log[j].package as int] == old(self).decided[self.log[j].package as int]);
            }
            lemma_store_extends(before, now, self.store@);
            lemma_log_extends(before, now, self.store.len() as int, self.store.len() as int, self.level as int, self.log@);
            assert forall|p: int| 0 <= p < self.decided.len() && (#[trigger] self.decided[p]) is Some implies candidate_known(
                now,
                p,
                self.decided[p]->0 as int,
            ) by {
                assert(self.decided[p] == old(self).decided[p]);
                lemma_candidate_extends(before, now, p, self.decided[p]->0 as int);
            }
            if self.phase == Phase::Satisfied {
                lemma_solved_extends(before, now, old(self).decided@, self.decided@);
            }
            if self.phase == Phase::Unsatisfiable {
                assert forall|sel: Selection| !now.possible(sel) by {
                    if now.possible(sel) {
                        crate::knowledge::lemma_possible_shrinks(now, before, sel);
                    }
                }
            }
            assert(self.incompatibilities() =~= old(self).incompatibilities());
            assert(self.causes() =~= old(self).causes());
        }
        r
    }

    /// Hands the solver the candidates of package `p`, as the provider
    /// listed them. Unless pre-releases are admitted they are left out; the
    /// rest is put in rising order, one of each version, written as the
    /// first of the list that is that version is. Nothing changes, and the
    /// answer is `false`, unless the solver is propagating, `p` is in the
    /// table and its candidates were not listed before.
    pub fn provide_candidates(&mut self, p: usize, versions: Vec<Version>) -> (r: bool)
        requires
            old(self).inv(),
        ensures
            final(self).inv(),
            final(self).labels() == old(self).labels(),
            final(self).phase() == old(self).phase(),
            final(self).decisions() == old(self).decisions(),
            final(self).incompatibilities() == old(self).incompatibilities(),
            final(self).causes() == old(self).causes(),
            final(self).assignments() == old(self).assignments(),
            final(self).allowed() == old(self).allowed(),
            final(self).level() == old(self).level(),
            final(self).knowledge().extends(old(self).knowledge()),
            r == (old(self).phase() == Phase::Propagating && p < old(self).knowledge().packages.len() && old(self).knowledge().packages[p as int].candidates is None),
            !r ==> final(self).knowledge() == old(self).knowledge(),
            r ==> {
                let was = old(self).knowledge();
                let now = final(self).knowledge();
                &&& now.roots == was.roots
                &&& now.packages.len() == was.packages.len()
                &&& forall|q: int| 0 <= q < was.packages.len() && q != p ==> #[trigger] now.packages[q] == was.packages[q]
                &&& now.packages[p as int].candidates is Some
                &&& crate::knowledge::ascending(now.packages[p as int].candidates->0)
                &&& forall|i: int|
                    0 <= i < now.packages[p as int].candidates->0.len() ==> crate::knowledge::listed(
                        version_views(versions@),
                        #[trigger] now.packages[p as int].candidates->0[i],
                    ) && (old(self).admits_prereleases() || !crate::version::version_is_prerelease(
                        now.packages[p as int].candidates->0[i],
                    ))
                &&& forall|j: int|
                    0 <= j < versions.len() && (old(self).admits_prereleases()
                        || !crate::version::version_is_prerelease(#[trigger] versions[j]@))
                        ==> crate::knowledge::has_same(now.packages[p as int].candidates->0, versions[j]@)
                &&& forall|c: int|
                    0 <= c < now.packages[p as int].metadata.len() ==> #[trigger] now.packages[p as int].metadata[c]
                        is Unknown
                &&& forall|i: int|
                    0 <= i < now.packages[p as int].candidates->0.len() ==> crate::knowledge::first_written(
                        crate::knowledge::admitted_of(version_views(versions@), old(self).admits_prereleases()),
                        #[trigger] now.packages[p as int].candidates->0[i],
                    )
            },
    {
        if self.phase != Phase::Propagating {
            return false;
        }
        let ghost before = self.knowledge@;
        let r = self.knowledge.list_candidates(p, versions);
        proof {
            let now = self.knowledge@;
            lemma_sound_persists(before, now, self.store.len() as int, self.level as int, self.log@, self.allowed@);
            lemma_store_extends(before, now, self.store@);
            lemma_log_extends(before, now, self.store.len() as int, self.store.len() as int, self.level as int, self.log@);
            assert forall|q: int| 0 <= q < self.decided.len() && (#[trigger] self.decided[q]) is Some implies candidate_known(
                now,
                q,
                self.decided[q]->0 as int,
            ) by {
                lemma_candidate_extends(before, now, q, self.decided[q]->0 as int);
            }
        }
        r
    }

    /// Hands the solver what the provider answered for the metadata of the
    /// candidate of number `c` of package `p`: the requirements it declares,
    /// or `None` where the metadata could not be had. Malformed metadata
    /// (a requirement on a package outside the table, or on the candidate's
    /// own package) makes the candidate unavailable. The solver then holds
    /// that the package is not at an unavailable version, or for each
    /// requirement that the package is not at the version with the
    /// requirement unmet. Nothing changes, and the answer is `false`, unless
    /// the solver is propagating, there is such a candidate and its metadata
    /// was not recorded before.
    pub fn provide_metadata(&mut self, p: usize, c: usize, declared: Option<Vec<Requirement>>) -> (r: bool)
        requires
            old(self).inv(),
        ensures
            final(self).inv(),
            final(self).labels() == old(self).labels(),
            final(self).phase() == old(self).phase(),
            final(self).decisions() == old(self).decisions(),
            final(self).knowledge().extends(old(self).knowledge()),
            r == (old(self).phase() == Phase::Propagating && p < old(self).knowledge().packages.len() && c < old(self).knowledge().packages[p as int].metadata.len() && old(self).knowledge().packages[p as int].metadata[c as int] is Unknown),
            !r ==> final(self).knowledge() == old(self).knowledge() && final(self).incompatibilities() == old(self).incompatibilities()
                && final(self).causes() == old(self).causes(),
            final(self).assignments() == old(self).assignments(),
            final(self).allowed() == old(self).allowed(),
            final(self).level() == old(self).level(),
            r ==> final(self).incompatibilities() == old(self).incompatibilities() + clause_terms(
                final(self).knowledge(),
                p as int,
                c as int,
            ) && final(self).causes() == old(self).causes() + clause_causes(final(self).knowledge(), p as int, c as int),
            r ==> {
                let was = old(self).knowledge();
                let now = final(self).knowledge();
                &&& now.roots == was.roots
                &&& now.packages.len() == was.packages.len()
                &&& forall|q: int| 0 <= q < was.packages.len() && q != p ==> #[trigger] now.packages[q] == was.packages[q]
                &&& now.packages[p as int].candidates == was.packages[p as int].candidates
                &&& now.packages[p as int].metadata == was.packages[p as int].metadata.update(
                    c as int,
                    recorded(declared, was.packages.len() as int, p as int),
                )
            },
    {
        if self.phase != Phase::Propagating {
            return false;
        }
        let ghost before = self.knowledge@;
        let r = self.knowledge.record_metadata(p, c, declared);
        proof {
            let now = self.knowledge@;
            lemma_sound_persists(before, now, self.store.len() as int, self.level as int, self.log@, self.allowed@);
            lemma_store_extends(before, now, self.store@);
            lemma_log_extends(before, now, self.store.len() as int, self.store.len() as int, self.level as int, self.log@);
            assert forall|q: int| 0 <= q < self.decided.len() && (#[trigger] self.decided[q]) is Some implies candidate_known(
                now,
                q,
                self.decided[q]->0 as int,
            ) by {
                lemma_candidate_extends(before, now, q, self.decided[q]->0 as int);
            }
        }
        if !r {
            return false;
        }
        let ghost known = self.knowledge@;
        let ghost held = self.incompatibilities();
        let ghost had = self.causes();
        let ghost goal = clause_terms(known, p as int, c as int);
        let ghost goal_causes = clause_causes(known, p as int, c as int);
        assert(known.package_wf(p as int));
        let n = self.knowledge.dependency_count(p, c);
        let kind = self.knowledge.metadata_kind(p, c);
        let ghost mut done: int = 0;
        proof {
            assert(self.incompatibilities() =~= held + goal.take(0));
            assert(self.causes() =~= had + goal_causes.take(0));
        }
        if kind == MetadataKind::Unavailable {
            let only = VersionSet::singleton(self.knowledge.candidate(p, c));
            let one = Incompatibility::of_one(
                p,
                Term::new(false, only),
                Cause::Unavailable { package: p, candidate: c },
            );
            proof {
                lemma_only_candidate(known, p as int, c as int, only@);
                lemma_no_versions_entailed(known, p as int, only@, one@.terms);
            }
            let ghost terms = one@.terms;
            self.hold(one);
            proof {
                let want = lone(p as int, exactly(known.packages[p as int].candidates->0[c as int]));
                assert(terms =~= want) by {
                    assert forall|q: int| 0 <= q < terms.len() implies terms[q] == want[q] by {
                        assert(crate::incompatibility::term_at(terms, q) == terms[q]);
                    }
                }
                done = 1;
                assert(self.incompatibilities() =~= held + goal.take(1));
                assert(self.causes() =~= had + goal_causes.take(1));
            }
        }
        let mut i: usize = 0;
        while i < n
            invariant
                i <= n,
                self.inv(),
                self.knowledge@ == known,
                self.phase == old(self).phase,
                self.decided == old(self).decided,
                self.labels == old(self).labels,
                self.log == old(self).log,
                self.allowed == old(self).allowed,
                self.level == old(self).level,
                goal == clause_terms(known, p as int, c as int),
                goal_causes == clause_causes(known, p as int, c as int),
                done == (if known.packages[p as int].metadata[c as int] is Unavailable { 1int } else { i as int }),
                0 <= done <= goal.len(),
                goal.len() == goal_causes.len(),
                self.incompatibilities() == held + goal.take(done),
                self.causes() == had + goal_causes.take(done),
                known.wf(),
                p < known.packages.len(),
                known.packages[p as int].candidates is Some,
                c < known.packages[p as int].candidates->0.len(),
                c < known.packages[p as int].metadata.len(),
                match known.packages[p as int].metadata[c as int] {
                    MetadataView::Known(rs) => n == rs.len(),
                    _ => n == 0,
                },
            decreases n - i,
        {
            let ghost rs = known.packages[p as int].metadata[c as int]->Known_0;
            assert(known.package_wf(p as int));
            let dep = self.knowledge.dependency(p, c, i);
            assert(dep@ == rs[i as int]);
            let q = dep.package();
            let unmet = Term::new(true, dep.versions().complement());
            let only = VersionSet::singleton(self.knowledge.candidate(p, c));
            let one = Incompatibility::of_two(
                p,
                Term::new(false, only),
                q,
                unmet,
                Cause::Dependency { package: p, candidate: c, requirement: i },
            );
            proof {
                assert(unmet@ == unmet_term(rs[i as int]));
                assert forall|x: Seq<char>| is_version(x) && #[trigger] only@.contains(x) implies version_same(
                    known.packages[p as int].candidates->0[c as int],
                    x,
                ) by {}
                lemma_dependency_entailed(known, p as int, c as int, i as int, only@, one@.terms);
            }
            let ghost terms = one@.terms;
            let ghost cause = one@.cause;
            let ghost prev = self.incompatibilities();
            let ghost prev_causes = self.causes();
            self.hold(one);
            proof {
                assert(known.packages[p as int].metadata[c as int] is Known);
                assert(done == i);
                assert(self.incompatibilities() =~= prev.push(terms));
                assert(self.causes() =~= prev_causes.push(cause));
                assert(cause == goal_causes[i as int]);
                let want = goal[i as int];
                assert(terms =~= want) by {
                    assert forall|x: int| 0 <= x < terms.len() implies terms[x] == want[x] by {
                        assert(crate::incompatibility::term_at(terms, x) == terms[x]);
                    }
                }
                assert(goal.take(i + 1) =~= goal.take(i as int).push(goal[i as int]));
                assert(goal_causes.take(i + 1) =~= goal_causes.take(i as int).push(goal_causes[i as int]));
                done = i + 1;
                assert(self.incompatibilities() =~= held + goal.take(done));
                assert(self.causes() =~= had + goal_causes.take(done));
            }
            i += 1;
        }
        proof {
            assert(goal.take(done) =~= goal);
            assert(goal_causes.take(done) =~= goal_causes);
            assert(self.assignments() =~= old(self).assignments());
            assert(self.allowed() =~= old(self).allowed());
        }
        true
    }

    /// One pass of unit propagation over the incompatibilities held. An
    /// incompatibility all of whose terms the partial solution satisfies is
    /// a conflict; one with all terms satisfied but one, which is neither
    /// satisfied nor contradicted, narrows that package to the complement of
    /// the term.
    fn propagate(&mut self) -> (r: Pass)
        requires
            old(self).inv(),
        ensures
            final(self).inv(),
            final(self).knowledge == old(self).knowledge,
            final(self).store == old(self).store,
            final(self).decided == old(self).decided,
            final(self).phase == old(self).phase,
            final(self).level == old(self).level,
            r matches Pass::Conflict { incompatibility } ==> incompatibility < final(self).store.len(),
            r == Pass::Narrowed ==> final(self).log.len() > old(self).log.len(),
            final(self).log.len() >= old(self).log.len(),
            r == Pass::Settled ==> final(self).allowed == old(self).allowed && final(self).log == old(self).log,
            final(self).labels == old(self).labels,
            ({
                let out = pass_from(old(self).incompatibilities(), old(self).allowed(), 0);
                &&& r == pass_result(out)
                &&& final(self).allowed() == out.allowed
                &&& final(self).log.len() == old(self).log.len() + out.derived.len()
                &&& forall|j: int| 0 <= j < old(self).log.len() ==> #[trigger] final(self).log[j] == old(self).log[j]
                &&& forall|j: int|
                    0 <= j < out.derived.len() ==> is_derivation(
                        final(self).assignments()[old(self).log.len() + j],
                        old(self).incompatibilities(),
                        #[trigger] out.derived[j],
                        old(self).level as int,
                    )
            }),
    {
        let ghost held = self.incompatibilities();
        let ghost total = pass_from(held, self.allowed(), 0);
        let ghost done: Seq<(int, int)> = Seq::empty();
        let mut narrowed = false;
        let mut i: usize = 0;
        assert(done + total.derived =~= total.derived);
        while i < self.store.len()
            invariant
                self.inv(),
                self.knowledge == old(self).knowledge,
                self.store == old(self).store,
                self.decided == old(self).decided,
                self.phase == old(self).phase,
                self.level == old(self).level,
                self.log.len() >= old(self).log.len(),
                narrowed ==> self.log.len() > old(self).log.len(),
                !narrowed ==> self.allowed == old(self).allowed && self.log == old(self).log,
                self.labels == old(self).labels,
                i <= self.store.len(),
                held == self.incompatibilities(),
                held.len() == self.store.len(),
                total == pass_from(held, old(self).allowed(), 0),
                total.allowed == pass_from(held, self.allowed(), i as int).allowed,
                total.derived == done + pass_from(held, self.allowed(), i as int).derived,
                total.conflict == pass_from(held, self.allowed(), i as int).conflict,
                narrowed == (done.len() > 0),
                self.log.len() == old(self).log.len() + done.len(),
                forall|j: int| 0 <= j < old(self).log.len() ==> #[trigger] self.log[j] == old(self).log[j],
                forall|j: int|
                    0 <= j < done.len() ==> is_derivation(
                        self.assignments()[old(self).log.len() + j],
                        held,
                        #[trigger] done[j],
                        self.level as int,
                    ),
            decreases self.store.len() - i,
        {
            let n = self.store[i].len();
            let ghost terms = self.store[i as int]@.terms;
            let ghost now = self.allowed();
            assert(held[i as int] == terms);
            let mut q: usize = 0;
            let mut open: Option<usize> = None;
            let mut dead = false;
            let ghost first: int = 0;
            let ghost second: int = 0;
            while q < n && !dead
                invariant
                    self.inv(),
                    i < self.store.len(),
                    terms == self.store[i as int]@.terms,
                    now == self.allowed(),
                    n == terms.len(),
                    q <= n,
                    open matches Some(o) ==> o < q,
                    !dead ==> forall|x: int|
                        0 <= x < q && Some(x as usize) != open ==> (#[trigger] self.allowed[x])@.subset_of(
                            crate::incompatibility::term_at(terms, x),
                        ),
                    !dead ==> forall|x: int| 0 <= x < q && Some(x as usize) != open ==> !#[trigger] unmet(terms, now, x),
                    !dead ==> (open matches Some(o) ==> unmet(terms, now, o as int) && !apart(
                        now[o as int],
                        terms[o as int],
                    )),
                    dead ==> unmet(terms, now, first) && (apart(now[first], terms[first]) || (first != second
                        && unmet(terms, now, second))),
                decreases n - q,
            {
                assert(now[q as int] == self.allowed[q as int]@);
                if self.store[i].mentions(q) {
                    let t = self.store[i].term(q);
                    if self.allowed[q].subset_of(&t) {
                    } else if self.allowed[q].is_disjoint(&t) {
                        dead = true;
                        proof {
                            first = q as int;
                        }
                    } else if open.is_some() {
                        dead = true;
                        proof {
                            first = q as int;
                            second = open->0 as int;
                        }
                    } else {
                        open = Some(q);
                    }
                } else {
                    assert(self.allowed[q as int]@.subset_of(crate::incompatibility::term_at(terms, q as int))) by {
                        assert forall|s: crate::term::State| #[trigger] self.allowed[q as int]@.holds(s) implies crate::incompatibility::term_at(
                            terms,
                            q as int,
                        ).holds(s) by {
                            crate::incompatibility::lemma_any_holds(s);
                        }
                    }
                }
                q += 1;
            }
            if !dead {
                match open {
                    None => {
                        assert(satisfied_by(terms, now));
                        return Pass::Conflict { incompatibility: i };
                    },
                    Some(o) => {
                        let t = self.store[i].term(o).complement();
                        let less = self.allowed[o].intersection(&t);
                        let entry = Assignment {
                            package: o,
                            term: t,
                            level: self.level,
                            origin: Origin::Derivation { cause: i },
                        };
                        proof {
                            assert(self.store[i as int].wf());
                            assert forall|x: int| 0 <= x < self.allowed.len() && x != o implies (#[trigger] self.allowed[x])@.subset_of(
                                crate::incompatibility::term_at(terms, x),
                            ) by {
                                if x >= n {
                                    assert forall|s: crate::term::State| #[trigger] self.allowed[x]@.holds(s) implies crate::incompatibility::term_at(
                                        terms,
                                        x,
                                    ).holds(s) by {
                                        crate::incompatibility::lemma_any_holds(s);
                                    }
                                }
                            }
                            lemma_derive(self.knowledge@, self.log@, self.allowed@, terms, o as int, entry, less);
                            assert(unit_on(terms, now, o as int));
                            lemma_unit_of(terms, now, o as int);
                        }
                        let ghost logged = self.log@;
                        let ghost views = self.assignments();
                        self.allowed[o] = less;
                        self.log.push(entry);
                        narrowed = true;
                        proof {
                            assert(self.allowed() =~= now.update(
                                o as int,
                                now[o as int].intersection(terms[o as int].complement()),
                            ));
                            let rest = pass_from(held, self.allowed(), i + 1);
                            assert(pass_from(held, now, i as int).derived == seq![(i as int, o as int)] + rest.derived);
                            let before = done;
                            done = done.push((i as int, o as int));
                            assert(done + rest.derived =~= before + (seq![(i as int, o as int)] + rest.derived));
                            assert forall|j: int| 0 <= j < done.len() implies is_derivation(
                                self.assignments()[old(self).log.len() + j],
                                held,
                                #[trigger] done[j],
                                self.level as int,
                            ) by {
                                if j < before.len() {
                                    assert(done[j] == before[j]);
                                    assert(self.log[old(self).log.len() + j] == logged[old(self).log.len() + j]);
                                    assert(is_derivation(views[old(self).log.len() + j], held, before[j], self.level as int));
                                }
                            }
                            assert forall|j: int| 0 <= j < old(self).log.len() implies #[trigger] self.log[j] == old(self).log[j] by {
                                assert(self.log[j] == logged[j]);
                            }
                        }
                    },
                }
            } else {
                proof {
                    lemma_dead(terms, now, first, second);
                }
            }
            i += 1;
        }
        if narrowed {
            Pass::Narrowed
        } else {
            Pass::Settled
        }
    }

    /// Undoes every assignment above `level`, and makes the terms and the
    /// decisions anew from the assignments that are left.
    fn backtrack(&mut self, level: usize)
        requires
            old(self).inv(),
        ensures
            final(self).inv(),
            final(self).knowledge == old(self).knowledge,
            final(self).store == old(self).store,
            final(self).labels == old(self).labels,
            final(self).phase == Phase::Propagating,
            level == 0 ==> forall|p: int| 0 <= p < final(self).decided.len() ==> (#[trigger] final(self).decided[p]) is None,
            level == 0 ==> forall|j: int|
                0 <= j < final(self).log.len() ==> (#[trigger] final(self).log[j]).origin is Derivation,
            went_back(*old(self), *final(self), level as int),
    {
        let mut m: usize = 0;
        while m < self.log.len() && self.log[m].level <= level
            invariant
                m <= self.log.len(),
                self.log == old(self).log,
                forall|j: int| 0 <= j < m ==> (#[trigger] self.log[j]).level <= level,
            decreases self.log.len() - m,
        {
            m += 1;
        }
        self.log.truncate(m);
        self.level = if m == 0 {
            0
        } else {
            self.log[m - 1].level
        };
        let n = self.allowed.len();
        let mut p: usize = 0;
        while p < n
            invariant
                p <= n,
                n == self.allowed.len(),
                n == self.decided.len(),
                n == self.labels.len(),
                self.labels == old(self).labels,
                n == self.knowledge@.packages.len(),
                self.knowledge == old(self).knowledge,
                self.store == old(self).store,
                m <= old(self).log.len(),
                self.log@ == old(self).log@.subrange(0, m as int),
                self.level == if m == 0 { 0 } else { old(self).log[m - 1].level },
                forall|j: int| 0 <= j < m ==> (#[trigger] old(self).log[j]).level <= level,
                forall|q: int| 0 <= q < n ==> (#[trigger] self.allowed[q]).wf(),
                forall|q: int| 0 <= q < p ==> (#[trigger] self.allowed[q])@ == TermView::any(),
                forall|q: int| 0 <= q < p ==> (#[trigger] self.decided[q]) is None,
                forall|q: int|
                    0 <= q < n && (#[trigger] self.decided[q]) is Some ==> candidate_known(
                        self.knowledge@,
                        q,
                        self.decided[q]->0 as int,
                    ),
            decreases n - p,
        {
            self.allowed[p] = Term::any();
            self.decided[p] = None;
            p += 1;
        }
        proof {
            lemma_log_prefix(self.knowledge@, old(self).log@, m as int);
            lemma_gathered_start(self.knowledge@, self.log@, self.allowed@);
        }
        let ghost views = self.assignments();
        assert(views =~= old(self).assignments().take(m as int));
        assert(self.allowed() =~= nothing(n as nat));
        assert(self.decided@ =~= decided_upto(views, n as nat, 0));
        assert(m < old(self).log.len() ==> old(self).assignments()[m as int].level > level);
        let mut j: usize = 0;
        while j < m
            invariant
                j <= m,
                views == self.assignments(),
                self.allowed() == gathered_from(nothing(n as nat), views, j as int),
                self.decided@ == decided_upto(views, n as nat, j as int),
                log_sound(self.knowledge@, self.log@),
                gathered_sound(self.knowledge@, self.log@, self.allowed@),
                decisions_logged(old(self).log@, old(self).decided@),
                forall|i: int|
                    0 <= i < j && (#[trigger] self.log[i]).origin is Decision ==> self.log[i].package < n
                        && self.decided[self.log[i].package as int] == Some(self.log[i].origin->candidate),
                forall|q: int| 0 <= q < n && (#[trigger] self.decided[q]) is Some ==> self.decided[q] == old(self).decided[q],
                m == self.log.len(),
                n == self.allowed.len(),
                n == self.decided.len(),
                n == self.labels.len(),
                self.labels == old(self).labels,
                n == self.knowledge@.packages.len(),
                self.knowledge == old(self).knowledge,
                self.store == old(self).store,
                self.log@ == old(self).log@.subrange(0, m as int),
                m <= old(self).log.len(),
                self.level == if m == 0 { 0 } else { old(self).log[m - 1].level },
                forall|j: int| 0 <= j < m ==> (#[trigger] old(self).log[j]).level <= level,
                log_ok(old(self).knowledge@, old(self).store.len() as int, old(self).level as int, old(self).log@),
                forall|q: int| 0 <= q < n ==> (#[trigger] self.allowed[q]).wf(),
                decisions_ok(self.knowledge@, self.decided@),
                level == 0 ==> forall|q: int| 0 <= q < n ==> (#[trigger] self.decided[q]) is None,
            decreases m - j,
        {
            assert(self.log[j as int] == old(self).log[j as int]);
            let q = self.log[j].package;
            let less = self.allowed[q].intersection(&self.log[j].term);
            proof {
                lemma_gathered_step(self.knowledge@, self.log@, self.allowed@, j as int, less);
            }
            let ghost had = self.allowed();
            let ghost chose = self.decided@;
            assert(views[j as int].package == q && views[j as int].term == self.log[j as int].term@ && views[j as int].origin
                == self.log[j as int].origin);
            self.allowed[q] = less;
            assert(self.allowed() =~= had.update(q as int, less@));
            assert(old(self).log[j as int].origin is Decision ==> old(self).decided[q as int] == Some(
                old(self).log[j as int].origin->candidate,
            ));
            match self.log[j].origin {
                Origin::Decision { candidate } => {
                    self.decided[q] = Some(candidate);
                },
                Origin::Derivation { .. } => {},
            }
            assert(self.decided@ =~= decided_upto(views, n as nat, j + 1));
            j += 1;
        }
        self.phase = Phase::Propagating;
        proof {
            assert forall|i: int| 0 <= i < views.len() implies (#[trigger] views[i]).level <= level by {
                assert(views[i].level == old(self).log[i].level);
            }
            assert forall|a: int| 0 <= a < self.log.len() implies (#[trigger] self.log[a]) == old(self).log[a] by {}
            assert forall|a: int| 0 <= a < self.log.len() implies (#[trigger] self.log[a]).level <= self.level by {
                assert(old(self).log[a].level <= old(self).log[m - 1].level);
            }
            assert(log_ok(self.knowledge@, self.store.len() as int, self.level as int, self.log@));
        }
    }

    /// Whether each term of the incompatibility allows all that the term
    /// gathered for its package allows: the gathered terms satisfy it.
    fn met_by(&self, inc: usize, gathered: &Vec<Term>) -> (r: bool)
        requires
            self.inv(),
            inc < self.store.len(),
            gathered.len() == self.knowledge@.packages.len(),
        ensures
            r == satisfied_by(self.store[inc as int]@.terms, term_views(gathered@)),
    {
        let n = self.store[inc].len();
        let ghost terms = self.store[inc as int]@.terms;
        let ghost views = term_views(gathered@);
        let mut q: usize = 0;
        while q < n
            invariant
                self.inv(),
                inc < self.store.len(),
                terms == self.store[inc as int]@.terms,
                views == term_views(gathered@),
                n == terms.len(),
                q <= n,
                gathered.len() == self.knowledge@.packages.len(),
                forall|x: int| 0 <= x < q ==> !#[trigger] unmet(terms, views, x),
            decreases n - q,
        {
            assert(views[q as int] == gathered[q as int]@);
            if self.store[inc].mentions(q) {
                let t = self.store[inc].term(q);
                if !gathered[q].subset_of(&t) {
                    assert(unmet(terms, views, q as int));
                    return false;
                }
            }
            q += 1;
        }
        true
    }

    /// One term for each package, each allowing every state.
    fn nothing_gathered(n: usize) -> (r: Vec<Term>)
        ensures
            r.len() == n,
            term_views(r@) == nothing(n as nat),
    {
        let mut r: Vec<Term> = Vec::new();
        let mut p: usize = 0;
        while p < n
            invariant
                p <= n,
                r.len() == p,
                forall|q: int| 0 <= q < p ==> (#[trigger] r[q])@ == TermView::any(),
            decreases n - p,
        {
            r.push(Term::any());
            p += 1;
        }
        assert(term_views(r@) =~= nothing(n as nat));
        r
    }

    /// The satisfier of an incompatibility among the first `bound`
    /// assignments: the earliest assignment, on a package that the
    /// incompatibility speaks of, with which the log satisfies every term;
    /// and with it the level to go back to, which is the level of the
    /// earliest assignment with which, together with the satisfier, the log
    /// satisfies every term (0 where the satisfier alone does). None where
    /// the first `bound` assignments do not satisfy the incompatibility.
    fn satisfier(&self, inc: usize, bound: usize) -> (r: Option<(usize, usize)>)
        requires
            self.inv(),
            inc < self.store.len(),
            bound <= self.log.len(),
        ensures
            match r {
                Some((at, back)) => {
                    &&& at < bound
                    &&& back <= self.log[at as int].level
                    &&& first_satisfies(
                        self.store[inc as int]@.terms,
                        nothing(self.knowledge@.packages.len()),
                        self.assignments(),
                        at as int,
                    )
                    &&& goes_back_to(
                        self.store[inc as int]@.terms,
                        self.knowledge@.packages.len(),
                        self.assignments(),
                        at as int,
                        back as int,
                    )
                },
                None => forall|j: int|
                    0 <= j < bound ==> !#[trigger] satisfies_at(
                        self.store[inc as int]@.terms,
                        nothing(self.knowledge@.packages.len()),
                        self.assignments(),
                        j,
                    ),
            },
    {
        let n = self.allowed.len();
        let ghost terms = self.store[inc as int]@.terms;
        let ghost start = nothing(n as nat);
        let mut gathered = Solver::nothing_gathered(n);
        let mut at: usize = bound;
        let mut j: usize = 0;
        while j < bound && at == bound
            invariant
                self.inv(),
                inc < self.store.len(),
                terms == self.store[inc as int]@.terms,
                start == nothing(n as nat),
                bound <= self.log.len(),
                j <= bound,
                at <= bound,
                n == self.knowledge@.packages.len(),
                gathered.len() == n,
                at == bound ==> term_views(gathered@) == gathered_from(start, self.assignments(), j as int),
                at == bound ==> forall|i: int| 0 <= i < j ==> !#[trigger] satisfies_at(terms, start, self.assignments(), i),
                at < bound ==> at < j && first_satisfies(terms, start, self.assignments(), at as int),
            decreases bound - j,
        {
            let q = self.log[j].package;
            assert(self.assignments()[j as int].package == q && self.assignments()[j as int].term == self.log[j as int].term@);
            let less = gathered[q].intersection(&self.log[j].term);
            let ghost had = term_views(gathered@);
            gathered[q] = less;
            assert(term_views(gathered@) =~= gathered_from(start, self.assignments(), j + 1)) by {
                assert(term_views(gathered@) =~= had.update(q as int, less@));
            }
            if self.store[inc].mentions(q) && self.met_by(inc, &gathered) {
                at = j;
            }
            j += 1;
        }
        if at >= bound {
            return None;
        }
        let mut with = Solver::nothing_gathered(n);
        let mine = self.log[at].package;
        with[mine] = self.log[at].term.duplicate();
        let ghost alone = nothing(n as nat).update(mine as int, self.log[at as int].term@);
        assert(self.assignments()[at as int].term == self.log[at as int].term@);
        assert(term_views(with@) =~= alone);
        let mut back: usize = self.log[at].level;
        if self.met_by(inc, &with) {
            back = 0;
        } else {
            let mut k: usize = 0;
            let mut done = false;
            assert(term_views(with@) =~= gathered_from(alone, self.assignments(), 0));
            while k < at && !done
                invariant
                    self.inv(),
                    inc < self.store.len(),
                    terms == self.store[inc as int]@.terms,
                    at < self.log.len(),
                    k <= at,
                    n == self.knowledge@.packages.len(),
                    with.len() == n,
                    back <= self.log[at as int].level,
                    !done ==> term_views(with@) == gathered_from(alone, self.assignments(), k as int),
                    !done ==> back == self.log[at as int].level,
                    !done ==> forall|i: int| 0 <= i < k ==> !#[trigger] satisfies_at(terms, alone, self.assignments(), i),
                    done ==> exists|i: int|
                        i < at && #[trigger] first_satisfies(terms, alone, self.assignments(), i) && back == self.log[i].level,
                decreases at - k,
            {
                let q = self.log[k].package;
                assert(self.assignments()[k as int].package == q && self.assignments()[k as int].term == self.log[k as int].term@);
                assert(self.assignments()[k as int].level == self.log[k as int].level);
                let less = with[q].intersection(&self.log[k].term);
                let ghost had = term_views(with@);
                with[q] = less;
                assert(term_views(with@) =~= had.update(q as int, less@));
                assert(term_views(with@) =~= gathered_from(alone, self.assignments(), k + 1));
                if self.store[inc].mentions(q) && self.met_by(inc, &with) {
                    back = self.log[k].level;
                    done = true;
                    assert(first_satisfies(terms, alone, self.assignments(), k as int));
                }
                k += 1;
            }
        }
        Some((at, back))
    }

    /// Conflict resolution. From the incompatibility in conflict, as long
    /// as its satisfier is a derivation at the level to go back to, the
    /// resolvent with the satisfier's cause is learned and taken in its
    /// place. An incompatibility that speaks of no package ends the run;
    /// otherwise the solver is about to go back below the satisfier.
    fn resolve_conflict(&mut self, conflict: usize)
        requires
            old(self).inv(),
            conflict < old(self).store.len(),
        ensures
            final(self).inv(),
            final(self).knowledge == old(self).knowledge,
            final(self).decided == old(self).decided,
            final(self).labels == old(self).labels,
            final(self).phase is Backtracking || final(self).phase == Phase::Unsatisfiable,
            old(self).store@.is_prefix_of(final(self).store@),
            learned_from(*old(self), *final(self), conflict as int),
    {
        let ghost first = self.store.len() as int;
        let ghost log = self.assignments();
        let ghost n = self.knowledge@.packages.len();
        let mut current = conflict;
        let mut bound = self.log.len();
        let mut target: usize = 0;
        let mut learning = true;
        while learning
            invariant
                self.inv(),
                self.knowledge == old(self).knowledge,
                self.decided == old(self).decided,
                self.log == old(self).log,
                self.allowed == old(self).allowed,
                self.level == old(self).level,
                self.labels == old(self).labels,
                self.phase == old(self).phase,
                current < self.store.len(),
                bound <= self.log.len(),
                target <= self.level,
                old(self).store@.is_prefix_of(self.store@),
                first == old(self).store.len(),
                first <= self.store.len(),
                log == self.assignments(),
                n == self.knowledge@.packages.len(),
                conflict < first,
                current == if self.store.len() == first { conflict as int } else { self.store.len() - 1 },
                learned_in_turn(self.incompatibilities(), self.causes(), log, n, first, conflict as int),
                searched_below(first, self.incompatibilities(), self.causes(), log, n, conflict as int, bound as int),
                !learning ==> !says_nothing(self.incompatibilities()[current as int]) && turns_back_to(
                    self.incompatibilities()[current as int],
                    n,
                    log,
                    bound as int,
                    target as int,
                ),
            decreases bound + if learning { 1int } else { 0int },
        {
            assert(self.incompatibilities()[current as int] == self.store[current as int]@.terms);
            if self.store[current].is_empty() {
                proof {
                    let terms = self.store[current as int]@.terms;
                    assert(self.knowledge@.entails(terms));
                    assert forall|sel: Selection| !self.knowledge@.possible(sel) by {
                        assert(crate::incompatibility::forbids(terms, sel));
                    }
                }
                let ghost held = self.incompatibilities();
                let ghost causes = self.causes();
                self.phase = Phase::Unsatisfiable;
                assert(self.assignments() =~= old(self).assignments());
                assert(self.allowed() =~= old(self).allowed());
                assert(self.incompatibilities() =~= held);
                assert(self.causes() =~= causes);
                return ;
            }
            match self.satisfier(current, bound) {
                None => {
                    target = 0;
                    learning = false;
                },
                Some((at, back)) => {
                    assert(log[at as int].origin == self.log[at as int].origin && log[at as int].level
                        == self.log[at as int].level && log[at as int].package == self.log[at as int].package);
                    match self.log[at].origin {
                        Origin::Decision { .. } => {
                            target = back;
                            learning = false;
                        },
                        Origin::Derivation { cause } => {
                            if back < self.log[at].level {
                                target = back;
                                learning = false;
                            } else {
                                let pivot = self.log[at].package;
                                let learned = self.store[current].resolve(
                                    &self.store[cause],
                                    pivot,
                                    Cause::Derived { left: current, right: cause },
                                );
                                proof {
                                    let a = self.store[current as int]@.terms;
                                    let b = self.store[cause as int]@.terms;
                                    assert(self.store[current as int].wf() && self.store[cause as int].wf());
                                    assert forall|sel: Selection| #[trigger]
                                        self.knowledge@.possible(sel) implies !crate::incompatibility::forbids(
                                        learned@.terms,
                                        sel,
                                    ) by {
                                        if crate::incompatibility::forbids(learned@.terms, sel) {
                                            lemma_resolvent_sound(a, b, pivot as int, sel);
                                        }
                                    }
                                }
                                let ghost held = self.incompatibilities();
                                let ghost causes = self.causes();
                                let ghost was = current as int;
                                let ghost had_bound = bound as int;
                                assert(held[cause as int] == self.store[cause as int]@.terms);
                                self.hold(learned);
                                current = self.store.len() - 1;
                                bound = at;
                                proof {
                                    let more = self.incompatibilities();
                                    let more_causes = self.causes();
                                    assert(self.assignments() =~= log);
                                    assert forall|i: int| 0 <= i < held.len() implies more[i] == held[i] && more_causes[i]
                                        == causes[i] by {}
                                    assert(more[current as int] == learned@.terms);
                                    assert(more_causes[current as int] == learned@.cause);
                                    assert(first_satisfies(more[was], nothing(n), log, at as int));
                                    assert(resolved_at(more, more_causes, log, n, current as int, was, at as int));
                                    assert(resolved(more, more_causes, log, n, current as int, was));
                                    assert forall|j: int, k: int, prev: int, seat: int|
                                        first <= j && k == j + 1 && k < more.len() && #[trigger] resolved_at(
                                            more,
                                            more_causes,
                                            log,
                                            n,
                                            j,
                                            came_from(first, conflict as int, j),
                                            prev,
                                        ) && #[trigger] resolved_at(
                                            more,
                                            more_causes,
                                            log,
                                            n,
                                            k,
                                            came_from(first, conflict as int, k),
                                            seat,
                                        ) implies seat < prev by {
                                        lemma_resolved_at_same(
                                            held,
                                            causes,
                                            more,
                                            more_causes,
                                            log,
                                            n,
                                            j,
                                            came_from(first, conflict as int, j),
                                            prev,
                                        );
                                        if k < held.len() {
                                            lemma_resolved_at_same(
                                                held,
                                                causes,
                                                more,
                                                more_causes,
                                                log,
                                                n,
                                                k,
                                                came_from(first, conflict as int, k),
                                                seat,
                                            );
                                        } else {
                                            assert(seat == at);
                                            assert(prev == had_bound);
                                        }
                                    }
                                    assert forall|k: int| first <= k < more.len() implies #[trigger] resolved(
                                        more,
                                        more_causes,
                                        log,
                                        n,
                                        k,
                                        came_from(first, conflict as int, k),
                                    ) by {
                                        if k < held.len() {
                                            assert(resolved(held, causes, log, n, k, came_from(first, conflict as int, k)));
                                            lemma_resolved_stays(
                                                held,
                                                causes,
                                                more,
                                                more_causes,
                                                log,
                                                n,
                                                k,
                                                came_from(first, conflict as int, k),
                                            );
                                        }
                                    }
                                }
                            }
                        },
                    }
                },
            }
        }
        let ghost held = self.incompatibilities();
        let ghost causes = self.causes();
        self.phase = Phase::Backtracking { level: target };
        proof {
            assert(self.assignments() =~= old(self).assignments());
            assert(self.allowed() =~= old(self).allowed());
            assert(self.incompatibilities() =~= held);
            assert(self.causes() =~= causes);
            assert(old(self).incompatibilities().len() == first);
            assert(came_from(first, conflict as int, held.len() as int) == current);
            assert(searched_below(first, held, causes, log, n, conflict as int, bound as int));
            assert(turns_back_to(held[current as int], n, log, bound as int, target as int));
            let was = old(self).incompatibilities();
            let last = came_from(was.len() as int, conflict as int, held.len() as int);
            assert(held[last] == held[current as int]);
            assert(way_back(was.len() as int, held, causes, log, n, conflict as int, target as int));
        }
    }

    /// The highest candidate of package `p` that may be decided, and how
    /// many may.
    fn survey(&self, p: usize) -> (r: (usize, Option<usize>))
        requires
            self.inv(),
            p < self.knowledge@.packages.len(),
            self.knowledge@.packages[p as int].candidates is Some,
        ensures
            match r.1 {
                Some(c) => {
                    &&& c < self.knowledge@.packages[p as int].candidates->0.len()
                    &&& admitted(self.knowledge@, self.allowed[p as int]@, p as int, c as int)
                    &&& forall|d: int|
                        c < d < self.knowledge@.packages[p as int].candidates->0.len() ==> !admitted(
                            self.knowledge@,
                            self.allowed[p as int]@,
                            p as int,
                            d,
                        )
                },
                None => forall|d: int|
                    0 <= d < self.knowledge@.packages[p as int].candidates->0.len() ==> !admitted(
                        self.knowledge@,
                        self.allowed[p as int]@,
                        p as int,
                        d,
                    ),
            },
            r.0 <= self.knowledge@.packages[p as int].candidates->0.len(),
            r.1 is None <==> r.0 == 0,
            r.0 == candidates_left(self.knowledge@, self.allowed(), p as int),
    {
        let ghost k = self.knowledge@;
        assert(k.package_wf(p as int));
        assert(self.allowed()[p as int] == self.allowed[p as int]@);
        let n = match self.knowledge.candidate_count(p) {
            Some(n) => n,
            None => 0,
        };
        let mut count: usize = 0;
        let mut highest: Option<usize> = None;
        let mut c: usize = 0;
        while c < n
            invariant
                self.inv(),
                k == self.knowledge@,
                p < k.packages.len(),
                k.packages[p as int].candidates is Some,
                n == k.packages[p as int].candidates->0.len(),
                n == k.packages[p as int].metadata.len(),
                c <= n,
                count <= c,
                count == admitted_count(k, self.allowed[p as int]@, p as int, c as int),
                highest is None <==> count == 0,
                match highest {
                    Some(h) => {
                        &&& h < c
                        &&& admitted(k, self.allowed[p as int]@, p as int, h as int)
                        &&& forall|d: int| h < d < c ==> !admitted(k, self.allowed[p as int]@, p as int, d)
                    },
                    None => forall|d: int| 0 <= d < c ==> !admitted(k, self.allowed[p as int]@, p as int, d),
                },
            decreases n - c,
        {
            let v = self.knowledge.candidate(p, c);
            let allows = self.allowed[p].allows_version(v);
            let kind = self.knowledge.metadata_kind(p, c);
            if allows && kind != MetadataKind::Unavailable {
                count += 1;
                highest = Some(c);
            }
            c += 1;
        }
        (count, highest)
    }

    /// Whether package `p` is required and has no decision yet.
    fn pending(&self, p: usize) -> (r: bool)
        requires
            self.inv(),
            p < self.knowledge@.packages.len(),
        ensures
            r == (!self.allowed[p as int]@.absent && self.decided[p as int] is None),
            r == is_pending(self.allowed(), self.decided@, p as int),
    {
        assert(self.allowed()[p as int] == self.allowed[p as int]@);
        !self.allowed[p].allows_absence() && self.decided[p].is_none()
    }

    /// Decides the candidate of number `c` for package `p`, one level up.
    fn decide(&mut self, p: usize, c: usize)
        requires
            old(self).inv(),
            candidate_known(old(self).knowledge@, p as int, c as int),
            old(self).decided[p as int] is None,
            old(self).phase == Phase::Propagating,
        ensures
            final(self).inv(),
            final(self).knowledge == old(self).knowledge,
            final(self).store == old(self).store,
            final(self).phase == Phase::Propagating,
            final(self).decided@ == old(self).decided@.update(p as int, Some(c)),
            final(self).log.len() == old(self).log.len() + 1,
            final(self).labels == old(self).labels,
            decided_as(*old(self), *final(self), p as int, c as int),
    {
        let only = VersionSet::singleton(self.knowledge.candidate(p, c));
        let term = Term::new(false, only);
        let less = self.allowed[p].intersection(&term);
        self.allowed[p] = less;
        self.log.push(Assignment { package: p, term, level: 0, origin: Origin::Decision { candidate: c } });
        let last = self.log.len() - 1;
        assert(self.level <= last) by {
            assert(log_ok(old(self).knowledge@, old(self).store.len() as int, old(self).level as int, old(self).log@));
        }
        self.level = self.level + 1;
        self.log[last].level = self.level;
        self.decided[p] = Some(c);
        proof {
            assert forall|j: int| 0 <= j < last implies (#[trigger] self.log[j]) == old(self).log[j] by {}
            assert(self.knowledge@.package_wf(p as int));
            lemma_decide(
                self.knowledge@,
                old(self).log@,
                old(self).allowed@,
                self.log@,
                p as int,
                c as int,
                self.allowed[p as int],
            );
            assert(self.allowed@ =~= old(self).allowed@.update(p as int, self.allowed[p as int]));
            assert forall|j: int| 0 <= j < self.log.len() && (#[trigger] self.log[j]).origin is Decision implies self.log[j].package
                < self.decided.len() && self.decided[self.log[j].package as int] == Some(
                self.log[j].origin->candidate,
            ) by {
                if j < last {
                    assert(old(self).log[j].origin is Decision);
                    assert(old(self).decided[old(self).log[j].package as int] == Some(old(self).log[j].origin->candidate));
                }
            }
            assert(self.assignments() =~= old(self).assignments().push(
                AssignmentView {
                    package: p as int,
                    term: term@,
                    level: old(self).level + 1,
                    origin: Origin::Decision { candidate: c },
                },
            ));
            assert(self.allowed() =~= old(self).allowed().update(
                p as int,
                old(self).allowed()[p as int].intersection(term@),
            ));
            assert(self.incompatibilities() =~= old(self).incompatibilities());
            assert(self.causes() =~= old(self).causes());
        }
    }

    /// Whether the decisions meet the requirement.
    fn meets(&self, req: &Requirement) -> (r: bool)
        requires
            self.inv(),
            req@.package < self.knowledge@.packages.len(),
        ensures
            r == crate::knowledge::requirement_met(req@, selection_of(self.knowledge@, self.decided@)),
    {
        let q = req.package();
        match self.decided[q] {
            None => false,
            Some(d) => req.versions().contains(self.knowledge.candidate(q, d)),
        }
    }

    /// The incompatibility that rules out that the root requirement of
    /// number `i` is unmet.
    fn root_clause(&self, i: usize) -> (r: Incompatibility)
        requires
            self.inv(),
            i < self.knowledge@.roots.len(),
        ensures
            r@.terms.len() <= self.knowledge@.packages.len(),
            self.knowledge@.entails(r@.terms),
            r@.cause == (Cause::Root { requirement: i }),
            r@.terms == lone(
                self.knowledge@.roots[i as int].package,
                crate::knowledge::unmet_term(self.knowledge@.roots[i as int]),
            ),
    {
        let root = &self.knowledge.roots()[i];
        assert(self.knowledge@.roots[i as int] == root@);
        let term = Term::new(true, root.versions().complement());
        let one = Incompatibility::of_one(root.package(), term, Cause::Root { requirement: i });
        proof {
            lemma_root_entailed(self.knowledge@, i as int, one@.terms);
            assert(one@.terms =~= lone(root@.package, crate::knowledge::unmet_term(root@))) by {
                assert forall|q: int| 0 <= q < one@.terms.len() implies one@.terms[q] == lone(
                    root@.package,
                    crate::knowledge::unmet_term(root@),
                )[q] by {
                    assert(crate::incompatibility::term_at(one@.terms, q) == one@.terms[q]);
                }
            }
        }
        one
    }

    /// The incompatibility that rules out the candidate of number `c` of
    /// package `p` together with its declared requirement of number `i`
    /// being unmet.
    fn dependency_clause(&self, p: usize, c: usize, i: usize) -> (r: Incompatibility)
        requires
            self.inv(),
            candidate_known(self.knowledge@, p as int, c as int),
            i < self.knowledge@.packages[p as int].metadata[c as int]->Known_0.len(),
        ensures
            r@.terms.len() <= self.knowledge@.packages.len(),
            self.knowledge@.entails(r@.terms),
            r@.cause == (Cause::Dependency { package: p, candidate: c, requirement: i }),
            r@.terms == pair_of(
                p as int,
                exactly(self.knowledge@.packages[p as int].candidates->0[c as int]),
                self.knowledge@.packages[p as int].metadata[c as int]->Known_0[i as int].package,
                crate::knowledge::unmet_term(self.knowledge@.packages[p as int].metadata[c as int]->Known_0[i as int]),
            ),
    {
        let ghost known = self.knowledge@;
        let ghost rs = known.packages[p as int].metadata[c as int]->Known_0;
        assert(known.package_wf(p as int));
        let dep = self.knowledge.dependency(p, c, i);
        assert(dep@ == rs[i as int]);
        let unmet = Term::new(true, dep.versions().complement());
        let only = VersionSet::singleton(self.knowledge.candidate(p, c));
        let one = Incompatibility::of_two(
            p,
            Term::new(false, only),
            dep.package(),
            unmet,
            Cause::Dependency { package: p, candidate: c, requirement: i },
        );
        proof {
            assert(unmet@ == unmet_term(rs[i as int]));
            assert forall|x: Seq<char>| is_version(x) && #[trigger] only@.contains(x) implies version_same(
                known.packages[p as int].candidates->0[c as int],
                x,
            ) by {}
            lemma_dependency_entailed(known, p as int, c as int, i as int, only@, one@.terms);
            let goal = pair_of(
                p as int,
                exactly(known.packages[p as int].candidates->0[c as int]),
                rs[i as int].package,
                crate::knowledge::unmet_term(rs[i as int]),
            );
            assert(one@.terms =~= goal) by {
                assert forall|q: int| 0 <= q < one@.terms.len() implies one@.terms[q] == goal[q] by {
                    assert(crate::incompatibility::term_at(one@.terms, q) == one@.terms[q]);
                }
            }
        }
        one
    }

    /// Holds the decisions against every root requirement and against every
    /// requirement that a decided candidate declares. Where all are met the
    /// run is over; a requirement that is not met is a conflict.
    fn settle(&mut self)
        requires
            old(self).inv(),
            old(self).phase == Phase::Propagating,
        ensures
            final(self).inv(),
            final(self).knowledge == old(self).knowledge,
            final(self).decided == old(self).decided,
            final(self).allowed == old(self).allowed,
            final(self).labels == old(self).labels,
            final(self).phase == Phase::Satisfied || final(self).phase is ConflictFound,
            old(self).store@.is_prefix_of(final(self).store@),
            final(self).log == old(self).log,
            final(self).level == old(self).level,
            final(self).phase == Phase::Satisfied ==> final(self).store == old(self).store,
            final(self).phase matches Phase::ConflictFound { incompatibility } ==> incompatibility
                == old(self).store.len() && found_unmet(*old(self), *final(self)),
    {
        let ghost k = self.knowledge@;
        let ghost sel = selection_of(k, self.decided@);
        let roots = self.knowledge.roots().len();
        let mut i: usize = 0;
        while i < roots
            invariant
                self.inv(),
                self.knowledge == old(self).knowledge,
                self.decided == old(self).decided,
                self.allowed == old(self).allowed,
                self.labels == old(self).labels,
                self.phase == Phase::Propagating,
                k == self.knowledge@,
                sel == selection_of(k, self.decided@),
                roots == k.roots.len(),
                i <= roots,
                self.store == old(self).store,
                self.log == old(self).log,
                self.level == old(self).level,
                forall|j: int| 0 <= j < i ==> crate::knowledge::requirement_met(#[trigger] k.roots[j], sel),
            decreases roots - i,
        {
            let root = &self.knowledge.roots()[i];
            assert(k.roots[i as int] == root@);
            if !self.meets(root) {
                let one = self.root_clause(i);
                let ghost terms = one@.terms;
                let ghost cause = one@.cause;
                self.hold(one);
                self.phase = Phase::ConflictFound { incompatibility: self.store.len() - 1 };
                proof {
                    assert(self.incompatibilities() =~= old(self).incompatibilities().push(terms));
                    assert(self.causes() =~= old(self).causes().push(cause));
                    assert(root_unmet(*old(self), *self, i as int));
                }
                return ;
            }
            i += 1;
        }
        let n = self.decided.len();
        let mut p: usize = 0;
        while p < n
            invariant
                self.inv(),
                self.knowledge == old(self).knowledge,
                self.decided == old(self).decided,
                self.allowed == old(self).allowed,
                self.labels == old(self).labels,
                self.phase == Phase::Propagating,
                k == self.knowledge@,
                sel == selection_of(k, self.decided@),
                n == self.decided.len(),
                n == k.packages.len(),
                p <= n,
                self.store == old(self).store,
                self.log == old(self).log,
                self.level == old(self).level,
                crate::knowledge::requirements_met(k.roots, sel),
                forall|q: int|
                    0 <= q < p && (#[trigger] self.decided[q]) is Some ==> crate::knowledge::requirements_met(
                        k.packages[q].metadata[self.decided[q]->0 as int]->Known_0,
                        sel,
                    ),
            decreases n - p,
        {
            match self.decided[p] {
                None => {},
                Some(c) => {
                    assert(candidate_known(k, p as int, c as int));
                    assert(k.package_wf(p as int));
                    let count = self.knowledge.dependency_count(p, c);
                    let ghost rs = k.packages[p as int].metadata[c as int]->Known_0;
                    let mut d: usize = 0;
                    while d < count
                        invariant
                            self.inv(),
                            self.knowledge == old(self).knowledge,
                            self.decided == old(self).decided,
                            self.allowed == old(self).allowed,
                            self.labels == old(self).labels,
                            self.phase == Phase::Propagating,
                            k == self.knowledge@,
                            sel == selection_of(k, self.decided@),
                            p < n,
                            n == self.decided.len(),
                            n == k.packages.len(),
                            self.decided[p as int] == Some(c),
                            candidate_known(k, p as int, c as int),
                            k.package_wf(p as int),
                            rs == k.packages[p as int].metadata[c as int]->Known_0,
                            count == rs.len(),
                            d <= count,
                            self.store == old(self).store,
                            self.log == old(self).log,
                            self.level == old(self).level,
                            crate::knowledge::requirements_met(k.roots, sel),
                            forall|q: int|
                                0 <= q < p && (#[trigger] self.decided[q]) is Some ==> crate::knowledge::requirements_met(
                                    k.packages[q].metadata[self.decided[q]->0 as int]->Known_0,
                                    sel,
                                ),
                            forall|e: int| 0 <= e < d ==> crate::knowledge::requirement_met(#[trigger] rs[e], sel),
                        decreases count - d,
                    {
                        let dep = self.knowledge.dependency(p, c, d);
                        assert(dep@ == rs[d as int]);
                        if !self.meets(dep) {
                            let one = self.dependency_clause(p, c, d);
                            let ghost terms = one@.terms;
                            let ghost cause = one@.cause;
                            self.hold(one);
                            self.phase = Phase::ConflictFound { incompatibility: self.store.len() - 1 };
                            proof {
                                assert(self.incompatibilities() =~= old(self).incompatibilities().push(terms));
                                assert(self.causes() =~= old(self).causes().push(cause));
                                assert(dependency_unmet(*old(self), *self, p as int, d as int));
                            }
                            return ;
                        }
                        d += 1;
                    }
                },
            }
            p += 1;
        }
        proof {
            lemma_decisions_solve(k, self.decided@);
        }
        self.phase = Phase::Satisfied;
    }

    /// What to do once nothing more follows from what is held. A pending
    /// package whose candidates are not listed is asked for. Of the pending
    /// packages, the one with the fewest candidates that may be decided is
    /// taken (of equals the one whose name comes first, and of those with
    /// one name the one of the lowest number), and of its candidates the
    /// highest that may be decided: where there is none the solver learns
    /// that, where its metadata is unknown it is asked for, else it is
    /// decided. With no package pending the decisions are held against the
    /// requirements.
    fn advance(&mut self) -> (r: Action)
        requires
            old(self).inv(),
            old(self).phase == Phase::Propagating,
        ensures
            final(self).inv(),
            final(self).knowledge == old(self).knowledge,
            final(self).labels == old(self).labels,
            may_follow(Phase::Propagating, final(self).phase),
            action_fits(final(self).knowledge@, final(self).phase, r),
            old(self).store@.is_prefix_of(final(self).store@),
            r == Action::Continue && final(self).phase == Phase::Propagating ==> final(self).store.len() > old(self).store.len(),
            !(r is Decided) ==> final(self).decided == old(self).decided && final(self).allowed == old(self).allowed,
            r matches Action::NeedCandidates { package } ==> {
                &&& old(self).pending_at(package as int)
                &&& forall|q: int|
                    0 <= q < package ==> !(old(self).pending_at(q) && (#[trigger] old(self).knowledge@.packages[q]).candidates
                        is None)
            },
            r matches Action::NeedMetadata { package, candidate } ==> old(self).choice_is(package as int) && old(self).highest_is(package as int, candidate as int),
            r matches Action::Decided { package, candidate } ==> {
                &&& old(self).choice_is(package as int)
                &&& old(self).highest_is(package as int, candidate as int)
                &&& final(self).decided@ == old(self).decided@.update(package as int, Some(candidate))
                &&& final(self).log.len() > old(self).log.len()
                &&& decided_as(*old(self), *final(self), package as int, candidate as int)
            },
            r == Action::Done || (r == Action::Continue && !(final(self).phase == Phase::Propagating))
                ==> forall|q: int| !old(self).pending_at(q),
            r == Action::Continue && final(self).phase == Phase::Propagating ==> exists|p: int|
                old(self).choice_is(p) && forall|d: int|
                    0 <= d < old(self).knowledge@.packages[p].candidates->0.len() ==> !admitted(
                        old(self).knowledge@,
                        old(self).allowed()[p],
                        p,
                        d,
                    ),
            settled(*old(self), *final(self), r),
    {
        let n = self.decided.len();
        let ghost k = self.knowledge@;
        let ghost allowed = self.allowed();
        let ghost decided = self.decided@;
        let ghost labels = self.labels();
        let mut p: usize = 0;
        while p < n
            invariant
                self.inv(),
                n == self.knowledge@.packages.len(),
                n == self.decided.len(),
                p <= n,
                self.phase == Phase::Propagating,
                self.knowledge == old(self).knowledge,
                self.store == old(self).store,
                self.log == old(self).log,
                self.allowed == old(self).allowed,
                self.decided == old(self).decided,
                self.labels == old(self).labels,
                forall|q: int| 0 <= q < p ==> !(self.pending_at(q) && (#[trigger] self.knowledge@.packages[q]).candidates is None),
            decreases n - p,
        {
            if self.pending(p) && self.knowledge.candidate_count(p).is_none() {
                return Action::NeedCandidates { package: p };
            }
            p += 1;
        }
        let mut best: Option<usize> = None;
        let mut fewest: usize = 0;
        let mut highest: Option<usize> = None;
        p = 0;
        while p < n
            invariant
                self.inv(),
                n == self.knowledge@.packages.len(),
                n == self.decided.len(),
                n == self.labels.len(),
                n == self.allowed.len(),
                p <= n,
                self.phase == Phase::Propagating,
                self.knowledge == old(self).knowledge,
                self.allowed == old(self).allowed,
                self.decided == old(self).decided,
                self.labels == old(self).labels,
                self.store == old(self).store,
                self.log == old(self).log,
                k == self.knowledge@,
                allowed == self.allowed(),
                decided == self.decided@,
                labels == self.labels(),
                forall|q: int| 0 <= q < n ==> !(self.pending_at(q) && (#[trigger] k.packages[q]).candidates is None),
                match best {
                    None => forall|q: int| 0 <= q < p ==> !is_pending(allowed, decided, q),
                    Some(b) => {
                        &&& b < p
                        &&& is_pending(allowed, decided, b as int)
                        &&& k.packages[b as int].candidates is Some
                        &&& fewest == candidates_left(k, allowed, b as int)
                        &&& forall|q: int|
                            0 <= q < p && is_pending(allowed, decided, q) ==> #[trigger] goes_first(
                                k,
                                allowed,
                                labels,
                                b as int,
                                q,
                            )
                        &&& match highest {
                            Some(c) => is_highest(k, allowed[b as int], b as int, c as int),
                            None => forall|d: int|
                                0 <= d < k.packages[b as int].candidates->0.len() ==> !admitted(
                                    k,
                                    allowed[b as int],
                                    b as int,
                                    d,
                                ),
                        }
                    },
                },
            decreases n - p,
        {
            if self.pending(p) {
                assert(k.packages[p as int].candidates is Some);
                assert(allowed[p as int] == self.allowed[p as int]@);
                let (count, top) = self.survey(p);
                let better = match best {
                    None => true,
                    Some(b) => count < fewest || (count == fewest && precedes(
                        self.labels[p].as_str(),
                        self.labels[b].as_str(),
                    )),
                };
                proof {
                    assert(labels[p as int] == self.labels[p as int]@);
                    if let Some(b) = best {
                        assert(labels[b as int] == self.labels[b as int]@);
                        crate::names::lemma_text_order(labels[p as int], labels[b as int]);
                        if better {
                            assert(goes_first(k, allowed, labels, p as int, b as int));
                            assert forall|q: int| 0 <= q < p + 1 && is_pending(allowed, decided, q) implies #[trigger] goes_first(
                                k,
                                allowed,
                                labels,
                                p as int,
                                q,
                            ) by {
                                if q < p {
                                    lemma_goes_first_trans(k, allowed, labels, p as int, b as int, q);
                                }
                            }
                        } else {
                            assert(goes_first(k, allowed, labels, b as int, p as int));
                        }
                    }
                }
                if better {
                    best = Some(p);
                    fewest = count;
                    highest = top;
                }
            }
            p += 1;
        }
        let b = match best {
            None => {
                self.settle();
                return if self.phase == Phase::Satisfied {
                    Action::Done
                } else {
                    Action::Continue
                };
            },
            Some(b) => b,
        };
        assert(k.package_wf(b as int));
        assert(old(self).choice_is(b as int));
        match highest {
            None => {
                let set = self.allowed[b].versions().duplicate();
                let one = Incompatibility::of_one(b, Term::new(false, set), Cause::NoVersions { package: b });
                proof {
                    assert(allowed[b as int] == self.allowed[b as int]@);
                    assert forall|d: int|
                        0 <= d < k.packages[b as int].candidates->0.len() && self.allowed[b as int]@.versions.contains(
                            #[trigger] k.packages[b as int].candidates->0[d],
                        ) implies k.packages[b as int].metadata[d] is Unavailable by {
                        assert(!admitted(k, self.allowed[b as int]@, b as int, d));
                    }
                    lemma_no_versions_entailed(k, b as int, self.allowed[b as int]@.versions, one@.terms);
                }
                let ghost terms = one@.terms;
                self.hold(one);
                proof {
                    let goal = lone(b as int, crate::knowledge::present_term(allowed[b as int].versions));
                    assert(terms =~= goal) by {
                        assert forall|q: int| 0 <= q < terms.len() implies terms[q] == goal[q] by {
                            assert(crate::incompatibility::term_at(terms, q) == terms[q]);
                        }
                    }
                    assert(self.incompatibilities() =~= old(self).incompatibilities().push(terms));
                    assert(self.causes() =~= old(self).causes().push(Cause::NoVersions { package: b }));
                    assert(self.assignments() =~= old(self).assignments());
                    assert(found_none(*old(self), *self, b as int));
                }
                Action::Continue
            },
            Some(c) => {
                assert(old(self).highest_is(b as int, c as int));
                if self.knowledge.metadata_kind(b, c) == MetadataKind::Known {
                    self.decide(b, c);
                    Action::Decided { package: b, candidate: c }
                } else {
                    Action::NeedMetadata { package: b, candidate: c }
                }
            },
        }
    }

    /// One step of the solver.
    ///
    /// While propagating, a step is one pass of unit propagation; where the
    /// pass finds a conflict the solver says so, and where nothing follows
    /// it decides a candidate or asks for what it needs to know before it
    /// can. From a conflict, a step learns incompatibilities until one
    /// names the level to go back to, or shows that there is no solution.
    /// The step after that undoes the assignments above that level.
    ///
    /// The step changes nothing of what is known. Once the solver is
    /// satisfied its decisions solve what is known; once it is
    /// unsatisfiable no selection at all is possible under what is known.
    pub fn step(&mut self) -> (r: Action)
        requires
            old(self).inv(),
        ensures
            step_says(*old(self), *final(self), r),
    {
        let ghost before = self.store@;
        let r = self.step_inner();
        proof {
            lemma_views_prefix(before, self.store@);
            assert(self.incompatibilities() =~= Seq::new(self.store@.len(), |i: int| self.store@[i]@.terms));
            assert(old(self).incompatibilities() =~= Seq::new(before.len(), |i: int| before[i]@.terms));
            assert(self.causes() =~= Seq::new(self.store@.len(), |i: int| self.store@[i]@.cause));
            assert(old(self).causes() =~= Seq::new(before.len(), |i: int| before[i]@.cause));
            if self.phase == Phase::Unsatisfiable {
                let i = choose|i: int| 0 <= i < self.store.len() && says_nothing((#[trigger] self.store[i])@.terms);
                assert(self.incompatibilities()[i] == self.store[i]@.terms);
            }
        }
        r
    }

    /// The number of assignments in the log.
    pub closed spec fn assignment_count(&self) -> nat {
        self.log.len() as nat
    }

    /// The log: what holds of which package from where on, and why.
    pub closed spec fn assignments(&self) -> Seq<AssignmentView> {
        Seq::new(
            self.log.len() as nat,
            |j: int|
                AssignmentView {
                    package: self.log[j].package as int,
                    term: self.log[j].term@,
                    level: self.log[j].level as int,
                    origin: self.log[j].origin,
                },
        )
    }

    /// The level of the last decision.
    pub closed spec fn level(&self) -> int {
        self.level as int
    }

    fn step_inner(&mut self) -> (r: Action)
        requires
            old(self).inv(),
        ensures
            final(self).inv(),
            final(self).knowledge == old(self).knowledge,
            final(self).labels == old(self).labels,
            may_follow(old(self).phase, final(self).phase),
            action_fits(final(self).knowledge@, final(self).phase, r),
            old(self).phase == Phase::Satisfied || old(self).phase == Phase::Unsatisfiable ==> final(self).decided
                == old(self).decided,
            old(self).store@.is_prefix_of(final(self).store@),
            r == Action::Continue && old(self).phase == Phase::Propagating && final(self).phase
                == Phase::Propagating ==> final(self).store.len() > old(self).store.len() || final(self).log.len()
                > old(self).log.len(),
            old(self).phase == Phase::Propagating && !(r is Decided) ==> final(self).decided == old(self).decided,
            r matches Action::NeedCandidates { package } ==> {
                &&& final(self).pending_at(package as int)
                &&& forall|q: int|
                    0 <= q < package ==> !(final(self).pending_at(q) && (#[trigger] final(self).knowledge@.packages[q]).candidates
                        is None)
            },
            r matches Action::NeedMetadata { package, candidate } ==> final(self).choice_is(package as int)
                && final(self).highest_is(package as int, candidate as int),
            r matches Action::Decided { package, candidate } ==> {
                &&& old(self).choice_is(package as int)
                &&& old(self).highest_is(package as int, candidate as int)
                &&& final(self).decided@ == old(self).decided@.update(package as int, Some(candidate))
                &&& final(self).log.len() > old(self).log.len()
                &&& decided_as(*old(self), *final(self), package as int, candidate as int)
            },
            r == Action::Done && old(self).phase == Phase::Propagating ==> forall|q: int| !old(self).pending_at(q),
            old(self).phase matches Phase::ConflictFound { incompatibility } ==> learned_from(
                *old(self),
                *final(self),
                incompatibility as int,
            ),
            old(self).phase matches Phase::Backtracking { level } ==> went_back(*old(self), *final(self), level as int)
                && r == Action::Continue,
            old(self).phase == Phase::Satisfied || old(self).phase == Phase::Unsatisfiable ==> {
                &&& final(self).phase == old(self).phase
                &&& final(self).assignments() == old(self).assignments()
                &&& final(self).allowed() == old(self).allowed()
                &&& final(self).level == old(self).level
                &&& final(self).store == old(self).store
            },
            old(self).phase == Phase::Propagating ==> passed(*old(self), *final(self), r),
            old(self).phase == Phase::Propagating && pass_result(
                pass_from(old(self).incompatibilities(), old(self).allowed(), 0),
            ) == Pass::Settled ==> settled(*old(self), *final(self), r),
    {
        match self.phase {
            Phase::Propagating => {
                let pass = self.propagate();
                let ghost mid = *self;
                proof {
                    assert(self.assignments().take(old(self).assignments().len() as int) =~= old(self).assignments());
                    assert(self.incompatibilities() =~= old(self).incompatibilities());
                    assert(self.causes() =~= old(self).causes());
                }
                match pass {
                    Pass::Conflict { incompatibility } => {
                        self.phase = Phase::ConflictFound { incompatibility };
                        proof {
                            assert(self.assignments() =~= mid.assignments());
                            assert(self.incompatibilities() =~= mid.incompatibilities());
                            assert(self.causes() =~= mid.causes());
                            assert(self.allowed() =~= mid.allowed());
                        }
                        Action::Continue
                    },
                    Pass::Narrowed => Action::Continue,
                    Pass::Settled => self.advance(),
                }
            },
            Phase::ConflictFound { incompatibility } => {
                self.resolve_conflict(incompatibility);
                if self.phase == Phase::Unsatisfiable {
                    Action::Failed
                } else {
                    Action::Continue
                }
            },
            Phase::Backtracking { level } => {
                self.backtrack(level);
                Action::Continue
            },
            Phase::Satisfied => Action::Done,
            Phase::Unsatisfiable => Action::Failed,
        }
    }

    /// The decisions of a satisfied solver solve what is known: the roots
    /// are met, and every package present is at a listed candidate whose
    /// declared requirements are met.
    pub proof fn lemma_satisfied_sound(&self)
        requires
            self.inv(),
            self.phase() == Phase::Satisfied,
        ensures
            self.knowledge().solved_by(self.selection()),
    {
    }

    /// Under what an unsatisfiable solver knows, no selection is possible:
    /// whatever else the provider might answer, no selection meets the
    /// requirements.
    pub proof fn lemma_unsatisfiable_sound(&self, sel: Selection)
        requires
            self.inv(),
            self.phase() == Phase::Unsatisfiable,
        ensures
            !self.knowledge().possible(sel),
            !self.knowledge().solved_by(sel),
    {
        if self.knowledge().solved_by(sel) {
            crate::knowledge::lemma_solved_is_possible(self.knowledge(), sel);
        }
    }

    /// Every incompatibility that the solver holds is entailed by what it
    /// knows: no possible selection is in a state that it forbids.
    pub proof fn lemma_held_entailed(&self, i: int, sel: Selection)
        requires
            self.inv(),
            0 <= i < self.incompatibilities().len(),
            self.knowledge().possible(sel),
        ensures
            !crate::incompatibility::forbids(self.incompatibilities()[i], sel),
    {
        assert(self.knowledge@.entails(self.store[i]@.terms));
    }

    /// The number of assignments is the length of the log.
    pub proof fn lemma_assignment_count(&self)
        ensures
            self.assignment_count() == self.assignments().len(),
    {
    }

    /// Each incompatibility has its cause.
    pub proof fn lemma_as_many_causes(&self)
        ensures
            self.causes().len() == self.incompatibilities().len(),
    {
    }

    /// The incompatibility that a conflict was found in is held.
    pub proof fn lemma_conflict_held(&self)
        requires
            self.inv(),
        ensures
            self.phase() matches Phase::ConflictFound { incompatibility } ==> incompatibility
                < self.incompatibilities().len(),
    {
    }

    /// The selection is that of the decisions: each decided package at the
    /// candidate that was decided for it.
    pub proof fn lemma_selection_is(&self)
        ensures
            self.selection() == selection_of(self.knowledge(), self.decisions()),
    {
    }

    /// What the invariant says of what is known and of the decisions: what
    /// is known is well formed, and each decision names a candidate whose
    /// metadata is known.
    pub proof fn lemma_inv_known(&self)
        requires
            self.inv(),
        ensures
            self.knowledge().wf(),
            decisions_ok(self.knowledge(), self.decisions()),
            self.labels().len() == self.knowledge().packages.len(),
    {
    }

    /// The trail of the incompatibility of number `last`: the numbers, in
    /// rising order, of the incompatibilities that it was derived from,
    /// step by step, and its own number at the end.
    pub fn trail(&self, last: usize) -> (r: Vec<usize>)
        requires
            self.inv(),
            last < self.causes().len(),
        ensures
            forall|a: int, b: int| 0 <= a < b < r.len() ==> (#[trigger] r[a]) < (#[trigger] r[b]),
            forall|a: int| 0 <= a < r.len() ==> on_trail(self.causes(), last as int, (#[trigger] r[a]) as int),
            forall|i: int|
                on_trail(self.causes(), last as int, i) ==> exists|a: int| 0 <= a < r.len() && #[trigger] r[a] == i,
            r.len() > 0,
            r[r.len() - 1] == last,
    {
        let ghost causes = self.causes();
        let n = self.store.len();
        assert forall|j: int| 0 <= j < causes.len() implies (#[trigger] causes[j] matches Cause::Derived { left, right }
            ==> left < j && right < j) by {
            assert(causes[j] == self.store[j]@.cause);
            assert(self.store[j].wf());
        }
        let mut links: Vec<(usize, usize)> = Vec::new();
        let mut j: usize = 0;
        assert(causes.take(0) =~= Seq::empty());
        while j < n
            invariant
                j <= n,
                n == self.store.len(),
                causes == self.causes(),
                causes.len() == n,
                links@ == derivations(causes.take(j as int)),
            decreases n - j,
        {
            proof {
                let next = causes.take(j + 1);
                assert(next.drop_last() =~= causes.take(j as int));
                assert(next.last() == causes[j as int]);
                assert(causes[j as int] == self.store[j as int]@.cause);
            }
            match self.store[j].cause() {
                Cause::Derived { left, right } => {
                    links.push((j, left));
                    links.push((j, right));
                },
                _ => {},
            }
            j += 1;
        }
        assert(causes.take(n as int) =~= causes);
        let mut from: Vec<usize> = Vec::new();
        from.push(last);
        let found = search(n, &links, &from);
        proof {
            assert forall|x: int| 0 <= x < n implies (#[trigger] found.found()[x] <==> on_trail(causes, last as int, x)) by {
                if reached_from(n as int, links@, from@, x) {
                    let s = choose|s: int| 0 <= s < from@.len() && reaches(n as int, links@, #[trigger] from@[s] as int, x);
                    assert(from@[s] == last);
                }
                if on_trail(causes, last as int, x) {
                    assert(reaches(n as int, links@, from@[0] as int, x));
                }
            }
            crate::reach::lemma_reaches_itself(n as int, links@, last as int);
        }
        let mut out: Vec<usize> = Vec::new();
        let mut x: usize = 0;
        while x <= last
            invariant
                x <= last + 1,
                last < n,
                found.found().len() == n,
                forall|y: int| 0 <= y < n ==> (#[trigger] found.found()[y] <==> on_trail(causes, last as int, y)),
                on_trail(causes, last as int, last as int),
                forall|a: int, b: int| 0 <= a < b < out.len() ==> (#[trigger] out[a]) < (#[trigger] out[b]),
                forall|a: int| 0 <= a < out.len() ==> (#[trigger] out[a]) < x && on_trail(causes, last as int, out[a] as int),
                forall|y: int|
                    0 <= y < x && on_trail(causes, last as int, y) ==> exists|a: int|
                        0 <= a < out.len() && #[trigger] out[a] == y,
                x > last ==> out.len() > 0 && out[out.len() - 1] == last,
            decreases last + 1 - x,
        {
            if found.is_found(x) {
                let ghost had = out@;
                out.push(x);
                assert forall|y: int| 0 <= y < x + 1 && on_trail(causes, last as int, y) implies exists|a: int|
                    0 <= a < out.len() && #[trigger] out[a] == y by {
                    if y < x {
                        let a = choose|a: int| 0 <= a < had.len() && #[trigger] had[a] == y;
                        assert(out[a] == y);
                    } else {
                        assert(out[out.len() - 1] == y);
                    }
                }
            }
            x += 1;
        }
        proof {
            assert forall|y: int| on_trail(causes, last as int, y) implies exists|a: int|
                0 <= a < out.len() && #[trigger] out[a] == y by {
                lemma_trail_before(causes, last as int, y);
            }
        }
        out
    }

    /// The explanation of why there is no solution: the trail of the last
    /// incompatibility held that speaks of no package, from the
    /// requirements it rests on to itself. Empty where no incompatibility
    /// held speaks of no package.
    pub fn explain(&self) -> (r: Vec<usize>)
        requires
            self.inv(),
        ensures
            forall|a: int, b: int| 0 <= a < b < r.len() ==> (#[trigger] r[a]) < (#[trigger] r[b]),
            forall|a: int| 0 <= a < r.len() ==> (#[trigger] r[a]) < self.causes().len(),
            r.len() > 0 ==> {
                let last = r[r.len() - 1] as int;
                &&& says_nothing(self.incompatibilities()[last])
                &&& forall|i: int|
                    last < i < self.incompatibilities().len() ==> !says_nothing(#[trigger] self.incompatibilities()[i])
                &&& forall|a: int| 0 <= a < r.len() ==> on_trail(self.causes(), last, (#[trigger] r[a]) as int)
                &&& forall|i: int| on_trail(self.causes(), last, i) ==> exists|a: int| 0 <= a < r.len() && #[trigger] r[a] == i
            },
            r.len() == 0 ==> forall|i: int|
                0 <= i < self.incompatibilities().len() ==> !says_nothing(#[trigger] self.incompatibilities()[i]),
            self.phase() == Phase::Unsatisfiable ==> r.len() > 0,
    {
        proof {
            if self.phase == Phase::Unsatisfiable {
                let i = choose|i: int| 0 <= i < self.store.len() && says_nothing((#[trigger] self.store[i])@.terms);
                assert(self.incompatibilities()[i] == self.store[i]@.terms);
            }
        }
        let mut k: usize = self.store.len();
        while k > 0
            invariant
                k <= self.store.len(),
                self.inv(),
                forall|i: int| k <= i < self.store.len() ==> !says_nothing(#[trigger] self.incompatibilities()[i]),
            decreases k,
        {
            k -= 1;
            assert(self.incompatibilities()[k as int] == self.store[k as int]@.terms);
            if self.store[k].is_empty() {
                let r = self.trail(k);
                proof {
                    assert forall|a: int| 0 <= a < r.len() implies (#[trigger] r[a]) < self.causes().len() by {
                        assert(r[a] <= r[r.len() - 1]);
                    }
                }
                return r;
            }
        }
        Vec::new()
    }

    /// The names that the packages go by where ties are broken.
    pub closed spec fn labels(&self) -> Seq<Seq<char>> {
        Seq::new(self.labels.len() as nat, |p: int| self.labels[p]@)
    }

    /// Gives package `p` the name that it goes by where ties are broken.
    /// Nothing changes, and the answer is `false`, where `p` is not in the
    /// table.
    pub fn name_package(&mut self, p: usize, name: &str) -> (r: bool)
        requires
            old(self).inv(),
        ensures
            final(self).inv(),
            final(self).knowledge() == old(self).knowledge(),
            final(self).phase() == old(self).phase(),
            final(self).decisions() == old(self).decisions(),
            final(self).incompatibilities() == old(self).incompatibilities(),
            final(self).causes() == old(self).causes(),
            final(self).assignments() == old(self).assignments(),
            final(self).allowed() == old(self).allowed(),
            final(self).level() == old(self).level(),
            r == (p < old(self).labels().len()),
            final(self).labels() == if r {
                old(self).labels().update(p as int, name@)
            } else {
                old(self).labels()
            },
    {
        if p < self.labels.len() {
            self.labels[p] = name.to_owned();
            assert(self.labels() =~= old(self).labels().update(p as int, name@));
            true
        } else {
            false
        }
    }

    /// Soundness of a solution: the decisions of a satisfied solver meet
    /// every root requirement.
    pub proof fn lemma_roots_met(&self, i: int)
        requires
            self.inv(),
            self.phase() == Phase::Satisfied,
            0 <= i < self.knowledge().roots.len(),
        ensures
            crate::knowledge::requirement_met(self.knowledge().roots[i], self.selection()),
    {
    }

    /// Soundness of a solution: the decisions of a satisfied solver meet
    /// every requirement that a decided candidate declares. The package
    /// required is decided, at a version of the set that the requirement
    /// names.
    pub proof fn lemma_requirements_met(&self, p: int, i: int)
        requires
            self.inv(),
            self.phase() == Phase::Satisfied,
            0 <= p < self.decisions().len(),
            self.decisions()[p] is Some,
            0 <= i < self.knowledge().packages[p].metadata[self.decisions()[p]->0 as int]->Known_0.len(),
        ensures
            candidate_known(self.knowledge(), p, self.decisions()[p]->0 as int),
            crate::knowledge::requirement_met(
                self.knowledge().packages[p].metadata[self.decisions()[p]->0 as int]->Known_0[i],
                self.selection(),
            ),
    {
        let k = self.knowledge();
        let sel = self.selection();
        let c = self.decisions()[p]->0 as int;
        assert(candidate_known(k, p, c));
        assert(sel.dom().contains(p));
        assert(k.packages[p].candidates->0[c] == sel[p]);
        assert(crate::knowledge::metadata_allows(k.packages[p].metadata[c], sel));
    }

    /// Takes a candidate out of the run, for a reason that the solver did
    /// not find itself (no artifact of the version can be had, or its hash
    /// does not match). Every decision is undone, the candidate is recorded
    /// as unusable, the solver holds that the package is not at that
    /// version, and it propagates anew; the run then ends without a
    /// solution only if none is left. Nothing changes, and the
    /// answer is `false`, where the solver has found that there is no
    /// solution, or where there is no such candidate.
    pub fn exclude(&mut self, p: usize, c: usize) -> (r: bool)
        requires
            old(self).inv(),
        ensures
            final(self).inv(),
            final(self).labels() == old(self).labels(),
            r == (old(self).phase() != Phase::Unsatisfiable && p < old(self).knowledge().packages.len() && c < old(self).knowledge().packages[p as int].metadata.len()),
            !r ==> final(self).knowledge() == old(self).knowledge() && final(self).phase() == old(self).phase()
                && final(self).decisions() == old(self).decisions(),
            r ==> {
                let was = old(self).knowledge();
                let now = final(self).knowledge();
                &&& final(self).phase() == Phase::Propagating
                &&& now.bars(was)
                &&& forall|q: int| 0 <= q < was.packages.len() && q != p ==> #[trigger] now.packages[q] == was.packages[q]
                &&& now.packages[p as int].metadata == was.packages[p as int].metadata.update(
                    c as int,
                    MetadataView::Unavailable,
                )
                &&& forall|q: int| 0 <= q < final(self).decisions().len() ==> (#[trigger] final(self).decisions()[q]) is None
                &&& cut_back(*old(self), *final(self), 0)
                &&& held_one(
                    *old(self),
                    *final(self),
                    lone(p as int, exactly(was.packages[p as int].candidates->0[c as int])),
                    Cause::Unavailable { package: p, candidate: c },
                )
            },
            !r ==> final(self).assignments() == old(self).assignments() && final(self).allowed() == old(self).allowed()
                && final(self).level() == old(self).level() && final(self).incompatibilities() == old(
                self,
            ).incompatibilities() && final(self).causes() == old(self).causes(),
    {
        if self.phase == Phase::Unsatisfiable || p >= self.knowledge.package_count() {
            return false;
        }
        assert(self.knowledge@.package_wf(p as int));
        let n = match self.knowledge.candidate_count(p) {
            Some(n) => n,
            None => 0,
        };
        if c >= n {
            return false;
        }
        self.backtrack(0);
        let ghost after_cut = *self;
        let ghost before = self.knowledge@;
        self.knowledge.bar_candidate(p, c);
        let ghost known = self.knowledge@;
        proof {
            assert forall|i: int| 0 <= i < self.store.len() implies known.entails((#[trigger] self.store[i])@.terms) by {
                assert(before.entails(self.store[i]@.terms));
                assert forall|sel: Selection| #[trigger] known.possible(sel) implies !crate::incompatibility::forbids(
                    self.store[i]@.terms,
                    sel,
                ) by {
                    crate::knowledge::lemma_possible_after_bar(known, before, sel);
                }
            }
            assert(store_ok(known, self.store@));
            assert(log_ok(known, self.store.len() as int, self.level as int, self.log@));
            lemma_sound_persists(before, known, self.store.len() as int, self.level as int, self.log@, self.allowed@);
        }
        let only = VersionSet::singleton(self.knowledge.candidate(p, c));
        let one = Incompatibility::of_one(p, Term::new(false, only), Cause::Unavailable { package: p, candidate: c });
        proof {
            lemma_only_candidate(known, p as int, c as int, only@);
            lemma_no_versions_entailed(known, p as int, only@, one@.terms);
        }
        let ghost terms = one@.terms;
        let ghost mid = *self;
        self.hold(one);
        proof {
            let want = lone(p as int, exactly(known.packages[p as int].candidates->0[c as int]));
            assert(terms =~= want) by {
                assert forall|q: int| 0 <= q < terms.len() implies terms[q] == want[q] by {
                    assert(crate::incompatibility::term_at(terms, q) == terms[q]);
                }
            }
            assert(self.incompatibilities() =~= old(self).incompatibilities().push(terms));
            assert(self.causes() =~= old(self).causes().push(Cause::Unavailable { package: p, candidate: c }));
            assert(self.assignments() =~= after_cut.assignments());
            assert(self.allowed() =~= after_cut.allowed());
            assert(self.decisions() == after_cut.decisions());
        }
        true
    }

    /// What each package may be, as far as the solver has narrowed it.
    pub closed spec fn allowed(&self) -> Seq<TermView> {
        Seq::new(self.allowed.len() as nat, |p: int| self.allowed[p]@)
    }

    /// Whether package `p` is required and has no decision yet.
    pub open spec fn pending_at(&self, p: int) -> bool {
        is_pending(self.allowed(), self.decisions(), p)
    }

    /// Whether package `p` is the one to decide next: of the pending
    /// packages the one with the fewest candidates left, of equals the one
    /// whose name comes first, and of those the one of the lowest number.
    pub open spec fn choice_is(&self, p: int) -> bool {
        is_choice(self.knowledge(), self.allowed(), self.decisions(), self.labels(), p)
    }

    /// Whether the candidate of number `c` is the highest of package `p`
    /// that may still be decided.
    pub open spec fn highest_is(&self, p: int, c: int) -> bool {
        is_highest(self.knowledge(), self.allowed()[p], p, c)
    }

    /// The narrowing is sound: whatever unit propagation has made of the
    /// terms, every selection that is possible under what is known and
    /// agrees with the decisions made so far has each package in a state
    /// that the term of the package allows. No solution that the decisions
    /// leave open is ever ruled out.
    pub proof fn lemma_narrowing_sound(&self, sel: Selection, p: int)
        requires
            self.inv(),
            self.knowledge().possible(sel),
            agrees(self.knowledge(), self.decisions(), sel),
            0 <= p < self.allowed().len(),
        ensures
            self.allowed()[p].holds(crate::incompatibility::state_of(sel, p)),
    {
        lemma_agrees(self.knowledge@, self.log@, self.decided@, sel, self.log.len() as int);
        assert(self.allowed()[p] == self.allowed[p]@);
    }
}

} // verus!
