//! One step of the solver is determined by the state that it is taken in.

use crate::incompatibility::Cause;
use crate::solver::{
    action_fits, came_from, decided_as, dependency_unmet, first_satisfies, found_none, found_unmet,
    goes_back_to, is_derivation, learned_from, learned_in_turn, lemma_decision_determined, may_follow, nothing,
    pass_from, pass_result, passed, resolved, resolved_at, root_unmet, satisfies_at, searched_below, settled,
    step_says, turns_back_to, way_back, went_back, Action, AssignmentView, Pass, Phase, Solver,
};
use crate::term::TermView;
use vstd::prelude::*;

verus! {

/// Whether two solvers are in the same state: in the same phase, with the
/// same knowledge and names, the same decisions, log, terms and level, and
/// the same incompatibilities with the same causes.
pub open spec fn same_state(x: Solver, y: Solver) -> bool {
    &&& x.phase() == y.phase()
    &&& x.knowledge() == y.knowledge()
    &&& x.labels() == y.labels()
    &&& x.decisions() == y.decisions()
    &&& x.assignments() == y.assignments()
    &&& x.allowed() == y.allowed()
    &&& x.level() == y.level()
    &&& x.incompatibilities() == y.incompatibilities()
    &&& x.causes() == y.causes()
}

/// An incompatibility has one first satisfier at most.
pub proof fn lemma_first_unique(terms: Seq<TermView>, start: Seq<TermView>, log: Seq<AssignmentView>, x: int, y: int)
    requires
        first_satisfies(terms, start, log, x),
        first_satisfies(terms, start, log, y),
    ensures
        x == y,
{
}

/// The level to go back to for a satisfier is one level only.
pub proof fn lemma_back_unique(terms: Seq<TermView>, n: nat, log: Seq<AssignmentView>, at: int, x: int, y: int)
    requires
        goes_back_to(terms, n, log, at, x),
        goes_back_to(terms, n, log, at, y),
    ensures
        x == y,
{
    let alone = nothing(n).update(log[at].package, log[at].term);
    if !crate::solver::satisfied_by(terms, alone) {
        if exists|k: int| k < at && #[trigger] first_satisfies(terms, alone, log, k) && x == log[k].level {
            let k = choose|k: int| k < at && #[trigger] first_satisfies(terms, alone, log, k) && x == log[k].level;
            if exists|j: int| j < at && #[trigger] first_satisfies(terms, alone, log, j) && y == log[j].level {
                let j = choose|j: int| j < at && #[trigger] first_satisfies(terms, alone, log, j) && y == log[j].level;
                lemma_first_unique(terms, alone, log, k, j);
            } else {
                assert(satisfies_at(terms, alone, log, k));
            }
        } else {
            if exists|j: int| j < at && #[trigger] first_satisfies(terms, alone, log, j) && y == log[j].level {
                let j = choose|j: int| j < at && #[trigger] first_satisfies(terms, alone, log, j) && y == log[j].level;
                assert(satisfies_at(terms, alone, log, j));
            }
        }
    }
}

/// A finished solver stays as it is, whatever step is taken.
proof fn lemma_final_determined(before: Solver, a: Solver, r: Action, b: Solver, s: Action)
    requires
        before.phase() == Phase::Satisfied || before.phase() == Phase::Unsatisfiable,
        step_says(before, a, r),
        step_says(before, b, s),
    ensures
        r == s,
        same_state(a, b),
{
}

/// Going back is determined.
proof fn lemma_back_determined(before: Solver, a: Solver, r: Action, b: Solver, s: Action)
    requires
        before.phase() is Backtracking,
        step_says(before, a, r),
        step_says(before, b, s),
    ensures
        r == s,
        same_state(a, b),
{
    let level = before.phase()->Backtracking_level as int;
    let was = before.assignments();
    let x = a.assignments();
    let y = b.assignments();
    assert(went_back(before, a, level));
    assert(went_back(before, b, level));
    if x.len() < y.len() {
        assert(y[x.len() as int] == was[x.len() as int]);
    } else if y.len() < x.len() {
        assert(x[y.len() as int] == was[y.len() as int]);
    }
    assert(x =~= y);
}

/// A pass of unit propagation that finds something is determined.
proof fn lemma_pass_determined(before: Solver, a: Solver, r: Action, b: Solver, s: Action)
    requires
        before.phase() == Phase::Propagating,
        pass_result(pass_from(before.incompatibilities(), before.allowed(), 0)) != Pass::Settled,
        step_says(before, a, r),
        step_says(before, b, s),
    ensures
        r == s,
        same_state(a, b),
{
    let out = pass_from(before.incompatibilities(), before.allowed(), 0);
    let was = before.assignments();
    let x = a.assignments();
    let y = b.assignments();
    assert(passed(before, a, r));
    assert(passed(before, b, s));
    assert forall|j: int| 0 <= j < x.len() implies x[j] == y[j] by {
        if j < was.len() {
            assert(x.take(was.len() as int)[j] == was[j]);
            assert(y.take(was.len() as int)[j] == was[j]);
        } else {
            let d = j - was.len();
            assert(is_derivation(x[was.len() + d], before.incompatibilities(), out.derived[d], before.level()));
            assert(is_derivation(y[was.len() + d], before.incompatibilities(), out.derived[d], before.level()));
        }
    }
    assert(x =~= y);
}

/// One package only is the one to decide next.
proof fn lemma_choice_unique(before: Solver, p: int, q: int)
    requires
        before.choice_is(p),
        before.choice_is(q),
    ensures
        p == q,
{
    let k = before.knowledge();
    assert(crate::solver::goes_first(k, before.allowed(), before.labels(), p, q));
    assert(crate::solver::goes_first(k, before.allowed(), before.labels(), q, p));
    crate::names::lemma_text_order(before.labels()[p], before.labels()[q]);
}

/// What the solver learns of a requirement that is not met is determined.
proof fn lemma_unmet_determined(before: Solver, a: Solver, b: Solver)
    requires
        found_unmet(before, a),
        found_unmet(before, b),
    ensures
        a.incompatibilities() == b.incompatibilities(),
        a.causes() == b.causes(),
{
    let k = before.knowledge();
    let sel = before.selection();
    let decided = before.decisions();
    if exists|i: int| #[trigger] root_unmet(before, a, i) {
        let i = choose|i: int| #[trigger] root_unmet(before, a, i);
        if exists|j: int| #[trigger] root_unmet(before, b, j) {
            let j = choose|j: int| #[trigger] root_unmet(before, b, j);
            assert(i == j);
        } else {
            let (p, e) = choose|p: int, e: int| #[trigger] dependency_unmet(before, b, p, e);
            assert(crate::knowledge::requirement_met(k.roots[i], sel));
        }
    } else {
        let (p, e) = choose|p: int, e: int| #[trigger] dependency_unmet(before, a, p, e);
        if exists|j: int| #[trigger] root_unmet(before, b, j) {
            let j = choose|j: int| #[trigger] root_unmet(before, b, j);
            assert(crate::knowledge::requirement_met(k.roots[j], sel));
        } else {
            let (q, f) = choose|q: int, f: int| #[trigger] dependency_unmet(before, b, q, f);
            let rs = k.packages[p].metadata[decided[p]->0 as int]->Known_0;
            let ts = k.packages[q].metadata[decided[q]->0 as int]->Known_0;
            if p < q {
                assert(crate::knowledge::requirements_met(rs, sel));
                assert(crate::knowledge::requirement_met(rs[e], sel));
            } else if q < p {
                assert(crate::knowledge::requirements_met(ts, sel));
                assert(crate::knowledge::requirement_met(ts[f], sel));
            } else {
                if e < f {
                    assert(crate::knowledge::requirement_met(rs[e], sel));
                } else if f < e {
                    assert(crate::knowledge::requirement_met(rs[f], sel));
                }
            }
        }
    }
}

/// What a step does once nothing more follows from what is held is
/// determined.
proof fn lemma_settled_determined(before: Solver, a: Solver, r: Action, b: Solver, s: Action)
    requires
        before.inv(),
        before.phase() == Phase::Propagating,
        pass_result(pass_from(before.incompatibilities(), before.allowed(), 0)) == Pass::Settled,
        step_says(before, a, r),
        step_says(before, b, s),
    ensures
        r == s,
        same_state(a, b),
{
    let k = before.knowledge();
    assert(settled(before, a, r));
    assert(settled(before, b, s));
    assert(action_fits(a.knowledge(), a.phase(), r));
    assert(action_fits(b.knowledge(), b.phase(), s));
    assert(may_follow(before.phase(), a.phase()) && may_follow(before.phase(), b.phase()));
    if exists|q: int| 0 <= q < k.packages.len() && before.pending_at(q) && (#[trigger] k.packages[q]).candidates is None {
        // The first pending package without candidates is asked for.
        assert(r is NeedCandidates && s is NeedCandidates);
        let x = r->NeedCandidates_package as int;
        let y = s->NeedCandidates_package as int;
        assert(a.pending_at(x) == before.pending_at(x));
        assert(b.pending_at(y) == before.pending_at(y));
        if x < y {
            assert(!(b.pending_at(x) && k.packages[x].candidates is None));
        } else if y < x {
            assert(!(a.pending_at(y) && k.packages[y].candidates is None));
        }
    } else if forall|q: int| !before.pending_at(q) {
        // The decisions are held against the requirements.
        lemma_nothing_pending(before, a, r);
        lemma_nothing_pending(before, b, s);
        if r == Action::Done {
            lemma_solved_meets(before, a, b);
        } else if s == Action::Done {
            lemma_solved_meets(before, b, a);
        } else {
            lemma_unmet_determined(before, a, b);
        }
    } else {
        // A package is decided, or what the decision needs is asked for or learned.
        lemma_something_pending(before, a, r);
        lemma_something_pending(before, b, s);
        let x = chosen_by(before, a, r);
        let y = chosen_by(before, b, s);
        lemma_choice_unique(before, x, y);
        if r == Action::Continue {
            assert(found_none(before, a, x));
            if s != Action::Continue {
                let c = candidate_of(s);
                assert(crate::solver::admitted(k, before.allowed()[x], x, c));
            }
        } else if s == Action::Continue {
            assert(found_none(before, b, x));
            let c = candidate_of(r);
            assert(crate::solver::admitted(k, before.allowed()[x], x, c));
        } else {
            let c = candidate_of(r);
            let d = candidate_of(s);
            lemma_decision_determined(k, before.allowed(), before.decisions(), before.labels(), x, c, x, d);
            assert(c == d);
            if r is Decided {
                assert(s is Decided);
                assert(a.assignments() =~= b.assignments());
            } else {
                assert(s is NeedMetadata);
            }
        }
    }
}

/// The package that the action is about.
spec fn package_of(r: Action) -> int {
    match r {
        Action::Decided { package, .. } => package as int,
        Action::NeedMetadata { package, .. } => package as int,
        Action::NeedCandidates { package } => package as int,
        _ => 0,
    }
}

/// The candidate that the action is about.
spec fn candidate_of(r: Action) -> int {
    match r {
        Action::Decided { candidate, .. } => candidate as int,
        Action::NeedMetadata { candidate, .. } => candidate as int,
        _ => 0,
    }
}

/// The package that the step found to be the one to decide next.
spec fn chosen_by(before: Solver, after: Solver, r: Action) -> int {
    if r == Action::Continue {
        choose|p: int| #[trigger] found_none(before, after, p)
    } else {
        package_of(r)
    }
}

/// With nothing pending the step is done or has found a requirement unmet.
proof fn lemma_nothing_pending(before: Solver, a: Solver, r: Action)
    requires
        before.phase() == Phase::Propagating,
        pass_result(pass_from(before.incompatibilities(), before.allowed(), 0)) == Pass::Settled,
        step_says(before, a, r),
        forall|q: int| !before.pending_at(q),
    ensures
        r == Action::Done || r == Action::Continue,
        r == Action::Done ==> a.phase() == Phase::Satisfied && a.knowledge().solved_by(before.selection())
            && a.incompatibilities() == before.incompatibilities() && a.causes() == before.causes(),
        r == Action::Continue ==> a.phase() == (Phase::ConflictFound {
            incompatibility: before.incompatibilities().len() as usize,
        }) && found_unmet(before, a),
        a.assignments() == before.assignments(),
        a.allowed() == before.allowed(),
        a.level() == before.level(),
        a.decisions() == before.decisions(),
        a.knowledge() == before.knowledge(),
        a.labels() == before.labels(),
{
    assert(settled(before, a, r));
    assert(action_fits(a.knowledge(), a.phase(), r));
    assert(may_follow(before.phase(), a.phase()));
    match r {
        Action::Decided { package, candidate } => {
            assert(before.pending_at(package as int));
        },
        Action::NeedMetadata { package, candidate } => {
            assert(a.pending_at(package as int));
            assert(before.pending_at(package as int));
        },
        Action::NeedCandidates { package } => {
            assert(a.pending_at(package as int));
            assert(before.pending_at(package as int));
        },
        Action::Continue => {
            if a.phase() == Phase::Propagating {
                let p = choose|p: int| #[trigger] found_none(before, a, p);
                assert(before.pending_at(p));
            }
        },
        _ => {},
    }
}

/// With a package pending, each of which has candidates, the step decides
/// the package to decide next, asks for what the decision needs, or learns
/// that the package has no candidate left.
proof fn lemma_something_pending(before: Solver, a: Solver, r: Action)
    requires
        before.phase() == Phase::Propagating,
        pass_result(pass_from(before.incompatibilities(), before.allowed(), 0)) == Pass::Settled,
        step_says(before, a, r),
        exists|q: int| before.pending_at(q),
        !exists|q: int|
            0 <= q < before.knowledge().packages.len() && before.pending_at(q) && (
            #[trigger] before.knowledge().packages[q]).candidates is None,
    ensures
        r == Action::Continue || r is Decided || r is NeedMetadata,
        a.phase() == Phase::Propagating,
        before.choice_is(chosen_by(before, a, r)),
        r == Action::Continue ==> found_none(before, a, chosen_by(before, a, r)),
        r != Action::Continue ==> before.highest_is(package_of(r), candidate_of(r)) && a.incompatibilities()
            == before.incompatibilities() && a.causes() == before.causes(),
        r is Decided ==> decided_as(before, a, package_of(r), candidate_of(r)) && a.decisions()
            == before.decisions().update(package_of(r), Some(candidate_of(r) as usize))
            && before.knowledge().packages[package_of(r)].metadata[candidate_of(r)] is Known,
        r is NeedMetadata ==> before.knowledge().packages[package_of(r)].metadata[candidate_of(r)] is Unknown,
        !(r is Decided) ==> a.assignments() == before.assignments() && a.allowed() == before.allowed() && a.level()
            == before.level() && a.decisions() == before.decisions(),
        a.knowledge() == before.knowledge(),
        a.labels() == before.labels(),
{
    assert(settled(before, a, r));
    assert(action_fits(a.knowledge(), a.phase(), r));
    assert(may_follow(before.phase(), a.phase()));
    let q = choose|q: int| before.pending_at(q);
    match r {
        Action::NeedCandidates { package } => {
            assert(a.pending_at(package as int));
            assert(before.pending_at(package as int));
        },
        Action::NeedMetadata { package, candidate } => {
            assert(a.choice_is(package as int));
            assert(a.highest_is(package as int, candidate as int));
        },
        Action::Continue => {
            assert(a.phase() == Phase::Propagating);
            let p = choose|p: int| #[trigger] found_none(before, a, p);
        },
        _ => {},
    }
}

/// Decisions that solve what is known meet every requirement.
proof fn lemma_solved_meets(before: Solver, a: Solver, b: Solver)
    requires
        before.inv(),
        a.knowledge() == before.knowledge(),
        a.knowledge().solved_by(before.selection()),
    ensures
        !found_unmet(before, b),
{
    before.lemma_inv_known();
    before.lemma_selection_is();
    let k = before.knowledge();
    let sel = before.selection();
    let decided = before.decisions();
    if found_unmet(before, b) {
        if exists|i: int| #[trigger] root_unmet(before, b, i) {
            let i = choose|i: int| #[trigger] root_unmet(before, b, i);
            assert(crate::knowledge::requirement_met(k.roots[i], sel));
        } else {
            let (p, e) = choose|p: int, e: int| #[trigger] dependency_unmet(before, b, p, e);
            let c = decided[p]->0 as int;
            assert(crate::solver::candidate_known(k, p, c));
            assert(sel.dom().contains(p));
            let cs = k.packages[p].candidates->0;
            assert(cs[c] == sel[p]);
            assert(crate::knowledge::metadata_allows(k.packages[p].metadata[c], sel));
            assert(crate::knowledge::requirement_met(k.packages[p].metadata[c]->Known_0[e], sel));
        }
    }
}

/// Whether an incompatibility was learned with a satisfier is the same for
/// two lists of incompatibilities that are one up to it.
proof fn lemma_resolved_at_agree(
    x: Seq<Seq<TermView>>,
    xc: Seq<Cause>,
    y: Seq<Seq<TermView>>,
    yc: Seq<Cause>,
    log: Seq<AssignmentView>,
    n: nat,
    k: int,
    left: int,
    at: int,
)
    requires
        0 <= left < k,
        k < x.len(),
        k < y.len(),
        k < xc.len(),
        k < yc.len(),
        x.take(k + 1) == y.take(k + 1),
        xc.take(k + 1) == yc.take(k + 1),
    ensures
        resolved_at(x, xc, log, n, k, left, at) == resolved_at(y, yc, log, n, k, left, at),
{
    assert forall|i: int| 0 <= i <= k implies x[i] == y[i] && xc[i] == yc[i] by {
        assert(x.take(k + 1)[i] == x[i] && y.take(k + 1)[i] == y[i]);
        assert(xc.take(k + 1)[i] == xc[i] && yc.take(k + 1)[i] == yc[i]);
    }
}

/// Two lists of incompatibilities that were learned in turn from one
/// conflict are one as far as both go.
proof fn lemma_chain_agrees(
    was: Seq<Seq<TermView>>,
    was_causes: Seq<Cause>,
    x: Seq<Seq<TermView>>,
    xc: Seq<Cause>,
    y: Seq<Seq<TermView>>,
    yc: Seq<Cause>,
    log: Seq<AssignmentView>,
    n: nat,
    conflict: int,
    k: int,
)
    requires
        0 <= conflict < was.len(),
        was.len() == was_causes.len(),
        x.len() == xc.len(),
        y.len() == yc.len(),
        was.is_prefix_of(x),
        was.is_prefix_of(y),
        was_causes.is_prefix_of(xc),
        was_causes.is_prefix_of(yc),
        learned_in_turn(x, xc, log, n, was.len() as int, conflict),
        learned_in_turn(y, yc, log, n, was.len() as int, conflict),
        was.len() <= k <= x.len(),
        k <= y.len(),
    ensures
        x.take(k) == y.take(k),
        xc.take(k) == yc.take(k),
    decreases k,
{
    let first = was.len() as int;
    if k == first {
        assert(x.take(k) =~= was);
        assert(y.take(k) =~= was);
        assert(xc.take(k) =~= was_causes);
        assert(yc.take(k) =~= was_causes);
    } else {
        let j = k - 1;
        lemma_chain_agrees(was, was_causes, x, xc, y, yc, log, n, conflict, j);
        let left = came_from(first, conflict, j);
        assert forall|i: int| 0 <= i < j implies x[i] == y[i] by {
            assert(x.take(j)[i] == y.take(j)[i]);
        }
        assert(resolved(x, xc, log, n, j, left));
        assert(resolved(y, yc, log, n, j, left));
        let u = choose|u: int| #[trigger] resolved_at(x, xc, log, n, j, left, u);
        let v = choose|v: int| #[trigger] resolved_at(y, yc, log, n, j, left, v);
        lemma_first_unique(x[left], nothing(n), log, u, v);
        assert(x[j] == y[j]);
        assert(xc[j] == yc[j]);
        assert(x.take(k) =~= x.take(j).push(x[j]));
        assert(y.take(k) =~= y.take(j).push(y[j]));
        assert(xc.take(k) =~= xc.take(j).push(xc[j]));
        assert(yc.take(k) =~= yc.take(j).push(yc[j]));
    }
}

/// Of two ways to learn from one conflict, none goes on where the other
/// has come to its end.
proof fn lemma_chain_ends(before: Solver, a: Solver, r: Action, b: Solver, s: Action, found: usize)
    requires
        before.inv(),
        before.phase() == (Phase::ConflictFound { incompatibility: found }),
        found < before.incompatibilities().len(),
        step_says(before, a, r),
        step_says(before, b, s),
    ensures
        b.incompatibilities().len() <= a.incompatibilities().len(),
{
    let was = before.incompatibilities();
    let x = a.incompatibilities();
    let y = b.incompatibilities();
    let xc = a.causes();
    let yc = b.causes();
    let log = a.assignments();
    let n = a.knowledge().packages.len();
    let first = was.len() as int;
    let conflict = found as int;
    before.lemma_as_many_causes();
    a.lemma_as_many_causes();
    b.lemma_as_many_causes();
    assert(learned_from(before, a, conflict));
    assert(learned_from(before, b, conflict));
    assert(b.assignments() == log);
    let la = x.len() as int;
    if y.len() > la {
        lemma_chain_agrees(was, before.causes(), x, xc, y, yc, log, n, conflict, la);
        let last = came_from(first, conflict, la);
        assert(x[last] == y[last]) by {
            assert(x.take(la)[last] == y.take(la)[last]);
        }
        assert(resolved(y, yc, log, n, la, last));
        let at = choose|at: int| #[trigger] resolved_at(y, yc, log, n, la, last, at);
        assert(satisfies_at(x[last], nothing(n), log, at));
        assert(crate::incompatibility::term_at(x[last], log[at].package) != TermView::any());
        assert(!crate::incompatibility::says_nothing(x[last]));
        assert(may_follow(before.phase(), a.phase()));
        assert(a.phase() is Backtracking);
        let level = a.phase()->Backtracking_level as int;
        assert(way_back(first, x, xc, log, n, conflict, level));
        let bound = choose|bound: int|
            searched_below(first, x, xc, log, n, conflict, bound) && #[trigger] turns_back_to(
                x[came_from(first, conflict, x.len() as int)],
                n,
                log,
                bound,
                level,
            );
        if level == 0 && forall|j: int| 0 <= j < bound ==> !#[trigger] satisfies_at(x[last], nothing(n), log, j) {
            assert(at >= bound);
            if la > first {
                let j = la - 1;
                assert(x.take(j + 1) =~= x.take(la));
                assert(y.take(j + 1) =~= y.take(la));
                assert(xc.take(j + 1) =~= xc.take(la));
                assert(yc.take(j + 1) =~= yc.take(la));
                lemma_resolved_at_agree(x, xc, y, yc, log, n, j, came_from(first, conflict, j), bound);
                assert(resolved_at(y, yc, log, n, j, came_from(first, conflict, j), bound));
                assert(at < bound);
            }
        } else {
            let seat = choose|seat: int|
                {
                    &&& #[trigger] first_satisfies(x[last], nothing(n), log, seat)
                    &&& seat < bound
                    &&& goes_back_to(x[last], n, log, seat, level)
                    &&& log[seat].origin is Decision || level < log[seat].level
                };
            lemma_first_unique(x[last], nothing(n), log, seat, at);
            lemma_back_unique(x[last], n, log, at, level, log[at].level);
        }
    }
}

/// What a step learns from a conflict is determined.
proof fn lemma_conflict_determined(before: Solver, a: Solver, r: Action, b: Solver, s: Action)
    requires
        before.inv(),
        before.phase() is ConflictFound,
        step_says(before, a, r),
        step_says(before, b, s),
    ensures
        r == s,
        same_state(a, b),
{
    let found = before.phase()->ConflictFound_incompatibility;
    let conflict = found as int;
    before.lemma_conflict_held();
    lemma_chain_ends(before, a, r, b, s, found);
    lemma_chain_ends(before, b, s, a, r, found);
    let was = before.incompatibilities();
    let x = a.incompatibilities();
    let y = b.incompatibilities();
    let xc = a.causes();
    let yc = b.causes();
    let log = a.assignments();
    let n = a.knowledge().packages.len();
    let first = was.len() as int;
    before.lemma_as_many_causes();
    a.lemma_as_many_causes();
    b.lemma_as_many_causes();
    assert(learned_from(before, a, conflict));
    assert(learned_from(before, b, conflict));
    lemma_chain_agrees(was, before.causes(), x, xc, y, yc, log, n, conflict, x.len() as int);
    assert(x.take(x.len() as int) =~= x);
    assert(y.take(y.len() as int) =~= y);
    assert(xc.take(xc.len() as int) =~= xc);
    assert(yc.take(yc.len() as int) =~= yc);
    assert(x == y && xc == yc);
    let last = came_from(first, conflict, x.len() as int);
    assert(may_follow(before.phase(), a.phase()) && may_follow(before.phase(), b.phase()));
    assert(action_fits(a.knowledge(), a.phase(), r));
    assert(action_fits(b.knowledge(), b.phase(), s));
    if a.phase() is Backtracking {
        assert(b.phase() is Backtracking);
        let u = a.phase()->Backtracking_level as int;
        let v = b.phase()->Backtracking_level as int;
        lemma_way_back_unique(first, x, xc, log, n, conflict, u, v);
    }
}

/// The level to go back to after what was learned is one level only.
proof fn lemma_way_back_unique(
    first: int,
    x: Seq<Seq<TermView>>,
    xc: Seq<Cause>,
    log: Seq<AssignmentView>,
    n: nat,
    conflict: int,
    u: int,
    v: int,
)
    requires
        way_back(first, x, xc, log, n, conflict, u),
        way_back(first, x, xc, log, n, conflict, v),
    ensures
        u == v,
{
    let terms = x[came_from(first, conflict, x.len() as int)];
    let p = choose|p: int| searched_below(first, x, xc, log, n, conflict, p) && #[trigger] turns_back_to(terms, n, log, p, u);
    let q = choose|q: int| searched_below(first, x, xc, log, n, conflict, q) && #[trigger] turns_back_to(terms, n, log, q, v);
    if x.len() != first {
        let k = x.len() - 1;
        lemma_first_unique(x[came_from(first, conflict, k)], nothing(n), log, p, q);
    }
    assert(p == q);
    let low = u == 0 && forall|j: int| 0 <= j < p ==> !#[trigger] satisfies_at(terms, nothing(n), log, j);
    let low_too = v == 0 && forall|j: int| 0 <= j < p ==> !#[trigger] satisfies_at(terms, nothing(n), log, j);
    if !low {
        let seat = choose|seat: int|
            {
                &&& #[trigger] first_satisfies(terms, nothing(n), log, seat)
                &&& seat < p
                &&& goes_back_to(terms, n, log, seat, u)
                &&& log[seat].origin is Decision || u < log[seat].level
            };
        if !low_too {
            let other = choose|other: int|
                {
                    &&& #[trigger] first_satisfies(terms, nothing(n), log, other)
                    &&& other < p
                    &&& goes_back_to(terms, n, log, other, v)
                    &&& log[other].origin is Decision || v < log[other].level
                };
            lemma_first_unique(terms, nothing(n), log, seat, other);
            lemma_back_unique(terms, n, log, seat, u, v);
        } else {
            assert(satisfies_at(terms, nothing(n), log, seat));
        }
    } else if !low_too {
        let other = choose|other: int|
            {
                &&& #[trigger] first_satisfies(terms, nothing(n), log, other)
                &&& other < p
                &&& goes_back_to(terms, n, log, other, v)
                &&& log[other].origin is Decision || v < log[other].level
            };
        assert(satisfies_at(terms, nothing(n), log, other));
    }
}

/// Determinism of a step. The state that one step leaves the solver in,
/// and the action that it hands out, are determined by the state that the
/// step is taken in: two outcomes that the contract of the step admits for
/// one state are one.
pub proof fn lemma_step_determined(before: Solver, a: Solver, r: Action, b: Solver, s: Action)
    requires
        before.inv(),
        step_says(before, a, r),
        step_says(before, b, s),
    ensures
        r == s,
        same_state(a, b),
{
    match before.phase() {
        Phase::Satisfied => lemma_final_determined(before, a, r, b, s),
        Phase::Unsatisfiable => lemma_final_determined(before, a, r, b, s),
        Phase::Backtracking { .. } => lemma_back_determined(before, a, r, b, s),
        Phase::ConflictFound { .. } => lemma_conflict_determined(before, a, r, b, s),
        Phase::Propagating => {
            if pass_result(pass_from(before.incompatibilities(), before.allowed(), 0)) == Pass::Settled {
                lemma_settled_determined(before, a, r, b, s);
            } else {
                lemma_pass_determined(before, a, r, b, s);
            }
        },
    }
}

/// What a step says of a solver it says of every solver in the same state.
pub proof fn lemma_step_of_same(x: Solver, y: Solver, a: Solver, r: Action)
    requires
        same_state(x, y),
        step_says(x, a, r),
    ensures
        step_says(y, a, r),
{
    x.lemma_assignment_count();
    y.lemma_assignment_count();
    assert forall|q: int| #[trigger] y.pending_at(q) == x.pending_at(q) by {}
    assert forall|q: int| y.choice_is(q) == #[trigger] x.choice_is(q) by {
        assert forall|o: int| crate::solver::is_pending(y.allowed(), y.decisions(), o) == crate::solver::is_pending(
            x.allowed(),
            x.decisions(),
            o,
        ) by {}
    }
    match x.phase() {
        Phase::Propagating => {
            assert(passed(x, a, r));
            assert(passed(y, a, r));
            if pass_result(pass_from(x.incompatibilities(), x.allowed(), 0)) == Pass::Settled {
                assert(settled(x, a, r));
                if r == Action::Continue && a.phase() == Phase::Propagating {
                    let p = choose|p: int| #[trigger] found_none(x, a, p);
                    assert(found_none(y, a, p));
                }
                if a.phase() is ConflictFound {
                    assert(found_unmet(x, a));
                    if exists|i: int| #[trigger] root_unmet(x, a, i) {
                        let i = choose|i: int| #[trigger] root_unmet(x, a, i);
                        assert(root_unmet(y, a, i));
                    } else {
                        let (p, e) = choose|p: int, e: int| #[trigger] dependency_unmet(x, a, p, e);
                        assert(dependency_unmet(y, a, p, e));
                    }
                    assert(found_unmet(y, a));
                }
                assert(settled(y, a, r));
            }
        },
        Phase::ConflictFound { incompatibility } => {
            assert(learned_from(x, a, incompatibility as int));
            assert(learned_from(y, a, incompatibility as int));
        },
        Phase::Backtracking { level } => {
            assert(went_back(x, a, level as int));
            assert(went_back(y, a, level as int));
        },
        _ => {},
    }
}

} // verus!
