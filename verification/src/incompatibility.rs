//! Incompatibilities: combinations of package states that no solution has.
//!
//! An incompatibility holds one term for each package (the term that allows
//! every state where it says nothing of the package). A selection is
//! forbidden by it when every package is in a state that its term allows.

use crate::term::{lemma_term_ops, State, Term, TermView};
use crate::version::is_version;
use vstd::prelude::*;

verus! {

/// A selection: the packages that are present, each with its version.
pub type Selection = Map<int, Seq<char>>;

/// The state of package `p` in the selection.
pub open spec fn state_of(sel: Selection, p: int) -> State {
    if sel.dom().contains(p) {
        Some(sel[p])
    } else {
        None
    }
}

/// Every version in the selection is a version.
pub open spec fn selection_valid(sel: Selection) -> bool {
    forall|p: int| sel.dom().contains(p) ==> is_version(#[trigger] sel[p])
}

/// The term of package `p`: the one listed, or the term that allows every
/// state where the list ends before `p`.
pub open spec fn term_at(terms: Seq<TermView>, p: int) -> TermView {
    if 0 <= p < terms.len() {
        terms[p]
    } else {
        TermView::any()
    }
}

/// Whether every package is in a state that its term allows: the selection
/// is one that the incompatibility rules out.
pub open spec fn forbids(terms: Seq<TermView>, sel: Selection) -> bool {
    forall|p: int| (#[trigger] term_at(terms, p)).holds(state_of(sel, p))
}

/// Whether the incompatibility speaks of no package: every term allows
/// every state. Such a one forbids every selection.
pub open spec fn says_nothing(terms: Seq<TermView>) -> bool {
    forall|p: int| #[trigger] term_at(terms, p) == TermView::any()
}

pub open spec fn terms_wf(terms: Seq<TermView>) -> bool {
    forall|p: int| 0 <= p < terms.len() ==> (#[trigger] terms[p]).wf()
}

/// The longer of two lengths.
pub open spec fn longer(a: nat, b: nat) -> nat {
    if a >= b {
        a
    } else {
        b
    }
}

/// The resolvent of two incompatibilities on the package `pivot`: the union
/// of the two terms of the pivot, the intersection of the two terms of every
/// other package.
pub open spec fn resolvent(a: Seq<TermView>, b: Seq<TermView>, pivot: int) -> Seq<TermView> {
    Seq::new(
        longer(a.len(), b.len()),
        |q: int|
            if q == pivot {
                term_at(a, q).union(term_at(b, q))
            } else {
                term_at(a, q).intersection(term_at(b, q))
            },
    )
}

/// The resolution rule is sound: a selection that the resolvent forbids is
/// forbidden by one of the two incompatibilities it was made from.
pub proof fn lemma_resolvent_sound(a: Seq<TermView>, b: Seq<TermView>, pivot: int, sel: Selection)
    requires
        terms_wf(a),
        terms_wf(b),
        selection_valid(sel),
        forbids(resolvent(a, b, pivot), sel),
    ensures
        forbids(a, sel) || forbids(b, sel),
        terms_wf(resolvent(a, b, pivot)),
{
    let r = resolvent(a, b, pivot);
    assert forall|p: int| 0 <= p < r.len() implies (#[trigger] r[p]).wf() by {
        lemma_term_ops(term_at(a, p), term_at(b, p), None);
    }
    let sp = state_of(sel, pivot);
    assert forall|q: int| (term_at(a, q).holds(state_of(sel, q)) || q == pivot) && (term_at(b, q).holds(
        state_of(sel, q),
    ) || q == pivot) by {
        let s = state_of(sel, q);
        if sel.dom().contains(q) {
            assert(is_version(sel[q]));
        }
        lemma_term_ops(term_at(a, q), term_at(b, q), s);
        assert(term_at(r, q).holds(s));
    }
    if sel.dom().contains(pivot) {
        assert(is_version(sel[pivot]));
    }
    lemma_term_ops(term_at(a, pivot), term_at(b, pivot), sp);
    assert(term_at(r, pivot).holds(sp));
    if term_at(a, pivot).holds(sp) {
        assert forall|q: int| (#[trigger] term_at(a, q)).holds(state_of(sel, q)) by {}
    } else {
        assert forall|q: int| (#[trigger] term_at(b, q)).holds(state_of(sel, q)) by {}
    }
}

/// Where an incompatibility comes from.
#[derive(Debug, Clone, Copy, PartialEq, Eq, Structural)]
pub enum Cause {
    /// The root requirement of this number.
    Root { requirement: usize },
    /// A requirement that a candidate of a package declares.
    Dependency { package: usize, candidate: usize, requirement: usize },
    /// No candidate of the package is left among the versions named.
    NoVersions { package: usize },
    /// The metadata of a candidate could not be had or was malformed.
    Unavailable { package: usize, candidate: usize },
    /// The resolvent of two earlier incompatibilities.
    Derived { left: usize, right: usize },
}

/// The mathematical value of an incompatibility.
pub struct IncompatibilityView {
    pub terms: Seq<TermView>,
    pub cause: Cause,
}

/// The views of a list of terms.
pub open spec fn term_views(terms: Seq<Term>) -> Seq<TermView> {
    Seq::new(terms.len(), |i: int| terms[i]@)
}

/// A combination of package states that no solution has.
#[derive(Debug)]
pub struct Incompatibility {
    terms: Vec<Term>,
    cause: Cause,
}

impl View for Incompatibility {
    type V = IncompatibilityView;

    closed spec fn view(&self) -> IncompatibilityView {
        IncompatibilityView { terms: term_views(self.terms@), cause: self.cause }
    }
}

impl Incompatibility {
    #[verifier::type_invariant]
    pub open spec fn wf(&self) -> bool {
        terms_wf(self@.terms)
    }

    /// The incompatibility that says of package `p` what `term` allows, and
    /// nothing of any other package.
    pub fn of_one(p: usize, term: Term, cause: Cause) -> (r: Incompatibility)
        ensures
            r.wf(),
            r@.cause == cause,
            r@.terms.len() == p + 1,
            forall|q: int| #[trigger] term_at(r@.terms, q) == if q == p { term@ } else { TermView::any() },
    {
        let mut terms: Vec<Term> = Vec::new();
        let mut i: usize = 0;
        while i < p
            invariant
                i <= p,
                terms.len() == i,
                forall|q: int| 0 <= q < i ==> (#[trigger] terms[q])@ == TermView::any(),
            decreases p - i,
        {
            terms.push(Term::any());
            i += 1;
        }
        proof {
            use_type_invariant(&term);
        }
        terms.push(term);
        let r = Incompatibility { terms, cause };
        assert forall|q: int| #[trigger] term_at(r@.terms, q) == if q == p { term@ } else { TermView::any() } by {}
        r
    }

    /// The incompatibility that says of `p` what `tp` allows, of `q` what
    /// `tq` allows, and nothing of any other package.
    pub fn of_two(p: usize, tp: Term, q: usize, tq: Term, cause: Cause) -> (r: Incompatibility)
        requires
            p != q,
        ensures
            r.wf(),
            r@.cause == cause,
            r@.terms.len() == longer(p as nat, q as nat) + 1,
            forall|k: int| #[trigger]
                term_at(r@.terms, k) == if k == p { tp@ } else if k == q { tq@ } else { TermView::any() },
    {
        let (lo, tlo, hi, thi) = if p < q {
            (p, tp, q, tq)
        } else {
            (q, tq, p, tp)
        };
        let mut terms: Vec<Term> = Vec::new();
        let mut i: usize = 0;
        while i < lo
            invariant
                i <= lo,
                terms.len() == i,
                forall|k: int| 0 <= k < i ==> (#[trigger] terms[k])@ == TermView::any(),
            decreases lo - i,
        {
            terms.push(Term::any());
            i += 1;
        }
        proof {
            use_type_invariant(&tlo);
            use_type_invariant(&thi);
        }
        terms.push(tlo);
        i += 1;
        while i < hi
            invariant
                lo < i <= hi,
                terms.len() == i,
                terms[lo as int]@ == tlo@,
                forall|k: int| 0 <= k < i && k != lo ==> (#[trigger] terms[k])@ == TermView::any(),
            decreases hi - i,
        {
            terms.push(Term::any());
            i += 1;
        }
        terms.push(thi);
        let r = Incompatibility { terms, cause };
        assert forall|k: int| #[trigger]
            term_at(r@.terms, k) == if k == p { tp@ } else if k == q { tq@ } else { TermView::any() } by {}
        r
    }

    /// Where the incompatibility comes from.
    pub fn cause(&self) -> (r: Cause)
        ensures
            r == self@.cause,
    {
        self.cause
    }

    /// The number of packages that terms are listed for.
    pub fn len(&self) -> (r: usize)
        ensures
            r == self@.terms.len(),
    {
        self.terms.len()
    }

    /// A copy of the term of package `p`.
    pub fn term(&self, p: usize) -> (r: Term)
        ensures
            r@ == term_at(self@.terms, p as int),
            r.wf(),
    {
        proof {
            use_type_invariant(self);
        }
        if p < self.terms.len() {
            self.terms[p].duplicate()
        } else {
            Term::any()
        }
    }

    /// Whether the incompatibility says something of package `p`: its term
    /// is not the term that allows every state.
    pub fn mentions(&self, p: usize) -> (r: bool)
        ensures
            r == (term_at(self@.terms, p as int) != TermView::any()),
    {
        p < self.terms.len() && !self.terms[p].is_any()
    }

    /// Whether the incompatibility says nothing of any package. Such a one
    /// forbids every selection.
    pub fn is_empty(&self) -> (r: bool)
        ensures
            r == says_nothing(self@.terms),
            r ==> forall|sel: Selection| forbids(self@.terms, sel),
    {
        let mut i: usize = 0;
        while i < self.terms.len()
            invariant
                i <= self.terms.len(),
                forall|p: int| 0 <= p < i ==> #[trigger] term_at(self@.terms, p) == TermView::any(),
            decreases self.terms.len() - i,
        {
            if !self.terms[i].is_any() {
                assert(term_at(self@.terms, i as int) != TermView::any());
                return false;
            }
            i += 1;
        }
        proof {
            assert forall|sel: Selection| forbids(self@.terms, sel) by {
                assert forall|p: int| (#[trigger] term_at(self@.terms, p)).holds(state_of(sel, p)) by {
                    assert(term_at(self@.terms, p) == TermView::any());
                    lemma_any_holds(state_of(sel, p));
                }
            }
        }
        true
    }

    /// The resolvent of two incompatibilities on the package `pivot`.
    pub fn resolve(&self, other: &Incompatibility, pivot: usize, cause: Cause) -> (r: Incompatibility)
        ensures
            r.wf(),
            r@.cause == cause,
            r@.terms == resolvent(self@.terms, other@.terms, pivot as int),
    {
        let n = if self.terms.len() >= other.terms.len() {
            self.terms.len()
        } else {
            other.terms.len()
        };
        let ghost goal = resolvent(self@.terms, other@.terms, pivot as int);
        let mut terms: Vec<Term> = Vec::new();
        let mut q: usize = 0;
        while q < n
            invariant
                q <= n,
                n == longer(self@.terms.len(), other@.terms.len()),
                goal == resolvent(self@.terms, other@.terms, pivot as int),
                terms.len() == q,
                forall|k: int| 0 <= k < q ==> (#[trigger] terms[k])@ == goal[k],
                forall|k: int| 0 <= k < q ==> (#[trigger] terms[k]).wf(),
            decreases n - q,
        {
            let ta = self.term(q);
            let tb = other.term(q);
            let t = if q == pivot {
                ta.union(&tb)
            } else {
                ta.intersection(&tb)
            };
            terms.push(t);
            q += 1;
        }
        let r = Incompatibility { terms, cause };
        assert(r@.terms =~= goal);
        r
    }
}

/// The term that allows every state allows every state.
pub proof fn lemma_any_holds(s: State)
    ensures
        TermView::any().holds(s),
{
}

} // verus!
