//! Terms: what one package may be in a solution.
//!
//! A package is either absent from a solution or present at one version. A
//! term is a set of such states: whether absence is allowed, and which
//! versions are. "The package is present at a version of `S`" and "the
//! package is absent or at a version outside `S`" are both terms, and terms
//! are closed under union, intersection and complement.

use crate::version::{is_version, Version};
use crate::version_set::{lemma_complement_contains, lemma_intersection, lemma_union, VersionSet, VersionSetView};
use vstd::prelude::*;

verus! {

/// The state of a package in a solution: absent, or present at a version.
pub type State = Option<Seq<char>>;

/// A state whose version, if any, is a version.
pub open spec fn state_valid(s: State) -> bool {
    s matches Some(v) ==> is_version(v)
}

/// The mathematical value of a term.
pub struct TermView {
    pub absent: bool,
    pub versions: VersionSetView,
}

impl TermView {
    /// Whether the term allows the state.
    pub open spec fn holds(self, s: State) -> bool {
        match s {
            None => self.absent,
            Some(v) => self.versions.contains(v),
        }
    }

    pub open spec fn wf(self) -> bool {
        self.versions.wf()
    }

    /// The term that allows every state.
    pub open spec fn any() -> TermView {
        TermView { absent: true, versions: VersionSetView::full() }
    }

    /// The term that allows no state.
    pub open spec fn never() -> TermView {
        TermView { absent: false, versions: VersionSetView::empty() }
    }

    pub open spec fn complement(self) -> TermView {
        TermView { absent: !self.absent, versions: self.versions.complement() }
    }

    pub open spec fn union(self, other: TermView) -> TermView {
        TermView { absent: self.absent || other.absent, versions: self.versions.union(other.versions) }
    }

    pub open spec fn intersection(self, other: TermView) -> TermView {
        TermView { absent: self.absent && other.absent, versions: self.versions.intersection(other.versions) }
    }

    /// Every valid state that `self` allows, `other` allows.
    pub open spec fn subset_of(self, other: TermView) -> bool {
        forall|s: State| state_valid(s) && #[trigger] self.holds(s) ==> other.holds(s)
    }

    /// No valid state is allowed by both.
    pub open spec fn disjoint_from(self, other: TermView) -> bool {
        forall|s: State| state_valid(s) ==> !(#[trigger] self.holds(s) && other.holds(s))
    }
}

/// What the three operations allow, state by state.
pub proof fn lemma_term_ops(a: TermView, b: TermView, s: State)
    requires
        a.wf(),
        b.wf(),
        state_valid(s),
    ensures
        a.union(b).wf(),
        a.intersection(b).wf(),
        a.complement().wf(),
        a.union(b).holds(s) == (a.holds(s) || b.holds(s)),
        a.intersection(b).holds(s) == (a.holds(s) && b.holds(s)),
        a.complement().holds(s) == !a.holds(s),
{
    lemma_union(a.versions, b.versions);
    lemma_intersection(a.versions, b.versions);
    if let Some(v) = s {
        lemma_complement_contains(a.versions, v);
        assert(a.versions.union(b.versions).contains(v) <==> a.versions.contains(v) || b.versions.contains(v));
        assert(a.versions.intersection(b.versions).contains(v) <==> a.versions.contains(v) && b.versions.contains(
            v,
        ));
    }
}

/// A set of states of one package.
#[derive(Debug)]
pub struct Term {
    absent: bool,
    versions: VersionSet,
}

impl View for Term {
    type V = TermView;

    closed spec fn view(&self) -> TermView {
        TermView { absent: self.absent, versions: self.versions@ }
    }
}

impl Term {
    #[verifier::type_invariant]
    pub open spec fn wf(&self) -> bool {
        self@.wf()
    }

    /// The term that allows absence if `absent`, and the versions given.
    pub fn new(absent: bool, versions: VersionSet) -> (r: Term)
        ensures
            r@ == (TermView { absent, versions: versions@ }),
            r.wf(),
    {
        proof {
            use_type_invariant(&versions);
        }
        Term { absent, versions }
    }

    /// The term that allows every state.
    pub fn any() -> (r: Term)
        ensures
            r@ == TermView::any(),
            r.wf(),
    {
        Term { absent: true, versions: VersionSet::full() }
    }

    /// The term that allows no state.
    pub fn never() -> (r: Term)
        ensures
            r@ == TermView::never(),
            r.wf(),
    {
        Term { absent: false, versions: VersionSet::empty() }
    }

    /// A copy of the term.
    pub fn duplicate(&self) -> (r: Term)
        ensures
            r@ == self@,
            r.wf(),
    {
        proof {
            use_type_invariant(self);
        }
        Term { absent: self.absent, versions: self.versions.duplicate() }
    }

    /// Whether the term allows the package to be absent.
    pub fn allows_absence(&self) -> (r: bool)
        ensures
            r == self@.absent,
            r == self@.holds(None),
    {
        self.absent
    }

    /// The versions that the term allows.
    pub fn versions(&self) -> (r: &VersionSet)
        ensures
            r@ == self@.versions,
    {
        &self.versions
    }

    /// Whether the term allows the package at this version.
    pub fn allows_version(&self, v: &Version) -> (r: bool)
        ensures
            r == self@.holds(Some(v@)),
    {
        self.versions.contains(v)
    }

    /// The states that the term does not allow.
    pub fn complement(&self) -> (r: Term)
        ensures
            r@ == self@.complement(),
            r.wf(),
    {
        proof {
            use_type_invariant(self);
        }
        Term { absent: !self.absent, versions: self.versions.complement() }
    }

    /// The states that either term allows.
    pub fn union(&self, other: &Term) -> (r: Term)
        ensures
            r@ == self@.union(other@),
            r.wf(),
    {
        Term { absent: self.absent || other.absent, versions: self.versions.union(&other.versions) }
    }

    /// The states that both terms allow.
    pub fn intersection(&self, other: &Term) -> (r: Term)
        ensures
            r@ == self@.intersection(other@),
            r.wf(),
    {
        Term { absent: self.absent && other.absent, versions: self.versions.intersection(&other.versions) }
    }

    /// Whether this is the term that allows every state, in its one
    /// representation.
    pub fn is_any(&self) -> (r: bool)
        ensures
            r == (self@ == TermView::any()),
    {
        self.absent && self.versions.is_full()
    }

    /// Whether this is the term that allows no state, in its one
    /// representation.
    pub fn is_never(&self) -> (r: bool)
        ensures
            r == (self@ == TermView::never()),
            r ==> forall|s: State| state_valid(s) ==> !#[trigger] self@.holds(s),
    {
        let r = !self.absent && self.versions.is_empty();
        proof {
            if r {
                assert forall|s: State| state_valid(s) implies !#[trigger] self@.holds(s) by {
                    if let Some(v) = s {
                        assert(!self@.versions.contains(v));
                    }
                }
            }
        }
        r
    }

    /// Whether what `self` allows beyond `other` is the term that allows no
    /// state; if so, `other` allows every state that `self` allows.
    pub fn subset_of(&self, other: &Term) -> (r: bool)
        ensures
            r == (self@.intersection(other@.complement()) == TermView::never()),
            r ==> self@.subset_of(other@),
    {
        let rest = self.intersection(&other.complement());
        let r = rest.is_never();
        proof {
            use_type_invariant(self);
            use_type_invariant(other);
            if r {
                assert forall|s: State| state_valid(s) && #[trigger] self@.holds(s) implies other@.holds(s) by {
                    lemma_term_ops(other@, other@, s);
                    lemma_term_ops(self@, other@.complement(), s);
                    assert(!rest@.holds(s));
                }
            }
        }
        r
    }

    /// Whether what both allow is the term that allows no state; if so, no
    /// state is allowed by both.
    pub fn is_disjoint(&self, other: &Term) -> (r: bool)
        ensures
            r == (self@.intersection(other@) == TermView::never()),
            r ==> self@.disjoint_from(other@),
    {
        let both = self.intersection(other);
        let r = both.is_never();
        proof {
            use_type_invariant(self);
            use_type_invariant(other);
            if r {
                assert forall|s: State| state_valid(s) implies !(#[trigger] self@.holds(s) && other@.holds(s)) by {
                    lemma_term_ops(self@, other@, s);
                    assert(!both@.holds(s));
                }
            }
        }
        r
    }
}

} // verus!
