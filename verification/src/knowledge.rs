//! What a resolution run knows: the root requirements and what the metadata
//! provider has answered so far, and what it means for a selection to solve
//! that.

use crate::incompatibility::{forbids, selection_valid, state_of, term_at, Selection};
use crate::metadata::{Tag, TagView};
use crate::term::TermView;
use crate::version::{is_version, version_is_prerelease, version_le, version_lt, version_same, Version};
use crate::version_set::{lemma_complement_contains, VersionSet, VersionSetView};
use vstd::prelude::*;

verus! {

/// A requirement: the package must be present at a version of the set.
/// The tag says why the requirement is there; it does not bear on what
/// meets it.
pub struct RequirementView {
    pub package: int,
    pub versions: VersionSetView,
    pub tag: TagView,
}

/// What is known of the metadata of one candidate.
pub enum MetadataView {
    /// Not asked for yet.
    Unknown,
    /// It could not be had, or was malformed: the candidate cannot be used.
    Unavailable,
    /// The requirements that the candidate declares.
    Known(Seq<RequirementView>),
}

/// What is known of one package.
pub struct PackageView {
    /// The candidate versions, once they were listed.
    pub candidates: Option<Seq<Seq<char>>>,
    /// For each candidate, what is known of its metadata.
    pub metadata: Seq<MetadataView>,
}

/// What a run knows.
pub struct KnowledgeView {
    pub roots: Seq<RequirementView>,
    pub packages: Seq<PackageView>,
    /// Whether pre-releases may be candidates.
    pub prereleases: bool,
}

/// Whether the selection has the package at a version of the set.
pub open spec fn requirement_met(r: RequirementView, sel: Selection) -> bool {
    sel.dom().contains(r.package) && r.versions.contains(sel[r.package])
}

pub open spec fn requirements_met(rs: Seq<RequirementView>, sel: Selection) -> bool {
    forall|i: int| 0 <= i < rs.len() ==> requirement_met(#[trigger] rs[i], sel)
}

/// Whether the metadata, as far as it is known, lets the candidate stand in
/// the selection.
pub open spec fn metadata_allows(m: MetadataView, sel: Selection) -> bool {
    match m {
        MetadataView::Unknown => true,
        MetadataView::Unavailable => false,
        MetadataView::Known(rs) => requirements_met(rs, sel),
    }
}

/// The requirements name packages below `n` other than `owner`, and their
/// sets are version sets.
pub open spec fn requirements_wf(rs: Seq<RequirementView>, n: int, owner: int) -> bool {
    forall|i: int|
        0 <= i < rs.len() ==> 0 <= (#[trigger] rs[i]).package < n && rs[i].package != owner && rs[i].versions.wf()
}

/// Whether `v` is one of the candidates.
pub open spec fn listed(cs: Seq<Seq<char>>, v: Seq<char>) -> bool {
    exists|k: int| 0 <= k < cs.len() && #[trigger] cs[k] == v
}

impl KnowledgeView {
    /// The requirements name packages of the table, no candidate requires
    /// its own package, candidates are versions and no two are the same.
    pub open spec fn wf(self) -> bool {
        &&& requirements_wf(self.roots, self.packages.len() as int, -1)
        &&& forall|p: int| 0 <= p < self.packages.len() ==> self.package_wf(p)
    }

    pub open spec fn package_wf(self, p: int) -> bool {
        let pk = self.packages[p];
        match pk.candidates {
            None => pk.metadata.len() == 0,
            Some(cs) => {
                &&& pk.metadata.len() == cs.len()
                &&& forall|k: int| 0 <= k < cs.len() ==> is_version(#[trigger] cs[k])
                &&& forall|k: int| 0 <= k < cs.len() && !self.prereleases ==> !version_is_prerelease(#[trigger] cs[k])
                &&& forall|j: int, k: int|
                    0 <= j < cs.len() && 0 <= k < cs.len() && j != k ==> !version_same(
                        #[trigger] cs[j],
                        #[trigger] cs[k],
                    )
                &&& forall|k: int|
                    0 <= k < cs.len() && (#[trigger] pk.metadata[k]) is Known ==> requirements_wf(
                        pk.metadata[k]->Known_0,
                        self.packages.len() as int,
                        p,
                    )
            },
        }
    }

    /// Whether nothing that is known rules the selection out: the roots are
    /// met, and each package present is at a listed candidate (where its
    /// candidates are listed) whose metadata (where known) is met.
    pub open spec fn possible(self, sel: Selection) -> bool {
        &&& selection_valid(sel)
        &&& requirements_met(self.roots, sel)
        &&& forall|p: int|
            #![trigger sel.dom().contains(p)]
            sel.dom().contains(p) && 0 <= p < self.packages.len() && self.packages[p].candidates is Some ==> {
                let cs = self.packages[p].candidates->0;
                &&& listed(cs, sel[p])
                &&& forall|k: int|
                    0 <= k < cs.len() && #[trigger] cs[k] == sel[p] ==> metadata_allows(
                        self.packages[p].metadata[k],
                        sel,
                    )
            }
    }

    /// Whether the selection solves what is known: the roots are met, and
    /// each package present is a package of the table, at a listed candidate
    /// whose metadata is known and met.
    pub open spec fn solved_by(self, sel: Selection) -> bool {
        &&& selection_valid(sel)
        &&& requirements_met(self.roots, sel)
        &&& forall|p: int|
            #![trigger sel.dom().contains(p)]
            sel.dom().contains(p) ==> {
                &&& 0 <= p < self.packages.len()
                &&& self.packages[p].candidates is Some
                &&& listed(self.packages[p].candidates->0, sel[p])
                &&& forall|k: int|
                    0 <= k < self.packages[p].candidates->0.len() && #[trigger] self.packages[p].candidates->0[k]
                        == sel[p] ==> self.packages[p].metadata[k] is Known && metadata_allows(
                        self.packages[p].metadata[k],
                        sel,
                    )
            }
    }

    /// Whether every selection that is possible under what is known keeps
    /// clear of the incompatibility.
    pub open spec fn entails(self, terms: Seq<TermView>) -> bool {
        forall|sel: Selection| #[trigger] self.possible(sel) ==> !forbids(terms, sel)
    }

    /// `self` knows all that `earlier` knows.
    pub open spec fn extends(self, earlier: KnowledgeView) -> bool {
        &&& self.roots == earlier.roots
        &&& self.prereleases == earlier.prereleases
        &&& self.packages.len() >= earlier.packages.len()
        &&& forall|p: int|
            #![trigger earlier.packages[p]]
            0 <= p < earlier.packages.len() && earlier.packages[p].candidates is Some ==> {
                &&& self.packages[p].candidates == earlier.packages[p].candidates
                &&& self.packages[p].metadata.len() == earlier.packages[p].metadata.len()
                &&& forall|k: int|
                    0 <= k < earlier.packages[p].metadata.len() && !(#[trigger] earlier.packages[p].metadata[k]
                        is Unknown) ==> self.packages[p].metadata[k] == earlier.packages[p].metadata[k]
            }
    }
}

impl KnowledgeView {
    /// `self` knows what `earlier` knows, but for candidates that have
    /// turned out to be unusable since.
    pub open spec fn bars(self, earlier: KnowledgeView) -> bool {
        &&& self.roots == earlier.roots
        &&& self.prereleases == earlier.prereleases
        &&& self.packages.len() == earlier.packages.len()
        &&& forall|p: int|
            #![trigger earlier.packages[p]]
            0 <= p < earlier.packages.len() ==> {
                &&& self.packages[p].candidates == earlier.packages[p].candidates
                &&& self.packages[p].metadata.len() == earlier.packages[p].metadata.len()
                &&& forall|k: int|
                    0 <= k < earlier.packages[p].metadata.len() ==> (#[trigger] self.packages[p].metadata[k])
                        == earlier.packages[p].metadata[k] || self.packages[p].metadata[k] is Unavailable
            }
    }
}

/// What is possible once candidates have turned out to be unusable was
/// possible before.
pub proof fn lemma_possible_after_bar(later: KnowledgeView, earlier: KnowledgeView, sel: Selection)
    requires
        earlier.wf(),
        later.bars(earlier),
        later.possible(sel),
    ensures
        earlier.possible(sel),
{
    assert forall|p: int|
        #![trigger sel.dom().contains(p)]
        sel.dom().contains(p) && 0 <= p < earlier.packages.len() && earlier.packages[p].candidates is Some implies {
            let cs = earlier.packages[p].candidates->0;
            &&& listed(cs, sel[p])
            &&& forall|k: int|
                0 <= k < cs.len() && #[trigger] cs[k] == sel[p] ==> metadata_allows(
                    earlier.packages[p].metadata[k],
                    sel,
                )
        } by {
        let e = earlier.packages[p];
        let cs = e.candidates->0;
        assert(earlier.package_wf(p));
        assert(later.packages[p].candidates == e.candidates);
        assert forall|k: int| 0 <= k < cs.len() && #[trigger] cs[k] == sel[p] implies metadata_allows(
            e.metadata[k],
            sel,
        ) by {
            assert(metadata_allows(later.packages[p].metadata[k], sel));
            assert(later.packages[p].metadata[k] == e.metadata[k] || later.packages[p].metadata[k] is Unavailable);
        }
    }
}

/// A selection that solves what is known is possible under it.
pub proof fn lemma_solved_is_possible(k: KnowledgeView, sel: Selection)
    requires
        k.solved_by(sel),
    ensures
        k.possible(sel),
{
}

/// What is possible once more is known was possible before.
pub proof fn lemma_possible_shrinks(later: KnowledgeView, earlier: KnowledgeView, sel: Selection)
    requires
        earlier.wf(),
        later.extends(earlier),
        later.possible(sel),
    ensures
        earlier.possible(sel),
{
    assert forall|p: int|
        #![trigger sel.dom().contains(p)]
        sel.dom().contains(p) && 0 <= p < earlier.packages.len() && earlier.packages[p].candidates is Some implies {
            let cs = earlier.packages[p].candidates->0;
            &&& listed(cs, sel[p])
            &&& forall|k: int|
                0 <= k < cs.len() && #[trigger] cs[k] == sel[p] ==> metadata_allows(
                    earlier.packages[p].metadata[k],
                    sel,
                )
        } by {
        let e = earlier.packages[p];
        let cs = e.candidates->0;
        assert(earlier.package_wf(p));
        assert(later.packages[p].candidates == e.candidates);
        assert forall|k: int| 0 <= k < cs.len() && #[trigger] cs[k] == sel[p] implies metadata_allows(
            e.metadata[k],
            sel,
        ) by {
            if !(e.metadata[k] is Unknown) {
                assert(later.packages[p].metadata[k] == e.metadata[k]);
            }
        }
    }
}

/// What was entailed stays entailed once more is known.
pub proof fn lemma_entails_persists(later: KnowledgeView, earlier: KnowledgeView, terms: Seq<TermView>)
    requires
        earlier.wf(),
        later.extends(earlier),
        earlier.entails(terms),
    ensures
        later.entails(terms),
{
    assert forall|sel: Selection| #[trigger] later.possible(sel) implies !forbids(terms, sel) by {
        lemma_possible_shrinks(later, earlier, sel);
    }
}

/// The term "absent, or at a version outside the set": what a requirement
/// rules out of its package.
pub open spec fn unmet_term(r: RequirementView) -> TermView {
    TermView { absent: true, versions: r.versions.complement() }
}

/// The term "present at a version of the set".
pub open spec fn present_term(versions: VersionSetView) -> TermView {
    TermView { absent: false, versions }
}

/// A root requirement entails the incompatibility that rules out its being
/// unmet.
pub proof fn lemma_root_entailed(k: KnowledgeView, i: int, terms: Seq<TermView>)
    requires
        0 <= i < k.roots.len(),
        term_at(terms, k.roots[i].package) == unmet_term(k.roots[i]),
    ensures
        k.entails(terms),
{
    let r = k.roots[i];
    assert forall|sel: Selection| #[trigger] k.possible(sel) implies !forbids(terms, sel) by {
        assert(requirement_met(r, sel));
        lemma_complement_contains(r.versions, sel[r.package]);
        assert(!term_at(terms, r.package).holds(state_of(sel, r.package)));
    }
}

/// A requirement that a candidate declares entails the incompatibility that
/// rules out the candidate together with the requirement's being unmet.
pub proof fn lemma_dependency_entailed(
    k: KnowledgeView,
    p: int,
    c: int,
    i: int,
    set: VersionSetView,
    terms: Seq<TermView>,
)
    requires
        k.wf(),
        0 <= p < k.packages.len(),
        k.packages[p].candidates is Some,
        0 <= c < k.packages[p].candidates->0.len(),
        k.packages[p].metadata[c] is Known,
        0 <= i < k.packages[p].metadata[c]->Known_0.len(),
        forall|x: Seq<char>| is_version(x) && #[trigger] set.contains(x) ==> version_same(
            k.packages[p].candidates->0[c],
            x,
        ),
        term_at(terms, p) == present_term(set),
        term_at(terms, k.packages[p].metadata[c]->Known_0[i].package) == unmet_term(
            k.packages[p].metadata[c]->Known_0[i],
        ),
    ensures
        k.entails(terms),
{
    let cs = k.packages[p].candidates->0;
    let r = k.packages[p].metadata[c]->Known_0[i];
    assert(k.package_wf(p));
    assert forall|sel: Selection| #[trigger] k.possible(sel) implies !forbids(terms, sel) by {
        if forbids(terms, sel) {
            assert(term_at(terms, p).holds(state_of(sel, p)));
            assert(sel.dom().contains(p));
            assert(is_version(sel[p]));
            assert(version_same(cs[c], sel[p]));
            let j = choose|j: int| 0 <= j < cs.len() && #[trigger] cs[j] == sel[p];
            assert(j == c);
            assert(metadata_allows(k.packages[p].metadata[c], sel));
            assert(requirement_met(r, sel));
            lemma_complement_contains(r.versions, sel[r.package]);
            assert(term_at(terms, r.package).holds(state_of(sel, r.package)));
        }
    }
}

/// With none of the listed candidates usable among the versions of a set,
/// the package cannot be present at a version of that set.
pub proof fn lemma_no_versions_entailed(k: KnowledgeView, p: int, set: VersionSetView, terms: Seq<TermView>)
    requires
        0 <= p < k.packages.len(),
        k.packages[p].candidates is Some,
        forall|c: int|
            0 <= c < k.packages[p].candidates->0.len() && set.contains(#[trigger] k.packages[p].candidates->0[c])
                ==> k.packages[p].metadata[c] is Unavailable,
        term_at(terms, p) == present_term(set),
    ensures
        k.entails(terms),
{
    let cs = k.packages[p].candidates->0;
    assert forall|sel: Selection| #[trigger] k.possible(sel) implies !forbids(terms, sel) by {
        if forbids(terms, sel) {
            assert(term_at(terms, p).holds(state_of(sel, p)));
            assert(sel.dom().contains(p));
            let j = choose|j: int| 0 <= j < cs.len() && #[trigger] cs[j] == sel[p];
            assert(set.contains(cs[j]));
            assert(!metadata_allows(k.packages[p].metadata[j], sel));
        }
    }
}


/// A requirement on a package of the table.
#[derive(Debug)]
pub struct Requirement {
    package: usize,
    versions: VersionSet,
    tag: Tag,
}

impl View for Requirement {
    type V = RequirementView;

    closed spec fn view(&self) -> RequirementView {
        RequirementView { package: self.package as int, versions: self.versions@, tag: self.tag@ }
    }
}

impl Requirement {
    #[verifier::type_invariant]
    pub open spec fn wf(&self) -> bool {
        self@.versions.wf() && self@.package >= 0
    }

    /// The requirement that `package` be present at a version of `versions`.
    pub fn new(package: usize, versions: VersionSet) -> (r: Requirement)
        ensures
            r@ == (RequirementView { package: package as int, versions: versions@, tag: TagView::Plain }),
            r.wf(),
    {
        proof {
            use_type_invariant(&versions);
        }
        Requirement { package, versions, tag: Tag::Plain }
    }

    /// The requirement that `package` be present at a version of
    /// `versions`, with the reason why.
    pub fn tagged(package: usize, versions: VersionSet, tag: Tag) -> (r: Requirement)
        ensures
            r@ == (RequirementView { package: package as int, versions: versions@, tag: tag@ }),
            r.wf(),
    {
        proof {
            use_type_invariant(&versions);
        }
        Requirement { package, versions, tag }
    }

    /// Why the requirement is there.
    pub fn tag(&self) -> (r: &Tag)
        ensures
            r@ == self@.tag,
    {
        &self.tag
    }

    /// The package that is required.
    pub fn package(&self) -> (r: usize)
        ensures
            r == self@.package,
    {
        self.package
    }

    /// The versions that meet the requirement.
    pub fn versions(&self) -> (r: &VersionSet)
        ensures
            r@ == self@.versions,
            r.wf(),
    {
        proof {
            use_type_invariant(self);
        }
        &self.versions
    }

    /// A copy of the requirement.
    pub fn duplicate(&self) -> (r: Requirement)
        ensures
            r@ == self@,
            r.wf(),
    {
        proof {
            use_type_invariant(self);
        }
        Requirement { package: self.package, versions: self.versions.duplicate(), tag: self.tag.duplicate() }
    }
}

/// The views of a list of requirements.
pub open spec fn requirement_views(rs: Seq<Requirement>) -> Seq<RequirementView> {
    Seq::new(rs.len(), |i: int| rs[i]@)
}

/// The texts of a list of versions.
pub open spec fn version_views(vs: Seq<Version>) -> Seq<Seq<char>> {
    Seq::new(vs.len(), |i: int| vs[i]@)
}

/// Versions, each strictly below the next.
pub open spec fn ascending(vs: Seq<Seq<char>>) -> bool {
    &&& forall|k: int| 0 <= k < vs.len() ==> is_version(#[trigger] vs[k])
    &&& forall|j: int, k: int| 0 <= j < k < vs.len() ==> version_lt(#[trigger] vs[j], #[trigger] vs[k])
}

/// Whether the version may be a candidate: it is no pre-release, or
/// pre-releases are admitted.
pub open spec fn may_be_candidate(v: Seq<char>, prereleases: bool) -> bool {
    prereleases || !version_is_prerelease(v)
}

/// The versions of the list that may be candidates, in their order.
pub open spec fn admitted_of(given: Seq<Seq<char>>, prereleases: bool) -> Seq<Seq<char>>
    decreases given.len(),
{
    if given.len() == 0 {
        Seq::empty()
    } else if may_be_candidate(given.last(), prereleases) {
        admitted_of(given.drop_last(), prereleases).push(given.last())
    } else {
        admitted_of(given.drop_last(), prereleases)
    }
}

/// Whether `v` stands at place `j` of the list and no version before it is
/// the same version.
pub open spec fn first_at(all: Seq<Seq<char>>, j: int, v: Seq<char>) -> bool {
    &&& 0 <= j < all.len()
    &&& all[j] == v
    &&& forall|i: int| 0 <= i < j ==> !version_same(#[trigger] all[i], v)
}

/// Whether `v` is written as the first of the list that is this version
/// is.
pub open spec fn first_written(all: Seq<Seq<char>>, v: Seq<char>) -> bool {
    exists|j: int| first_at(all, j, v)
}

/// Where pre-releases are admitted every version may be a candidate.
pub proof fn lemma_all_admitted(given: Seq<Seq<char>>)
    ensures
        admitted_of(given, true) == given,
    decreases given.len(),
{
    if given.len() > 0 {
        lemma_all_admitted(given.drop_last());
        assert(given.drop_last().push(given.last()) =~= given);
    } else {
        assert(given =~= Seq::empty());
    }
}

/// The versions of a list that are no pre-releases, in their order.
pub fn without_prereleases(versions: &Vec<Version>) -> (r: Vec<Version>)
    ensures
        version_views(r@) == admitted_of(version_views(versions@), false),
        forall|i: int|
            0 <= i < r.len() ==> listed(version_views(versions@), #[trigger] r[i]@) && !version_is_prerelease(r[i]@),
        forall|j: int|
            0 <= j < versions.len() && !version_is_prerelease(#[trigger] versions[j]@) ==> listed(
                version_views(r@),
                versions[j]@,
            ),
{
    let mut out: Vec<Version> = Vec::new();
    let mut j: usize = 0;
    let ghost all = version_views(versions@);
    assert(all.take(0) =~= Seq::empty());
    assert(version_views(out@) =~= Seq::empty());
    while j < versions.len()
        invariant
            j <= versions.len(),
            all == version_views(versions@),
            version_views(out@) == admitted_of(all.take(j as int), false),
            forall|i: int|
                0 <= i < out.len() ==> listed(version_views(versions@), #[trigger] out[i]@) && !version_is_prerelease(
                    out[i]@,
                ),
            forall|k: int|
                0 <= k < j && !version_is_prerelease(#[trigger] versions[k]@) ==> listed(
                    version_views(out@),
                    versions[k]@,
                ),
        decreases versions.len() - j,
    {
        proof {
            assert(all.take(j + 1).drop_last() =~= all.take(j as int));
            assert(all.take(j + 1).last() == versions[j as int]@);
        }
        if !versions[j].is_prerelease() {
            let ghost had = version_views(out@);
            out.push(versions[j].duplicate());
            proof {
                let now = version_views(out@);
                assert(now =~= had.push(versions[j as int]@));
                assert(version_views(versions@)[j as int] == versions[j as int]@);
                assert(now[now.len() - 1] == versions[j as int]@);
                assert forall|k: int| 0 <= k < j + 1 && !version_is_prerelease(#[trigger] versions[k]@) implies listed(
                    now,
                    versions[k]@,
                ) by {
                    if k < j {
                        let w = choose|w: int| 0 <= w < had.len() && #[trigger] had[w] == versions[k]@;
                        assert(now[w] == had[w]);
                    }
                }
            }
        }
        j += 1;
    }
    assert(all.take(versions.len() as int) =~= all);
    out
}

/// Whether one of the versions listed is the same version as `v`.
pub open spec fn has_same(vs: Seq<Seq<char>>, v: Seq<char>) -> bool {
    exists|i: int| 0 <= i < vs.len() && version_same(#[trigger] vs[i], v)
}

/// Puts the versions in rising order and keeps, of those that are the same
/// version, the one that comes first in the list.
pub fn sort_versions(input: Vec<Version>) -> (r: Vec<Version>)
    ensures
        ascending(version_views(r@)),
        forall|i: int| 0 <= i < r.len() ==> first_written(version_views(input@), #[trigger] r[i]@),
        forall|i: int| 0 <= i < r.len() ==> listed(version_views(input@), #[trigger] r[i]@),
        forall|j: int| 0 <= j < input.len() ==> has_same(version_views(r@), #[trigger] input[j]@),
{
    let mut out: Vec<Version> = Vec::new();
    let mut n: usize = 0;
    let ghost all = version_views(input@);
    while n < input.len()
        invariant
            n <= input.len(),
            all == version_views(input@),
            ascending(version_views(out@)),
            forall|i: int| 0 <= i < out.len() ==> listed(all, #[trigger] out[i]@),
            forall|i: int| 0 <= i < out.len() ==> first_written(all, #[trigger] out[i]@),
            forall|j: int| 0 <= j < n ==> is_version(#[trigger] all[j]),
            forall|j: int| 0 <= j < n ==> has_same(version_views(out@), #[trigger] input[j]@),
        decreases input.len() - n,
    {
        let v = input[n].duplicate();
        proof {
            use_type_invariant(&v);
            assert(all[n as int] == v@);
        }
        let ghost before = out@;
        let mut at: usize = 0;
        while at < out.len() && out[at].lt(&v)
            invariant
                at <= out.len(),
                out@ == before,
                ascending(version_views(out@)),
                is_version(v@),
                forall|k: int| 0 <= k < at ==> version_lt(#[trigger] out[k]@, v@),
            decreases out.len() - at,
        {
            at += 1;
        }
        let ghost views = version_views(before);
        let same = at < out.len() && out[at].same(&v);
        if !same {
            out.insert(at, v);
            proof {
                let now = version_views(out@);
                assert(all[n as int] == input[n as int]@);
                assert forall|j: int, k: int| 0 <= j < k < now.len() implies version_lt(
                    #[trigger] now[j],
                    #[trigger] now[k],
                ) by {
                    let a = if j < at { views[j] } else if j == at { v@ } else { views[j - 1] };
                    let b = if k < at { views[k] } else if k == at { v@ } else { views[k - 1] };
                    assert(now[j] == a && now[k] == b);
                    if k == at {
                    } else if j == at {
                        let first = views[at as int];
                        assert(is_version(first));
                        assert(version_le(v@, first) || version_le(first, v@));
                        if k - 1 > at {
                            assert(version_lt(first, views[k - 1]));
                        }
                    }
                }
                assert forall|k: int| 0 <= k < now.len() implies is_version(#[trigger] now[k]) by {
                    let b = if k < at { views[k] } else if k == at { v@ } else { views[k - 1] };
                    assert(now[k] == b);
                }
                assert forall|i: int| 0 <= i < out.len() implies listed(all, #[trigger] out[i]@) by {
                    if i < at {
                        assert(out[i] == before[i]);
                    } else if i > at {
                        assert(out[i] == before[i - 1]);
                    }
                }
                assert forall|i: int| 0 <= i < n implies !version_same(#[trigger] all[i], v@) by {
                    if version_same(all[i], v@) {
                        assert(all[i] == input[i]@);
                        assert(has_same(views, input[i]@));
                        let w = choose|w: int| 0 <= w < views.len() && version_same(#[trigger] views[w], input[i]@);
                        assert(is_version(views[w]));
                        assert(is_version(all[i]));
                        assert(version_le(views[w], v@) && version_le(v@, views[w]));
                        if w < at {
                            assert(version_lt(views[w], v@));
                        } else if w > at {
                            let first = views[at as int];
                            assert(is_version(first));
                            assert(version_lt(first, views[w]));
                            assert(version_le(v@, first) || version_le(first, v@));
                            assert(version_le(v@, first));
                            assert(version_le(views[w], first));
                        }
                    }
                }
                assert(first_at(all, n as int, v@));
                assert forall|i: int| 0 <= i < out.len() implies first_written(all, #[trigger] out[i]@) by {
                    if i < at {
                        assert(out[i] == before[i]);
                    } else if i > at {
                        assert(out[i] == before[i - 1]);
                    }
                }
                assert forall|j: int| 0 <= j < n + 1 implies has_same(now, #[trigger] input[j]@) by {
                    if j < n {
                        assert(has_same(views, input[j]@));
                        let i0 = choose|i: int| 0 <= i < views.len() && version_same(#[trigger] views[i], input[j]@);
                        let i1 = if i0 < at { i0 } else { i0 + 1 };
                        assert(out[i1] == before[i0]);
                        assert(version_same(now[i1], input[j]@));
                    } else {
                        assert(version_same(now[at as int], input[j]@));
                    }
                }
            }
        } else {
            proof {
                assert forall|j: int| 0 <= j < n + 1 implies has_same(views, #[trigger] input[j]@) by {
                    if j == n {
                        assert(version_same(views[at as int], input[j]@));
                    }
                }
            }
        }
        n += 1;
    }
    out
}


/// What is known of the metadata of one candidate.
#[derive(Debug)]
pub enum Metadata {
    /// Not asked for yet.
    Unknown,
    /// It could not be had, or was malformed: the candidate cannot be used.
    Unavailable,
    /// The requirements that the candidate declares.
    Known(Vec<Requirement>),
}

impl View for Metadata {
    type V = MetadataView;

    open spec fn view(&self) -> MetadataView {
        match self {
            Metadata::Unknown => MetadataView::Unknown,
            Metadata::Unavailable => MetadataView::Unavailable,
            Metadata::Known(rs) => MetadataView::Known(requirement_views(rs@)),
        }
    }
}

/// The kind of what is known of a candidate's metadata.
#[derive(Debug, Clone, Copy, PartialEq, Eq, Structural)]
pub enum MetadataKind {
    Unknown,
    Unavailable,
    Known,
}

/// What is known of one package.
#[derive(Debug)]
pub struct PackageRecord {
    candidates: Option<Vec<Version>>,
    metadata: Vec<Metadata>,
}

impl View for PackageRecord {
    type V = PackageView;

    closed spec fn view(&self) -> PackageView {
        PackageView {
            candidates: match self.candidates {
                None => None,
                Some(vs) => Some(version_views(vs@)),
            },
            metadata: Seq::new(self.metadata.len() as nat, |k: int| self.metadata[k]@),
        }
    }
}

/// The views of a list of package records.
pub open spec fn package_views(ps: Seq<PackageRecord>) -> Seq<PackageView> {
    Seq::new(ps.len(), |i: int| ps[i]@)
}

/// What a run knows: the root requirements, and for each package of the
/// table what the metadata provider has answered.
#[derive(Debug)]
pub struct Knowledge {
    roots: Vec<Requirement>,
    packages: Vec<PackageRecord>,
    prereleases: bool,
}

impl View for Knowledge {
    type V = KnowledgeView;

    closed spec fn view(&self) -> KnowledgeView {
        KnowledgeView {
            roots: requirement_views(self.roots@),
            packages: package_views(self.packages@),
            prereleases: self.prereleases,
        }
    }
}

impl Knowledge {
    /// The well-formedness of what is known.
    pub open spec fn wf(&self) -> bool {
        self@.wf()
    }

    /// A table of `packages` packages of which nothing is known yet, with
    /// the root requirements given; `None` where a root names a package
    /// that is not in the table. Pre-releases will be candidates only if
    /// `prereleases` says so.
    pub fn new(packages: usize, roots: Vec<Requirement>, prereleases: bool) -> (r: Option<Knowledge>)
        ensures
            r is Some <==> forall|i: int| 0 <= i < roots.len() ==> (#[trigger] roots[i])@.package < packages,
            r matches Some(k) ==> {
                &&& k.wf()
                &&& k@.prereleases == prereleases
                &&& k@.roots == requirement_views(roots@)
                &&& k@.packages.len() == packages
                &&& forall|p: int|
                    0 <= p < packages ==> #[trigger] k@.packages[p] == (PackageView {
                        candidates: None,
                        metadata: Seq::empty(),
                    })
            },
    {
        let mut i: usize = 0;
        while i < roots.len()
            invariant
                i <= roots.len(),
                forall|j: int| 0 <= j < i ==> (#[trigger] roots[j])@.package < packages && roots[j].wf(),
            decreases roots.len() - i,
        {
            let root = &roots[i];
            if root.package() >= packages {
                return None;
            }
            proof {
                use_type_invariant(root);
            }
            i += 1;
        }
        let mut records: Vec<PackageRecord> = Vec::new();
        let mut p: usize = 0;
        while p < packages
            invariant
                p <= packages,
                records.len() == p,
                forall|q: int|
                    0 <= q < p ==> (#[trigger] records[q])@ == (PackageView {
                        candidates: None,
                        metadata: Seq::empty(),
                    }),
            decreases packages - p,
        {
            let record = PackageRecord { candidates: None, metadata: Vec::new() };
            assert(record@.metadata =~= Seq::empty());
            records.push(record);
            p += 1;
        }
        let k = Knowledge { roots, packages: records, prereleases };
        proof {
            assert forall|i: int| 0 <= i < k@.roots.len() implies 0 <= (#[trigger] k@.roots[i]).package < packages
                && k@.roots[i].package != -1 && k@.roots[i].versions.wf() by {
                assert(k@.roots[i] == roots[i]@);
            }
            assert forall|q: int| 0 <= q < k@.packages.len() implies k@.package_wf(q) by {
                assert(k@.packages[q] == k.packages[q]@);
            }
        }
        Some(k)
    }

    /// The number of packages in the table.
    pub fn package_count(&self) -> (r: usize)
        ensures
            r == self@.packages.len(),
    {
        self.packages.len()
    }

    /// The root requirements.
    pub fn roots(&self) -> (r: &Vec<Requirement>)
        ensures
            requirement_views(r@) == self@.roots,
    {
        &self.roots
    }

    /// The number of candidates of package `p`, once they were listed.
    pub fn candidate_count(&self, p: usize) -> (r: Option<usize>)
        requires
            p < self@.packages.len(),
        ensures
            match r {
                None => self@.packages[p as int].candidates is None,
                Some(n) => self@.packages[p as int].candidates is Some && self@.packages[p as int].candidates->0.len()
                    == n,
            },
    {
        match &self.packages[p].candidates {
            None => None,
            Some(vs) => Some(vs.len()),
        }
    }

    /// The candidate of number `c` of package `p`.
    pub fn candidate(&self, p: usize, c: usize) -> (r: &Version)
        requires
            p < self@.packages.len(),
            self@.packages[p as int].candidates is Some,
            c < self@.packages[p as int].candidates->0.len(),
        ensures
            r@ == self@.packages[p as int].candidates->0[c as int],
    {
        match &self.packages[p].candidates {
            Some(vs) => &vs[c],
            None => vstd::pervasive::unreached(),
        }
    }

    /// What kind of thing is known of the metadata of a candidate.
    pub fn metadata_kind(&self, p: usize, c: usize) -> (r: MetadataKind)
        requires
            p < self@.packages.len(),
            c < self@.packages[p as int].metadata.len(),
        ensures
            r == MetadataKind::Unknown <==> self@.packages[p as int].metadata[c as int] is Unknown,
            r == MetadataKind::Unavailable <==> self@.packages[p as int].metadata[c as int] is Unavailable,
            r == MetadataKind::Known <==> self@.packages[p as int].metadata[c as int] is Known,
    {
        match &self.packages[p].metadata[c] {
            Metadata::Unknown => MetadataKind::Unknown,
            Metadata::Unavailable => MetadataKind::Unavailable,
            Metadata::Known(_) => MetadataKind::Known,
        }
    }

    /// The number of requirements that a candidate declares; 0 where its
    /// metadata is not known.
    pub fn dependency_count(&self, p: usize, c: usize) -> (r: usize)
        requires
            p < self@.packages.len(),
            c < self@.packages[p as int].metadata.len(),
        ensures
            match self@.packages[p as int].metadata[c as int] {
                MetadataView::Known(rs) => r == rs.len(),
                _ => r == 0,
            },
    {
        match &self.packages[p].metadata[c] {
            Metadata::Known(rs) => rs.len(),
            _ => 0,
        }
    }

    /// The requirement of number `i` that a candidate declares.
    pub fn dependency(&self, p: usize, c: usize, i: usize) -> (r: &Requirement)
        requires
            p < self@.packages.len(),
            c < self@.packages[p as int].metadata.len(),
            self@.packages[p as int].metadata[c as int] is Known,
            i < self@.packages[p as int].metadata[c as int]->Known_0.len(),
        ensures
            r@ == self@.packages[p as int].metadata[c as int]->Known_0[i as int],
    {
        match &self.packages[p].metadata[c] {
            Metadata::Known(rs) => &rs[i],
            _ => vstd::pervasive::unreached(),
        }
    }

    /// Adds a package of which nothing is known yet, and gives its number.
    pub fn add_package(&mut self) -> (r: usize)
        requires
            old(self).wf(),
        ensures
            final(self).wf(),
            final(self)@.extends(old(self)@),
            r == old(self)@.packages.len(),
            final(self)@.roots == old(self)@.roots,
            final(self)@.prereleases == old(self)@.prereleases,
            final(self)@.packages == old(self)@.packages.push(
                PackageView { candidates: None, metadata: Seq::empty() },
            ),
    {
        let r = self.packages.len();
        let record = PackageRecord { candidates: None, metadata: Vec::new() };
        assert(record@.metadata =~= Seq::empty());
        self.packages.push(record);
        proof {
            let now = self@;
            let was = old(self)@;
            assert(now.packages =~= was.packages.push(PackageView { candidates: None, metadata: Seq::empty() }));
            assert forall|q: int| 0 <= q < now.packages.len() implies now.package_wf(q) by {
                if q < was.packages.len() {
                    assert(was.package_wf(q));
                    assert(now.packages[q] == was.packages[q]);
                }
            }
        }
        r
    }

    /// Records the candidates of package `p`: the versions given, without
    /// the pre-releases unless they are admitted, in rising order and one of
    /// each version. Nothing changes, and the answer is `false`, where `p`
    /// is not in the table or its candidates were listed before.
    pub fn list_candidates(&mut self, p: usize, versions: Vec<Version>) -> (r: bool)
        requires
            old(self).wf(),
        ensures
            final(self).wf(),
            final(self)@.extends(old(self)@),
            r == (p < old(self)@.packages.len() && old(self)@.packages[p as int].candidates is None),
            !r ==> final(self)@ == old(self)@,
            r ==> {
                &&& final(self)@.roots == old(self)@.roots
                &&& final(self)@.packages.len() == old(self)@.packages.len()
                &&& forall|q: int|
                    0 <= q < old(self)@.packages.len() && q != p ==> #[trigger] final(self)@.packages[q] == old(self)@.packages[q]
                &&& final(self)@.packages[p as int].candidates is Some
                &&& ascending(final(self)@.packages[p as int].candidates->0)
                &&& forall|i: int|
                    0 <= i < final(self)@.packages[p as int].candidates->0.len() ==> listed(
                        version_views(versions@),
                        #[trigger] final(self)@.packages[p as int].candidates->0[i],
                    ) && (old(self)@.prereleases || !version_is_prerelease(
                        final(self)@.packages[p as int].candidates->0[i],
                    ))
                &&& forall|j: int|
                    0 <= j < versions.len() && (old(self)@.prereleases || !version_is_prerelease(
                        #[trigger] versions[j]@,
                    )) ==> has_same(final(self)@.packages[p as int].candidates->0, versions[j]@)
                &&& forall|c: int|
                    0 <= c < final(self)@.packages[p as int].metadata.len() ==> #[trigger] final(self)@.packages[p as int].metadata[c] is Unknown
                &&& forall|i: int|
                    0 <= i < final(self)@.packages[p as int].candidates->0.len() ==> first_written(
                        admitted_of(version_views(versions@), old(self)@.prereleases),
                        #[trigger] final(self)@.packages[p as int].candidates->0[i],
                    )
            },
    {
        if p >= self.packages.len() {
            return false;
        }
        if self.packages[p].candidates.is_some() {
            return false;
        }
        let ghost given = version_views(versions@);
        let list = if self.prereleases {
            versions
        } else {
            without_prereleases(&versions)
        };
        let ghost held = version_views(list@);
        let ghost kept = list@;
        proof {
            lemma_all_admitted(given);
            assert(held == admitted_of(given, self.prereleases));
        }
        let sorted = sort_versions(list);
        let mut metadata: Vec<Metadata> = Vec::new();
        let mut c: usize = 0;
        while c < sorted.len()
            invariant
                c <= sorted.len(),
                metadata.len() == c,
                forall|k: int| 0 <= k < c ==> #[trigger] metadata[k] is Unknown,
            decreases sorted.len() - c,
        {
            metadata.push(Metadata::Unknown);
            c += 1;
        }
        let ghost cs = version_views(sorted@);
        self.packages[p] = PackageRecord { candidates: Some(sorted), metadata };
        proof {
            let now = self@;
            let was = old(self)@;
            assert(now.packages[p as int] == self.packages[p as int]@);
            assert(now.packages[p as int].candidates == Some(cs));
            assert forall|i: int| 0 <= i < cs.len() implies first_written(held, #[trigger] cs[i]) by {
                assert(cs[i] == sorted[i]@);
            }
            assert forall|i: int| 0 <= i < cs.len() implies listed(given, #[trigger] cs[i]) && (self.prereleases
                || !version_is_prerelease(cs[i])) by {
                assert(cs[i] == sorted[i]@);
                assert(listed(held, sorted[i]@));
                let w = choose|w: int| 0 <= w < held.len() && #[trigger] held[w] == cs[i];
                assert(held[w] == kept[w]@);
            }
            assert forall|j: int| 0 <= j < versions.len() && (self.prereleases || !version_is_prerelease(
                #[trigger] versions[j]@,
            )) implies has_same(cs, versions[j]@) by {
                assert(given[j] == versions[j]@);
                assert(listed(held, versions[j]@));
                let w = choose|w: int| 0 <= w < held.len() && #[trigger] held[w] == versions[j]@;
                assert(held[w] == kept[w]@);
                assert(has_same(cs, kept[w]@));
            }
            assert forall|q: int| 0 <= q < was.packages.len() && q != p implies #[trigger] now.packages[q]
                == was.packages[q] by {
                assert(self.packages[q] == old(self).packages[q]);
            }
            assert forall|q: int| 0 <= q < now.packages.len() implies now.package_wf(q) by {
                if q != p {
                    assert(was.package_wf(q));
                } else {
                    assert forall|j: int, k: int| 0 <= j < cs.len() && 0 <= k < cs.len() && j != k implies !version_same(
                        #[trigger] cs[j],
                        #[trigger] cs[k],
                    ) by {
                        if j < k {
                            assert(version_lt(cs[j], cs[k]));
                        } else {
                            assert(version_lt(cs[k], cs[j]));
                        }
                    }
                }
            }
            assert(was.packages[p as int] == old(self).packages[p as int]@);
        }
        true
    }

    /// Whether the requirements name packages of a table of `n` packages
    /// only, and none names `owner`.
    pub fn requirements_in_table(rs: &Vec<Requirement>, n: usize, owner: usize) -> (r: bool)
        ensures
            r == forall|i: int|
                0 <= i < rs.len() ==> (#[trigger] rs[i])@.package < n && rs[i]@.package != owner,
            r ==> requirements_wf(requirement_views(rs@), n as int, owner as int),
    {
        let mut i: usize = 0;
        while i < rs.len()
            invariant
                i <= rs.len(),
                forall|j: int|
                    0 <= j < i ==> (#[trigger] rs[j])@.package < n && rs[j]@.package != owner && rs[j].wf(),
            decreases rs.len() - i,
        {
            let one = &rs[i];
            if one.package() >= n || one.package() == owner {
                return false;
            }
            proof {
                use_type_invariant(one);
            }
            i += 1;
        }
        true
    }

    /// Records what the metadata provider answered for a candidate: the
    /// requirements it declares, or `None` where the metadata could not be
    /// had. Declared requirements that name a package outside the table, or
    /// the candidate's own package, are malformed: the candidate is then
    /// recorded as unavailable. Nothing changes, and the answer is `false`,
    /// where there is no such candidate or its metadata was recorded before.
    pub fn record_metadata(&mut self, p: usize, c: usize, declared: Option<Vec<Requirement>>) -> (r: bool)
        requires
            old(self).wf(),
        ensures
            final(self).wf(),
            final(self)@.extends(old(self)@),
            r == (p < old(self)@.packages.len() && c < old(self)@.packages[p as int].metadata.len() && old(self)@.packages[p as int].metadata[c as int] is Unknown),
            !r ==> final(self)@ == old(self)@,
            r ==> {
                &&& final(self)@.roots == old(self)@.roots
                &&& final(self)@.packages.len() == old(self)@.packages.len()
                &&& forall|q: int|
                    0 <= q < old(self)@.packages.len() && q != p ==> #[trigger] final(self)@.packages[q] == old(self)@.packages[q]
                &&& final(self)@.packages[p as int].candidates == old(self)@.packages[p as int].candidates
                &&& final(self)@.packages[p as int].metadata == old(self)@.packages[p as int].metadata.update(
                    c as int,
                    recorded(declared, old(self)@.packages.len() as int, p as int),
                )
            },
    {
        if p >= self.packages.len() {
            return false;
        }
        assert(old(self)@.packages[p as int] == old(self).packages[p as int]@);
        if c >= self.packages[p].metadata.len() {
            return false;
        }
        match &self.packages[p].metadata[c] {
            Metadata::Unknown => {},
            _ => {
                return false;
            },
        }
        let n = self.packages.len();
        let entry = match declared {
            None => Metadata::Unavailable,
            Some(rs) => {
                if Knowledge::requirements_in_table(&rs, n, p) {
                    Metadata::Known(rs)
                } else {
                    Metadata::Unavailable
                }
            },
        };
        assert(entry@ == recorded(declared, n as int, p as int));
        self.packages[p].metadata[c] = entry;
        proof {
            let now = self@;
            let was = old(self)@;
            assert(now.packages[p as int] == self.packages[p as int]@);
            assert(now.packages[p as int].metadata =~= was.packages[p as int].metadata.update(c as int, entry@));
            assert forall|q: int| 0 <= q < was.packages.len() && q != p implies #[trigger] now.packages[q]
                == was.packages[q] by {
                assert(self.packages[q] == old(self).packages[q]);
            }
            assert forall|q: int| 0 <= q < now.packages.len() implies now.package_wf(q) by {
                assert(was.package_wf(q));
            }
        }
        true
    }

    /// Records that the candidate of number `c` of package `p` has turned
    /// out to be unusable, whatever was known of its metadata. Nothing
    /// changes, and the answer is `false`, where there is no such
    /// candidate.
    pub fn bar_candidate(&mut self, p: usize, c: usize) -> (r: bool)
        requires
            old(self).wf(),
        ensures
            final(self).wf(),
            final(self)@.bars(old(self)@),
            r == (p < old(self)@.packages.len() && c < old(self)@.packages[p as int].metadata.len()),
            !r ==> final(self)@ == old(self)@,
            r ==> {
                &&& forall|q: int|
                    0 <= q < old(self)@.packages.len() && q != p ==> #[trigger] final(self)@.packages[q] == old(self)@.packages[q]
                &&& final(self)@.packages[p as int].metadata == old(self)@.packages[p as int].metadata.update(
                    c as int,
                    MetadataView::Unavailable,
                )
            },
    {
        if p >= self.packages.len() {
            return false;
        }
        assert(old(self)@.packages[p as int] == old(self).packages[p as int]@);
        if c >= self.packages[p].metadata.len() {
            return false;
        }
        self.packages[p].metadata[c] = Metadata::Unavailable;
        proof {
            let now = self@;
            let was = old(self)@;
            assert(now.packages[p as int] == self.packages[p as int]@);
            assert(now.packages[p as int].metadata =~= was.packages[p as int].metadata.update(
                c as int,
                MetadataView::Unavailable,
            ));
            assert forall|q: int| 0 <= q < was.packages.len() && q != p implies #[trigger] now.packages[q]
                == was.packages[q] by {
                assert(self.packages[q] == old(self).packages[q]);
            }
            assert forall|q: int| 0 <= q < now.packages.len() implies now.package_wf(q) by {
                assert(was.package_wf(q));
            }
            assert forall|q: int| #![trigger was.packages[q]] 0 <= q < was.packages.len() implies {
                &&& now.packages[q].candidates == was.packages[q].candidates
                &&& now.packages[q].metadata.len() == was.packages[q].metadata.len()
                &&& forall|k: int|
                    0 <= k < was.packages[q].metadata.len() ==> (#[trigger] now.packages[q].metadata[k])
                        == was.packages[q].metadata[k] || now.packages[q].metadata[k] is Unavailable
            } by {
                if q != p {
                    assert(now.packages[q] == was.packages[q]);
                }
            }
        }
        true
    }
}

/// What is recorded for a candidate whose metadata the provider answered
/// with `declared`, in a table of `n` packages, for a candidate of `owner`.
pub open spec fn recorded(declared: Option<Vec<Requirement>>, n: int, owner: int) -> MetadataView {
    match declared {
        None => MetadataView::Unavailable,
        Some(rs) => if forall|i: int|
            0 <= i < rs.len() ==> (#[trigger] rs[i])@.package < n && rs[i]@.package != owner {
            MetadataView::Known(requirement_views(rs@))
        } else {
            MetadataView::Unavailable
        },
    }
}

} // verus!
