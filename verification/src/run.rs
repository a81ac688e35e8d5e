//! A run of the resolver over what a provider holds in memory.
//!
//! The shelf lists, for each package name, the versions there are and the
//! metadata of each. A run takes the steps of the resolver and answers
//! from the shelf what the resolver asks for, until the resolver is done,
//! has found that there is no solution, or the steps allowed are used up.

use crate::incompatibility::Selection;
use crate::knowledge::{admitted_of, ascending, first_written, has_same, listed, version_views, KnowledgeView, MetadataView};
use crate::metadata::{metadata_view, wants, Metadata};
use crate::names::PackageName;
use crate::packages::PackageKeyView;
use crate::determined::{lemma_step_determined, same_state};
use crate::resolver::{
    begins_with, fetched_for, interned, made_from, numbered, only_learned, recorded_in, FetchedView, Resolver,
};
use crate::solver::{step_says, Action, Phase};
use crate::version::{is_version, lemma_one_version, one_version, version_is_prerelease, version_same, Version};
use vstd::prelude::*;

verus! {

/// The mathematical value of a release.
pub struct ReleaseView {
    pub version: Seq<char>,
    pub metadata: Option<crate::metadata::MetadataView>,
}

/// One version of a package on the shelf, with its metadata where that can
/// be had.
#[derive(Debug)]
pub struct Release {
    pub version: Version,
    pub metadata: Option<Metadata>,
}

impl View for Release {
    type V = ReleaseView;

    open spec fn view(&self) -> ReleaseView {
        ReleaseView { version: self.version@, metadata: metadata_view(self.metadata) }
    }
}

/// The mathematical value of an offer.
pub struct OfferView {
    pub name: Seq<char>,
    pub releases: Seq<ReleaseView>,
}

/// What the shelf holds of one package: its releases, in the order in
/// which the provider lists them.
#[derive(Debug)]
pub struct Offer {
    pub name: PackageName,
    pub releases: Vec<Release>,
}

/// The views of a list of releases.
pub open spec fn release_views(rs: Seq<Release>) -> Seq<ReleaseView> {
    Seq::new(rs.len(), |i: int| rs[i]@)
}

impl View for Offer {
    type V = OfferView;

    open spec fn view(&self) -> OfferView {
        OfferView { name: self.name@, releases: release_views(self.releases@) }
    }
}

/// The views of a shelf.
pub open spec fn offer_views(shelf: Seq<Offer>) -> Seq<OfferView> {
    Seq::new(shelf.len(), |i: int| shelf[i]@)
}

/// The releases of the first offer of this name; none where the shelf has
/// no offer of the name.
pub open spec fn offered(shelf: Seq<OfferView>, name: Seq<char>) -> Seq<ReleaseView>
    decreases shelf.len(),
{
    if shelf.len() == 0 {
        Seq::empty()
    } else if shelf.first().name == name {
        shelf.first().releases
    } else {
        offered(shelf.drop_first(), name)
    }
}

/// The versions of the releases, in their order.
pub open spec fn versions_of(releases: Seq<ReleaseView>) -> Seq<Seq<char>> {
    Seq::new(releases.len(), |i: int| releases[i].version)
}

/// The metadata of the first release of this version; none where there is
/// no such release or it has no metadata.
pub open spec fn metadata_at(releases: Seq<ReleaseView>, version: Seq<char>) -> Option<crate::metadata::MetadataView>
    decreases releases.len(),
{
    if releases.len() == 0 {
        None
    } else if one_version(releases.first().version, version) {
        releases.first().metadata
    } else {
        metadata_at(releases.drop_first(), version)
    }
}

/// Whether the candidates are what is kept of the versions: they rise, each
/// is one of the versions, none is a pre-release unless those are admitted,
/// each is written as the first of the versions that may be candidates and
/// are that version is, and each version that may be a candidate is among
/// them.
pub open spec fn kept_from(cs: Seq<Seq<char>>, versions: Seq<Seq<char>>, prereleases: bool) -> bool {
    &&& ascending(cs)
    &&& forall|i: int| 0 <= i < cs.len() ==> listed(versions, #[trigger] cs[i]) && (prereleases || !version_is_prerelease(cs[i]))
    &&& forall|i: int| 0 <= i < cs.len() ==> first_written(admitted_of(versions, prereleases), #[trigger] cs[i])
    &&& forall|j: int|
        0 <= j < versions.len() && (prereleases || !version_is_prerelease(#[trigger] versions[j])) ==> has_same(
            cs,
            versions[j],
        )
}

/// A version that may be a candidate, taken from a list, is one of the
/// versions of the list that may be candidates.
pub proof fn lemma_admitted_listed(given: Seq<Seq<char>>, prereleases: bool, j: int) -> (k: int)
    requires
        0 <= j < admitted_of(given, prereleases).len(),
    ensures
        0 <= k < given.len(),
        given[k] == admitted_of(given, prereleases)[j],
        prereleases || !version_is_prerelease(given[k]),
    decreases given.len(),
{
    let rest = admitted_of(given.drop_last(), prereleases);
    if j < rest.len() {
        lemma_admitted_listed(given.drop_last(), prereleases, j)
    } else {
        given.len() - 1
    }
}

/// Each candidate that is kept of a list of versions is among those that
/// are kept of it another time.
proof fn lemma_kept_in(a: Seq<Seq<char>>, b: Seq<Seq<char>>, versions: Seq<Seq<char>>, prereleases: bool, i: int) -> (k: int)
    requires
        kept_from(a, versions, prereleases),
        kept_from(b, versions, prereleases),
        0 <= i < a.len(),
    ensures
        0 <= k < b.len(),
        b[k] == a[i],
{
    let all = admitted_of(versions, prereleases);
    assert(first_written(all, a[i]));
    let j = choose|j: int| crate::knowledge::first_at(all, j, a[i]);
    let g = lemma_admitted_listed(versions, prereleases, j);
    assert(has_same(b, versions[g]));
    let k = choose|k: int| 0 <= k < b.len() && version_same(#[trigger] b[k], versions[g]);
    assert(first_written(all, b[k]));
    let h = choose|h: int| crate::knowledge::first_at(all, h, b[k]);
    if j < h {
        assert(version_same(all[j], b[k]));
    } else if h < j {
        assert(version_same(all[h], a[i]));
    }
    k
}

/// What is kept of a list of versions is determined by the list: two lists
/// of candidates that are both kept of it are one.
pub proof fn lemma_kept_determined(a: Seq<Seq<char>>, b: Seq<Seq<char>>, versions: Seq<Seq<char>>, prereleases: bool)
    requires
        kept_from(a, versions, prereleases),
        kept_from(b, versions, prereleases),
    ensures
        a == b,
{
    assert forall|i: int| 0 <= i < a.len() implies held_below(b, b.len() as int, #[trigger] a[i]) by {
        let k = lemma_kept_in(a, b, versions, prereleases, i);
    }
    assert forall|k: int| 0 <= k < b.len() implies held_below(a, a.len() as int, #[trigger] b[k]) by {
        let i = lemma_kept_in(b, a, versions, prereleases, k);
    }
    assert(strictly_rising(a) && strictly_rising(b));
    lemma_rising_same(a, b, a.len() as int, b.len() as int);
    assert(a.take(a.len() as int) =~= a);
    assert(b.take(b.len() as int) =~= b);
}

/// Whether each version of the list is strictly below the next.
pub open spec fn strictly_rising(a: Seq<Seq<char>>) -> bool {
    forall|j: int, k: int| 0 <= j < k < a.len() ==> crate::version::version_lt(#[trigger] a[j], #[trigger] a[k])
}

/// Whether the list holds `v` below place `n`.
pub open spec fn held_below(b: Seq<Seq<char>>, n: int, v: Seq<char>) -> bool {
    exists|k: int| 0 <= k < n && #[trigger] b[k] == v
}

/// Two rising lists of which each holds, below a place, the versions that
/// the other holds below its place, are one below those places.
proof fn lemma_rising_same(a: Seq<Seq<char>>, b: Seq<Seq<char>>, m: int, n: int)
    requires
        strictly_rising(a),
        strictly_rising(b),
        0 <= m <= a.len(),
        0 <= n <= b.len(),
        forall|i: int| 0 <= i < m ==> held_below(b, n, #[trigger] a[i]),
        forall|k: int| 0 <= k < n ==> held_below(a, m, #[trigger] b[k]),
    ensures
        m == n,
        a.take(m) == b.take(n),
    decreases m,
{
    if m == 0 {
        if n > 0 {
            assert(held_below(a, m, b[0]));
        }
        assert(a.take(0) =~= b.take(0));
    } else {
        assert(held_below(b, n, a[m - 1]));
        assert(n > 0);
        assert(held_below(a, m, b[n - 1]));
        let k = choose|k: int| 0 <= k < n && #[trigger] b[k] == a[m - 1];
        let i = choose|i: int| 0 <= i < m && #[trigger] a[i] == b[n - 1];
        // The last of each is the highest of each, so they are one.
        if k < n - 1 {
            assert(crate::version::version_lt(b[k], b[n - 1]));
        }
        if i < m - 1 {
            assert(crate::version::version_lt(a[i], a[m - 1]));
        }
        assert(k == n - 1 && i == m - 1);
        assert forall|x: int| 0 <= x < m - 1 implies held_below(b, n - 1, #[trigger] a[x]) by {
            assert(held_below(b, n, a[x]));
            let y = choose|y: int| 0 <= y < n && #[trigger] b[y] == a[x];
            assert(crate::version::version_lt(a[x], a[m - 1]));
            assert(y < n - 1);
        }
        assert forall|y: int| 0 <= y < n - 1 implies held_below(a, m - 1, #[trigger] b[y]) by {
            assert(held_below(a, m, b[y]));
            let x = choose|x: int| 0 <= x < m && #[trigger] a[x] == b[y];
            assert(crate::version::version_lt(b[y], b[n - 1]));
            assert(x < m - 1);
        }
        lemma_rising_same(a, b, m - 1, n - 1);
        assert(a.take(m) =~= a.take(m - 1).push(a[m - 1]));
        assert(b.take(n) =~= b.take(n - 1).push(b[n - 1]));
    }
}

/// Whether what is known of candidate `c` of package `p` is what the
/// metadata `answer` makes known: nothing to be had where there is none or
/// where it makes the package require itself; else the requirements that
/// it declares for the package, on numbered packages.
pub open spec fn answered(
    keys: Seq<PackageKeyView>,
    k: KnowledgeView,
    p: int,
    c: int,
    answer: Option<crate::metadata::MetadataView>,
) -> bool {
    match answer {
        None => k.packages[p].metadata[c] is Unavailable,
        Some(m) => {
            let ws = wants(keys[p], k.packages[p].candidates->0[c], m);
            if exists|i: int| 0 <= i < ws.len() && (#[trigger] ws[i]).key == keys[p] {
                k.packages[p].metadata[c] is Unavailable
            } else {
                k.packages[p].metadata[c] matches MetadataView::Known(rs) && numbered(keys, rs, ws)
            }
        },
    }
}

/// Whether package `p` had candidates in `was` already.
pub open spec fn listed_in(was: KnowledgeView, p: int) -> bool {
    0 <= p < was.packages.len() && was.packages[p].candidates is Some
}

/// Whether something was known of candidate `c` of package `p` in `was`
/// already.
pub open spec fn known_in(was: KnowledgeView, p: int, c: int) -> bool {
    listed_in(was, p) && 0 <= c < was.packages[p].metadata.len() && !(was.packages[p].metadata[c] is Unknown)
}

/// Whether the entry is what the shelf holds for its candidate.
pub open spec fn fetched_fits(shelf: Seq<OfferView>, keys: Seq<PackageKeyView>, k: KnowledgeView, f: FetchedView) -> bool {
    &&& 0 <= f.package < keys.len()
    &&& f.package < k.packages.len()
    &&& k.packages[f.package].candidates is Some
    &&& 0 <= f.candidate < k.packages[f.package].candidates->0.len()
    &&& metadata_at(offered(shelf, keys[f.package].name), k.packages[f.package].candidates->0[f.candidate]) == Some(
        f.metadata,
    )
}

/// Whether all that `after` knows beyond `before` is drawn from the
/// shelf: the candidates of each package that was listed since are what is
/// kept of the versions that the shelf has under the name of the package;
/// what is known since of a candidate is what the metadata that the shelf
/// has for its version makes known; and the metadata fetched since is that
/// of the shelf, and there is some for each candidate whose requirements
/// are known since.
pub open spec fn drawn_from(shelf: Seq<OfferView>, before: Resolver, after: Resolver) -> bool {
    let was = before.knowledge();
    let k = after.knowledge();
    let keys = after.keys();
    &&& keys.len() == k.packages.len()
    &&& forall|p: int|
        0 <= p < k.packages.len() && (#[trigger] k.packages[p]).candidates is Some && !listed_in(was, p) ==> kept_from(
            k.packages[p].candidates->0,
            versions_of(offered(shelf, keys[p].name)),
            k.prereleases,
        )
    &&& forall|p: int, c: int|
        0 <= p < k.packages.len() && k.packages[p].candidates is Some && 0 <= c < k.packages[p].metadata.len() && !(
        #[trigger] k.packages[p].metadata[c] is Unknown) && !known_in(was, p, c) ==> answered(
            keys,
            k,
            p,
            c,
            metadata_at(offered(shelf, keys[p].name), k.packages[p].candidates->0[c]),
        )
    &&& forall|p: int, c: int|
        0 <= p < k.packages.len() && k.packages[p].candidates is Some && 0 <= c < k.packages[p].metadata.len() && (
        #[trigger] k.packages[p].metadata[c] is Known) && !known_in(was, p, c) ==> fetched_for(after.fetched(), p, c)
            is Some
    &&& before.fetched().is_prefix_of(after.fetched())
    &&& forall|i: int|
        before.fetched().len() <= i < after.fetched().len() ==> fetched_fits(shelf, keys, k, #[trigger] after.fetched()[i])
}

/// How a run ended.
#[derive(Debug, Clone, Copy, PartialEq, Eq, Structural)]
pub enum Ending {
    /// The decisions solve the requirements.
    Done,
    /// The requirements have no solution.
    Failed,
    /// The steps allowed were used up before the resolver came to an end.
    OutOfSteps,
}

/// The place of the first offer of this name.
fn find_offer(shelf: &Vec<Offer>, name: &PackageName) -> (r: Option<usize>)
    ensures
        match r {
            Some(i) => i < shelf.len() && offered(offer_views(shelf@), name@) == release_views(shelf[i as int].releases@),
            None => offered(offer_views(shelf@), name@) == Seq::<ReleaseView>::empty(),
        },
{
    let ghost all = offer_views(shelf@);
    let mut i: usize = 0;
    assert(all.skip(0) =~= all);
    while i < shelf.len()
        invariant
            i <= shelf.len(),
            all == offer_views(shelf@),
            offered(all, name@) == offered(all.skip(i as int), name@),
        decreases shelf.len() - i,
    {
        assert(all.skip(i as int).first() == all[i as int]);
        if shelf[i].name.same(name) {
            return Some(i);
        }
        assert(all.skip(i as int).drop_first() =~= all.skip(i + 1));
        i += 1;
    }
    None
}

/// A copy of the metadata of the first release of this version.
fn find_metadata(releases: &Vec<Release>, version: &Version) -> (r: Option<Metadata>)
    ensures
        metadata_view(r) == metadata_at(release_views(releases@), version@),
{
    let ghost all = release_views(releases@);
    let mut i: usize = 0;
    assert(all.skip(0) =~= all);
    while i < releases.len()
        invariant
            i <= releases.len(),
            all == release_views(releases@),
            metadata_at(all, version@) == metadata_at(all.skip(i as int), version@),
        decreases releases.len() - i,
    {
        assert(all.skip(i as int).first() == all[i as int]);
        let theirs = &releases[i].version;
        proof {
            use_type_invariant(theirs);
            use_type_invariant(version);
        }
        if theirs.same(version) {
            return match &releases[i].metadata {
                Some(m) => Some(m.duplicate()),
                None => None,
            };
        }
        assert(all.skip(i as int).drop_first() =~= all.skip(i + 1));
        i += 1;
    }
    None
}

/// Copies of the versions of the releases, in their order.
fn copy_versions(releases: &Vec<Release>) -> (r: Vec<Version>)
    ensures
        version_views(r@) == versions_of(release_views(releases@)),
{
    let mut out: Vec<Version> = Vec::new();
    let mut i: usize = 0;
    while i < releases.len()
        invariant
            i <= releases.len(),
            out.len() == i,
            forall|k: int| 0 <= k < i ==> (#[trigger] out[k])@ == releases[k].version@,
        decreases releases.len() - i,
    {
        out.push(releases[i].version.duplicate());
        i += 1;
    }
    assert(version_views(out@) =~= versions_of(release_views(releases@)));
    out
}

/// The versions that the shelf has under this name.
pub fn versions_on(shelf: &Vec<Offer>, name: &PackageName) -> (r: Vec<Version>)
    ensures
        version_views(r@) == versions_of(offered(offer_views(shelf@), name@)),
{
    match find_offer(shelf, name) {
        Some(i) => copy_versions(&shelf[i].releases),
        None => {
            let r: Vec<Version> = Vec::new();
            assert(version_views(r@) =~= versions_of(Seq::<ReleaseView>::empty()));
            r
        },
    }
}

/// The metadata that the shelf has for this version of the package of this
/// name.
pub fn metadata_on(shelf: &Vec<Offer>, name: &PackageName, version: &Version) -> (r: Option<Metadata>)
    ensures
        metadata_view(r) == metadata_at(offered(offer_views(shelf@), name@), version@),
{
    match find_offer(shelf, name) {
        Some(i) => find_metadata(&shelf[i].releases, version),
        None => None,
    }
}

/// Whether two resolvers are in the same state: their solvers are, and
/// they have the same table, the same metadata fetched and the same
/// setback.
pub open spec fn same_run(x: Resolver, y: Resolver) -> bool {
    &&& same_state(x.engine(), y.engine())
    &&& x.keys() == y.keys()
    &&& x.fetched() == y.fetched()
    &&& x.setback() == y.setback()
}

/// What one step makes of the resolver: what the step of the solver says,
/// with the table, the metadata fetched and the setback as they were.
pub open spec fn stepped(before: Resolver, after: Resolver, act: Action) -> bool {
    &&& after.inv()
    &&& after.keys() == before.keys()
    &&& after.fetched() == before.fetched()
    &&& after.setback() == before.setback()
    &&& step_says(before.engine(), after.engine(), act)
}

/// What listing the candidates of package `p` from these versions makes of
/// the resolver: the package has as candidates what is kept of the
/// versions, with nothing known of their metadata, and nothing else
/// changes.
pub open spec fn listed_says(before: Resolver, after: Resolver, p: int, versions: Seq<Seq<char>>) -> bool {
    let was = before.knowledge();
    let now = after.knowledge();
    &&& after.inv()
    &&& after.keys() == before.keys()
    &&& after.fetched() == before.fetched()
    &&& after.setback() == before.setback()
    &&& only_learned(before.engine(), after.engine())
    &&& now.roots == was.roots
    &&& now.prereleases == was.prereleases
    &&& now.packages.len() == was.packages.len()
    &&& forall|q: int| 0 <= q < was.packages.len() && q != p ==> #[trigger] now.packages[q] == was.packages[q]
    &&& now.packages[p].candidates is Some
    &&& kept_from(now.packages[p].candidates->0, versions, was.prereleases)
    &&& now.packages[p].metadata.len() == now.packages[p].candidates->0.len()
    &&& forall|c: int| 0 <= c < now.packages[p].metadata.len() ==> #[trigger] now.packages[p].metadata[c] is Unknown
}

/// What recording this answer for the metadata of candidate `c` of package
/// `p` makes of the resolver: the packages that the metadata names are in
/// the table, what is known of the candidate is what the answer makes
/// known, the solver holds the incompatibilities that follow, the answer is
/// kept where there is one, and nothing else changes.
pub open spec fn answer_says(
    before: Resolver,
    after: Resolver,
    p: int,
    c: int,
    answer: Option<crate::metadata::MetadataView>,
) -> bool {
    let was = before.knowledge();
    let now = after.knowledge();
    &&& after.inv()
    &&& after.labelled()
    &&& after.setback() == before.setback()
    &&& after.keys() == match answer {
        Some(m) => interned(before.keys(), wants(before.keys()[p], was.packages[p].candidates->0[c], m)),
        None => before.keys(),
    }
    &&& after.fetched() == match answer {
        Some(m) => before.fetched().push(FetchedView { package: p, candidate: c, metadata: m }),
        None => before.fetched(),
    }
    &&& recorded_in(before.engine(), after.engine(), p, c)
    &&& now.roots == was.roots
    &&& now.prereleases == was.prereleases
    &&& now.packages.len() == after.keys().len()
    &&& now.packages.len() >= was.packages.len()
    &&& forall|q: int| 0 <= q < was.packages.len() && q != p ==> #[trigger] now.packages[q] == was.packages[q]
    &&& forall|q: int|
        was.packages.len() <= q < now.packages.len() ==> (#[trigger] now.packages[q]).candidates is None
            && now.packages[q].metadata.len() == 0
    &&& now.packages[p].candidates == was.packages[p].candidates
    &&& now.packages[p].metadata.len() == was.packages[p].metadata.len()
    &&& forall|d: int|
        0 <= d < was.packages[p].metadata.len() && d != c ==> #[trigger] now.packages[p].metadata[d]
            == was.packages[p].metadata[d]
    &&& answered(after.keys(), now, p, c, answer)
}

/// What follows a step in a turn of a run over the shelf: where the step
/// asks for the candidates of a package they are listed from the versions
/// that the shelf has under its name; where it asks for the metadata of a
/// candidate the answer is what the shelf has for its version; else
/// nothing. The turn ends the run where the step has.
pub open spec fn followed(shelf: Seq<OfferView>, mid: Resolver, act: Action, after: Resolver, r: Option<Ending>) -> bool {
    match act {
        Action::Done => after == mid && r == Some(Ending::Done),
        Action::Failed => after == mid && r == Some(Ending::Failed),
        Action::NeedCandidates { package } => r is None && listed_says(
            mid,
            after,
            package as int,
            versions_of(offered(shelf, mid.keys()[package as int].name)),
        ),
        Action::NeedMetadata { package, candidate } => r is None && answer_says(
            mid,
            after,
            package as int,
            candidate as int,
            metadata_at(
                offered(shelf, mid.keys()[package as int].name),
                mid.knowledge().packages[package as int].candidates->0[candidate as int],
            ),
        ),
        _ => after == mid && r is None,
    }
}

/// What one turn of a run over the shelf makes of the resolver: a step,
/// and what follows it.
pub open spec fn turn_says(shelf: Seq<OfferView>, before: Resolver, after: Resolver, r: Option<Ending>) -> bool {
    exists|mid: Resolver, act: Action| #[trigger] stepped(before, mid, act) && followed(shelf, mid, act, after, r)
}

/// How a run has ended that finds the solver in this phase when its turns
/// are used up.
pub open spec fn ending_of(phase: Phase) -> Ending {
    match phase {
        Phase::Satisfied => Ending::Done,
        Phase::Unsatisfiable => Ending::Failed,
        _ => Ending::OutOfSteps,
    }
}

/// What a run of at most `steps` turns over the shelf makes of the
/// resolver. With no turn left the resolver is as it was, and the run has
/// ended as the phase of the solver says. Else a turn is taken: where it
/// ends the run the resolver is as the turn has left it, and else the run
/// goes on from there with one turn less.
pub open spec fn ran(shelf: Seq<OfferView>, before: Resolver, after: Resolver, r: Ending, steps: nat) -> bool
    decreases steps,
{
    if steps == 0 {
        after == before && r == ending_of(before.phase())
    } else {
        exists|mid: Resolver, e: Option<Ending>| #[trigger]
            turn_says(shelf, before, mid, e) && if e == Some(Ending::Done) || e == Some(Ending::Failed) {
                after == mid && Some(r) == e
            } else {
                ran(shelf, mid, after, r, (steps - 1) as nat)
            }
    }
}

/// One turn of a run over the shelf: one step of the resolver and, where
/// the step asks for something, the answer from the shelf. The answer says
/// how the run has ended, where it has.
pub fn turn(resolver: &mut Resolver, shelf: &Vec<Offer>) -> (r: Option<Ending>)
    requires
        old(resolver).inv(),
    ensures
        final(resolver).inv(),
        begins_with(final(resolver).keys(), old(resolver).keys()),
        final(resolver).setback() == old(resolver).setback(),
        final(resolver).knowledge().roots == old(resolver).knowledge().roots,
        final(resolver).knowledge().prereleases == old(resolver).knowledge().prereleases,
        forall|start: Resolver| #[trigger]
            drawn_from(offer_views(shelf@), start, *old(resolver)) ==> drawn_from(
                offer_views(shelf@),
                start,
                *final(resolver),
            ),
        r == Some(Ending::Done) ==> final(resolver).phase() == Phase::Satisfied && final(resolver).knowledge().solved_by(
            final(resolver).selection(),
        ),
        r == Some(Ending::Failed) ==> final(resolver).phase() == Phase::Unsatisfiable && forall|sel: Selection|
            !final(resolver).knowledge().possible(sel),
        r != Some(Ending::OutOfSteps),
        turn_says(offer_views(shelf@), *old(resolver), *final(resolver), r),
{
    let ghost views = offer_views(shelf@);
    let action = resolver.step();
    let ghost mid = *resolver;
    proof {
        resolver.lemma_inv_says();
        assert(stepped(*old(resolver), mid, action));
    }
    match action {
        Action::Continue => None,
        Action::Decided { .. } => None,
        Action::NeedCandidates { package } => {
            let versions = versions_on(shelf, &resolver.key(package).name);
            let ghost given = version_views(versions@);
            resolver.provide_candidates(package, versions);
            proof {
                resolver.lemma_inv_says();
                resolver.engine().lemma_inv_known();
                assert(resolver.knowledge().package_wf(package as int));
                assert forall|start: Resolver| #[trigger]
                    drawn_from(views, start, *old(resolver)) implies drawn_from(views, start, *resolver) by {
                    lemma_listing_drawn(views, start, mid, *resolver, package as int, given);
                }
                assert(followed(views, mid, action, *resolver, None));
            }
            None
        },
        Action::NeedMetadata { package, candidate } => {
            let answer = metadata_on(
                shelf,
                &resolver.key(package).name,
                resolver.solver().known().candidate(package, candidate),
            );
            let ghost given = metadata_view(answer);
            resolver.provide_metadata(package, candidate, answer);
            proof {
                resolver.lemma_inv_says();
                resolver.engine().lemma_inv_known();
                assert forall|q: int|
                    mid.knowledge().packages.len() <= q < resolver.knowledge().packages.len() implies (
                #[trigger] resolver.knowledge().packages[q]).metadata.len() == 0 by {
                    assert(resolver.knowledge().package_wf(q));
                }
                assert forall|start: Resolver| #[trigger]
                    drawn_from(views, start, *old(resolver)) implies drawn_from(views, start, *resolver) by {
                    lemma_answer_drawn(views, start, mid, *resolver, package as int, candidate as int, given);
                }
                assert(followed(views, mid, action, *resolver, None));
            }
            None
        },
        Action::Done => Some(Ending::Done),
        Action::Failed => Some(Ending::Failed),
    }
}

/// Runs the resolver over the shelf: takes turns, at most `steps` of them,
/// each a step of the resolver with the answer from the shelf to what the
/// step asks for: the versions that the shelf has under the name of a
/// package, or the metadata that it has for a version. The run ends where
/// the resolver is done or has found that there is no solution. What the
/// resolver has come to know is drawn from the shelf; where it is done its
/// decisions solve what is known, and where it has failed nothing does.
pub fn run(resolver: &mut Resolver, shelf: &Vec<Offer>, steps: usize) -> (r: Ending)
    requires
        old(resolver).inv(),
    ensures
        final(resolver).inv(),
        begins_with(final(resolver).keys(), old(resolver).keys()),
        final(resolver).setback() == old(resolver).setback(),
        final(resolver).knowledge().roots == old(resolver).knowledge().roots,
        final(resolver).knowledge().prereleases == old(resolver).knowledge().prereleases,
        drawn_from(offer_views(shelf@), *old(resolver), *final(resolver)),
        r == Ending::Done <==> final(resolver).phase() == Phase::Satisfied,
        r == Ending::Failed <==> final(resolver).phase() == Phase::Unsatisfiable,
        r == Ending::Done ==> final(resolver).knowledge().solved_by(final(resolver).selection()),
        r == Ending::Failed ==> forall|sel: Selection| !final(resolver).knowledge().possible(sel),
        ran(offer_views(shelf@), *old(resolver), *final(resolver), r, steps as nat),
{
    let ghost views = offer_views(shelf@);
    let ghost start = *resolver;
    proof {
        resolver.lemma_inv_says();
    }
    let mut left = steps;
    while left > 0
        invariant
            resolver.inv(),
            views == offer_views(shelf@),
            start == *old(resolver),
            left <= steps,
            forall|end: Resolver, e: Ending| #[trigger]
                ran(views, *resolver, end, e, left as nat) ==> ran(views, start, end, e, steps as nat),
            begins_with(resolver.keys(), start.keys()),
            resolver.setback() == start.setback(),
            resolver.knowledge().roots == start.knowledge().roots,
            resolver.knowledge().prereleases == start.knowledge().prereleases,
            drawn_from(views, start, *resolver),
        decreases left,
    {
        let ghost prev = *resolver;
        let ghost had = left as nat;
        left = left - 1;
        let turned = turn(resolver, shelf);
        proof {
            assert(turn_says(views, prev, *resolver, turned));
            if turned == Some(Ending::Done) || turned == Some(Ending::Failed) {
                assert(ran(views, prev, *resolver, turned->0, had));
            } else {
                assert forall|end: Resolver, e: Ending| #[trigger]
                    ran(views, *resolver, end, e, left as nat) implies ran(views, start, end, e, steps as nat) by {
                    assert(ran(views, prev, end, e, had));
                }
            }
        }
        match turned {
            Some(ending) => {
                match ending {
                    Ending::Done => {
                        return Ending::Done;
                    },
                    Ending::Failed => {
                        return Ending::Failed;
                    },
                    Ending::OutOfSteps => {},
                }
            },
            None => {},
        }
    }
    proof {
        resolver.lemma_inv_says();
        assert(ran(views, *resolver, *resolver, ending_of(resolver.phase()), 0));
    }
    match resolver.solver().current_phase() {
        Phase::Satisfied => {
            proof {
                resolver.engine().lemma_satisfied_sound();
            }
            Ending::Done
        },
        Phase::Unsatisfiable => {
            proof {
                assert forall|sel: Selection| !resolver.knowledge().possible(sel) by {
                    resolver.engine().lemma_unsatisfiable_sound(sel);
                }
            }
            Ending::Failed
        },
        _ => Ending::OutOfSteps,
    }
}

/// What is known stays drawn from the shelf when the candidates of a
/// package are listed from the shelf.
proof fn lemma_listing_drawn(
    shelf: Seq<OfferView>,
    start: Resolver,
    mid: Resolver,
    now: Resolver,
    p: int,
    given: Seq<Seq<char>>,
)
    requires
        drawn_from(shelf, start, mid),
        now.keys() == mid.keys(),
        now.fetched() == mid.fetched(),
        0 <= p < mid.knowledge().packages.len(),
        mid.knowledge().packages[p].candidates is None,
        given == versions_of(offered(shelf, mid.keys()[p].name)),
        now.knowledge().prereleases == mid.knowledge().prereleases,
        now.knowledge().packages.len() == mid.knowledge().packages.len(),
        forall|q: int|
            0 <= q < mid.knowledge().packages.len() && q != p ==> #[trigger] now.knowledge().packages[q]
                == mid.knowledge().packages[q],
        now.knowledge().packages[p].candidates is Some,
        kept_from(now.knowledge().packages[p].candidates->0, given, mid.knowledge().prereleases),
        forall|c: int|
            0 <= c < now.knowledge().packages[p].metadata.len() ==> #[trigger] now.knowledge().packages[p].metadata[c]
                is Unknown,
    ensures
        drawn_from(shelf, start, now),
{
    let was = start.knowledge();
    let k = now.knowledge();
    let m = mid.knowledge();
    let keys = now.keys();
    assert forall|q: int|
        0 <= q < k.packages.len() && (#[trigger] k.packages[q]).candidates is Some && !listed_in(was, q) implies kept_from(
        k.packages[q].candidates->0,
        versions_of(offered(shelf, keys[q].name)),
        k.prereleases,
    ) by {
        if q != p {
            assert(k.packages[q] == m.packages[q]);
        }
    }
    assert forall|q: int, c: int|
        0 <= q < k.packages.len() && k.packages[q].candidates is Some && 0 <= c < k.packages[q].metadata.len() && !(
        #[trigger] k.packages[q].metadata[c] is Unknown) && !known_in(was, q, c) implies answered(
        keys,
        k,
        q,
        c,
        metadata_at(offered(shelf, keys[q].name), k.packages[q].candidates->0[c]),
    ) by {
        assert(q != p);
        assert(k.packages[q] == m.packages[q]);
        assert(!(m.packages[q].metadata[c] is Unknown));
    }
    assert forall|q: int, c: int|
        0 <= q < k.packages.len() && k.packages[q].candidates is Some && 0 <= c < k.packages[q].metadata.len() && (
        #[trigger] k.packages[q].metadata[c] is Known) && !known_in(was, q, c) implies fetched_for(now.fetched(), q, c)
        is Some by {
        assert(q != p);
        assert(k.packages[q] == m.packages[q]);
        assert(m.packages[q].metadata[c] is Known);
    }
    assert forall|i: int| start.fetched().len() <= i < now.fetched().len() implies fetched_fits(
        shelf,
        keys,
        k,
        #[trigger] now.fetched()[i],
    ) by {
        let f = mid.fetched()[i];
        assert(fetched_fits(shelf, keys, m, f));
        assert(f.package != p);
        assert(k.packages[f.package] == m.packages[f.package]);
    }
}

/// What is known stays drawn from the shelf when the metadata of a
/// candidate is answered from the shelf.
proof fn lemma_answer_drawn(
    shelf: Seq<OfferView>,
    start: Resolver,
    mid: Resolver,
    now: Resolver,
    p: int,
    c: int,
    given: Option<crate::metadata::MetadataView>,
)
    requires
        drawn_from(shelf, start, mid),
        begins_with(now.keys(), mid.keys()),
        now.keys().len() == now.knowledge().packages.len(),
        0 <= p < mid.knowledge().packages.len(),
        mid.knowledge().packages[p].candidates is Some,
        0 <= c < mid.knowledge().packages[p].candidates->0.len(),
        0 <= c < mid.knowledge().packages[p].metadata.len(),
        mid.knowledge().packages[p].metadata[c] is Unknown,
        given == metadata_at(offered(shelf, mid.keys()[p].name), mid.knowledge().packages[p].candidates->0[c]),
        now.knowledge().prereleases == mid.knowledge().prereleases,
        now.knowledge().packages.len() >= mid.knowledge().packages.len(),
        forall|q: int|
            0 <= q < mid.knowledge().packages.len() && q != p ==> #[trigger] now.knowledge().packages[q]
                == mid.knowledge().packages[q],
        forall|q: int|
            mid.knowledge().packages.len() <= q < now.knowledge().packages.len() ==> (
            #[trigger] now.knowledge().packages[q]).candidates is None,
        now.knowledge().packages[p].candidates == mid.knowledge().packages[p].candidates,
        now.knowledge().packages[p].metadata.len() == mid.knowledge().packages[p].metadata.len(),
        forall|d: int|
            0 <= d < mid.knowledge().packages[p].metadata.len() && d != c ==> #[trigger] now.knowledge().packages[p].metadata[d]
                == mid.knowledge().packages[p].metadata[d],
        answered(now.keys(), now.knowledge(), p, c, given),
        now.fetched() == match given {
            Some(m) => mid.fetched().push(FetchedView { package: p, candidate: c, metadata: m }),
            None => mid.fetched(),
        },
    ensures
        drawn_from(shelf, start, now),
{
    let was = start.knowledge();
    let k = now.knowledge();
    let m = mid.knowledge();
    let keys = now.keys();
    assert(keys[p] == mid.keys()[p]);
    assert(answered(keys, k, p, c, given));
    assert forall|q: int|
        0 <= q < k.packages.len() && (#[trigger] k.packages[q]).candidates is Some && !listed_in(was, q) implies kept_from(
        k.packages[q].candidates->0,
        versions_of(offered(shelf, keys[q].name)),
        k.prereleases,
    ) by {
        assert(q < m.packages.len());
        assert(keys[q] == mid.keys()[q]);
        if q != p {
            assert(k.packages[q] == m.packages[q]);
        }
        assert(m.packages[q].candidates is Some);
    }
    assert forall|q: int, d: int|
        0 <= q < k.packages.len() && k.packages[q].candidates is Some && 0 <= d < k.packages[q].metadata.len() && !(
        #[trigger] k.packages[q].metadata[d] is Unknown) && !known_in(was, q, d) implies answered(
        keys,
        k,
        q,
        d,
        metadata_at(offered(shelf, keys[q].name), k.packages[q].candidates->0[d]),
    ) by {
        assert(q < m.packages.len());
        assert(keys[q] == mid.keys()[q]);
        if q == p && d == c {
        } else {
            if q != p {
                assert(k.packages[q] == m.packages[q]);
            }
            assert(k.packages[q].metadata[d] == m.packages[q].metadata[d]);
            let answer = metadata_at(offered(shelf, keys[q].name), m.packages[q].candidates->0[d]);
            assert(answered(mid.keys(), m, q, d, answer));
            lemma_answered_stays(mid.keys(), keys, m, k, q, d, answer);
        }
    }
    assert forall|q: int, d: int|
        0 <= q < k.packages.len() && k.packages[q].candidates is Some && 0 <= d < k.packages[q].metadata.len() && (
        #[trigger] k.packages[q].metadata[d] is Known) && !known_in(was, q, d) implies fetched_for(now.fetched(), q, d)
        is Some by {
        assert(q < m.packages.len());
        if q == p && d == c {
            assert(given is Some);
            lemma_fetched_push(mid.fetched(), FetchedView { package: p, candidate: c, metadata: given->0 }, q, d);
        } else {
            if q != p {
                assert(k.packages[q] == m.packages[q]);
            }
            assert(k.packages[q].metadata[d] == m.packages[q].metadata[d]);
            assert(m.packages[q].metadata[d] is Known);
            if given is Some {
                lemma_fetched_push(mid.fetched(), FetchedView { package: p, candidate: c, metadata: given->0 }, q, d);
            }
        }
    }
    assert forall|i: int| start.fetched().len() <= i < now.fetched().len() implies fetched_fits(
        shelf,
        keys,
        k,
        #[trigger] now.fetched()[i],
    ) by {
        let f = now.fetched()[i];
        if i < mid.fetched().len() {
            assert(f == mid.fetched()[i]);
            assert(fetched_fits(shelf, mid.keys(), m, f));
            assert(keys[f.package] == mid.keys()[f.package]);
            if f.package != p {
                assert(k.packages[f.package] == m.packages[f.package]);
            }
        }
    }
}

/// One more entry takes no metadata away, and there is metadata for the
/// candidate of the entry.
pub proof fn lemma_fetched_push(fs: Seq<FetchedView>, f: FetchedView, p: int, c: int)
    ensures
        fetched_for(fs, p, c) is Some ==> fetched_for(fs.push(f), p, c) == fetched_for(fs, p, c),
        f.package == p && f.candidate == c ==> fetched_for(fs.push(f), p, c) is Some,
    decreases fs.len(),
{
    let more = fs.push(f);
    if fs.len() == 0 {
        assert(more.first() == f);
        assert(more.drop_first() =~= Seq::<FetchedView>::empty());
    } else {
        assert(more.first() == fs.first());
        assert(more.drop_first() =~= fs.drop_first().push(f));
        lemma_fetched_push(fs.drop_first(), f, p, c);
    }
}

/// The metadata that was fetched for a candidate is that of an entry for
/// the candidate.
pub proof fn lemma_fetched_entry(fs: Seq<FetchedView>, p: int, c: int) -> (i: int)
    requires
        fetched_for(fs, p, c) is Some,
    ensures
        0 <= i < fs.len(),
        fs[i].package == p,
        fs[i].candidate == c,
        fetched_for(fs, p, c) == Some(fs[i].metadata),
    decreases fs.len(),
{
    if fs.first().package == p && fs.first().candidate == c {
        0
    } else {
        let rest = fs.drop_first();
        let j = lemma_fetched_entry(rest, p, c);
        assert(rest[j] == fs[j + 1]);
        j + 1
    }
}

/// What is known of a candidate stays what the metadata makes known when
/// packages are added to the table.
proof fn lemma_answered_stays(
    keys: Seq<PackageKeyView>,
    more: Seq<PackageKeyView>,
    k: KnowledgeView,
    now: KnowledgeView,
    p: int,
    c: int,
    answer: Option<crate::metadata::MetadataView>,
)
    requires
        answered(keys, k, p, c, answer),
        begins_with(more, keys),
        0 <= p < keys.len(),
        now.packages[p].candidates == k.packages[p].candidates,
        now.packages[p].metadata[c] == k.packages[p].metadata[c],
    ensures
        answered(more, now, p, c, answer),
{
    assert(more[p] == keys[p]);
    match answer {
        None => {},
        Some(m) => {
            let ws = wants(keys[p], k.packages[p].candidates->0[c], m);
            if exists|i: int| 0 <= i < ws.len() && (#[trigger] ws[i]).key == keys[p] {
            } else {
                let rs = k.packages[p].metadata[c]->Known_0;
                assert(numbered(keys, rs, ws));
                assert forall|i: int| 0 <= i < rs.len() implies {
                    &&& 0 <= (#[trigger] rs[i]).package < more.len()
                    &&& more[rs[i].package] == ws[i].key
                    &&& rs[i].versions == ws[i].versions
                    &&& rs[i].tag == ws[i].tag
                } by {
                    assert(more[rs[i].package] == keys[rs[i].package]);
                }
            }
        },
    }
}

/// Whether nothing is known yet and nothing was fetched.
pub open spec fn fresh(r: Resolver) -> bool {
    &&& r.fetched().len() == 0
    &&& forall|p: int| 0 <= p < r.knowledge().packages.len() ==> (#[trigger] r.knowledge().packages[p]).candidates is None
}

/// Whether the selection meets the want: the package that it names is
/// decided, at a version of the set that it names.
pub open spec fn met_in(keys: Seq<PackageKeyView>, sel: Selection, w: crate::metadata::WantView) -> bool {
    exists|q: int| 0 <= q < keys.len() && #[trigger] keys[q] == w.key && sel.dom().contains(q) && w.versions.contains(sel[q])
}

/// The versions that are the same as `v` are those of the set of `v` alone.
pub proof fn lemma_only(v: Seq<char>, x: Seq<char>)
    requires
        is_version(v),
        is_version(x),
    ensures
        crate::metadata::only(v).contains(x) <==> version_same(v, x),
{
    let up = crate::version_set::VersionSet::higher_than_view(v);
    let down = crate::version_set::VersionSet::lower_than_view(v);
    crate::version_set::lemma_intersection(up, down);
    assert(up.contains(x) == crate::version::version_le(v, x)) by {
        reveal_with_fuel(crate::version_set::cuts_contain, 3);
    }
    assert(down.contains(x) == crate::version::version_le(x, v)) by {
        reveal_with_fuel(crate::version_set::cuts_contain, 3);
    }
}

/// What the shelf has for a version does not depend on how the version is
/// written.
pub proof fn lemma_metadata_at(releases: Seq<ReleaseView>, a: Seq<char>, b: Seq<char>)
    requires
        one_version(a, b),
    ensures
        metadata_at(releases, a) == metadata_at(releases, b),
    decreases releases.len(),
{
    if releases.len() > 0 {
        lemma_one_version(releases.first().version, a, b);
        lemma_one_version(releases.first().version, b, a);
        lemma_one_version(a, b, a);
        lemma_metadata_at(releases.drop_first(), a, b);
    }
}

/// Soundness of a run. In a resolver that was fresh, has come to know what
/// it knows from the shelf and is done, the shelf has metadata for the
/// version of each decided package, and each requirement that this
/// metadata makes the package have is met: the package that it names is
/// decided, at a version of the set that it names.
pub proof fn lemma_run_sound(shelf: Seq<OfferView>, start: Resolver, end: Resolver, p: int)
    requires
        end.inv(),
        fresh(start),
        drawn_from(shelf, start, end),
        end.phase() == Phase::Satisfied,
        0 <= p < end.decisions().len(),
        end.decisions()[p] is Some,
    ensures
        0 <= p < end.keys().len(),
        end.selection().dom().contains(p),
        ({
            let answer = metadata_at(offered(shelf, end.keys()[p].name), end.selection()[p]);
            &&& answer is Some
            &&& forall|i: int|
                0 <= i < wants(end.keys()[p], end.selection()[p], answer->0).len() ==> met_in(
                    end.keys(),
                    end.selection(),
                    #[trigger] wants(end.keys()[p], end.selection()[p], answer->0)[i],
                )
        }),
{
    end.lemma_inv_says();
    end.engine().lemma_inv_known();
    end.engine().lemma_selection_is();
    let k = end.knowledge();
    let keys = end.keys();
    let sel = end.selection();
    let c = end.decisions()[p]->0 as int;
    assert(crate::solver::candidate_known(k, p, c));
    assert(k.package_wf(p));
    assert(k.packages[p].metadata[c] is Known);
    assert(!known_in(start.knowledge(), p, c));
    let answer = metadata_at(offered(shelf, keys[p].name), k.packages[p].candidates->0[c]);
    assert(answered(keys, k, p, c, answer));
    let ws = wants(keys[p], sel[p], answer->0);
    let rs = k.packages[p].metadata[c]->Known_0;
    assert(numbered(keys, rs, ws));
    assert forall|i: int| 0 <= i < ws.len() implies met_in(keys, sel, #[trigger] ws[i]) by {
        end.engine().lemma_requirements_met(p, i);
        assert(keys[rs[i].package] == ws[i].key);
    }
}

/// The identity law of a run. In a resolver that was fresh, has come to
/// know what it knows from the shelf and is done, a package taken plainly
/// and the same package taken with an extra or a group, both decided, are
/// two packages at one version, and the metadata that was fetched for the
/// one is that which was fetched for the other: the metadata that the shelf
/// has for that version.
pub proof fn lemma_run_identity(shelf: Seq<OfferView>, start: Resolver, end: Resolver, p: int, q: int)
    requires
        end.inv(),
        fresh(start),
        drawn_from(shelf, start, end),
        end.phase() == Phase::Satisfied,
        0 <= p < end.decisions().len(),
        0 <= q < end.decisions().len(),
        end.decisions()[p] is Some,
        end.decisions()[q] is Some,
        end.keys()[q].base() == end.keys()[p],
        end.keys()[q] != end.keys()[p],
    ensures
        p != q,
        version_same(end.selection()[p], end.selection()[q]),
        fetched_for(end.fetched(), p, end.decisions()[p]->0 as int) is Some,
        fetched_for(end.fetched(), p, end.decisions()[p]->0 as int) == fetched_for(
            end.fetched(),
            q,
            end.decisions()[q]->0 as int,
        ),
        fetched_for(end.fetched(), p, end.decisions()[p]->0 as int) == metadata_at(
            offered(shelf, end.keys()[p].name),
            end.selection()[p],
        ),
{
    end.lemma_inv_says();
    end.engine().lemma_inv_known();
    end.engine().lemma_selection_is();
    let k = end.knowledge();
    let keys = end.keys();
    let sel = end.selection();
    let cp = end.decisions()[p]->0 as int;
    let cq = end.decisions()[q]->0 as int;
    assert(crate::solver::candidate_known(k, p, cp));
    assert(crate::solver::candidate_known(k, q, cq));
    assert(k.package_wf(p));
    assert(k.package_wf(q));
    let vp = k.packages[p].candidates->0[cp];
    let vq = k.packages[q].candidates->0[cq];
    assert(is_version(vp) && is_version(vq));
    assert(!known_in(start.knowledge(), p, cp));
    assert(!known_in(start.knowledge(), q, cq));
    // The package taken with an extra or a group requires the plain one at its own version.
    let answer = metadata_at(offered(shelf, keys[q].name), vq);
    assert(answered(keys, k, q, cq, answer));
    let ws = wants(keys[q], vq, answer->0);
    let rs = k.packages[q].metadata[cq]->Known_0;
    assert(numbered(keys, rs, ws));
    assert(ws[0].key == keys[q].base() && ws[0].versions == crate::metadata::only(vq));
    end.engine().lemma_requirements_met(q, 0);
    assert(rs[0].package == p) by {
        assert(keys[rs[0].package] == keys[p]);
    }
    lemma_only(vq, vp);
    // What was fetched for each is what the shelf has for its version.
    let fs = end.fetched();
    assert(k.packages[p].metadata[cp] is Known && k.packages[q].metadata[cq] is Known);
    let i = lemma_fetched_entry(fs, p, cp);
    let j = lemma_fetched_entry(fs, q, cq);
    assert(fetched_fits(shelf, keys, k, fs[i]));
    assert(fetched_fits(shelf, keys, k, fs[j]));
    lemma_metadata_at(offered(shelf, keys[p].name), vp, vq);
}

/// The requirements that wants become by numbering are determined by the
/// table and the wants.
proof fn lemma_numbered_determined(
    keys: Seq<PackageKeyView>,
    a: Seq<crate::knowledge::RequirementView>,
    b: Seq<crate::knowledge::RequirementView>,
    ws: Seq<crate::metadata::WantView>,
)
    requires
        crate::packages::keys_distinct(keys),
        numbered(keys, a, ws),
        numbered(keys, b, ws),
    ensures
        a == b,
{
    assert forall|i: int| 0 <= i < a.len() implies a[i] == b[i] by {
        let x = a[i].package;
        let y = b[i].package;
        assert(keys[x] == ws[i].key && keys[y] == ws[i].key);
        if x < y {
            assert(keys[x] != keys[y]);
        } else if y < x {
            assert(keys[y] != keys[x]);
        }
    }
    assert(a =~= b);
}

/// Listing the candidates of a package is determined.
proof fn lemma_listing_determined(m: Resolver, a: Resolver, w: Resolver, b: Resolver, p: int, versions: Seq<Seq<char>>)
    requires
        same_run(m, w),
        0 <= p < m.knowledge().packages.len(),
        listed_says(m, a, p, versions),
        listed_says(w, b, p, versions),
    ensures
        same_run(a, b),
{
    let x = a.knowledge();
    let y = b.knowledge();
    lemma_kept_determined(x.packages[p].candidates->0, y.packages[p].candidates->0, versions, m.knowledge().prereleases);
    assert(x.packages[p].metadata =~= y.packages[p].metadata);
    assert(x.packages[p] == y.packages[p]);
    assert forall|q: int| 0 <= q < x.packages.len() implies x.packages[q] == y.packages[q] by {
        if q != p {
            assert(x.packages[q] == m.knowledge().packages[q]);
            assert(y.packages[q] == w.knowledge().packages[q]);
        }
    }
    assert(x.packages =~= y.packages);
    assert(x == y);
}

/// Recording an answer for the metadata of a candidate is determined.
proof fn lemma_answer_determined(
    m: Resolver,
    a: Resolver,
    w: Resolver,
    b: Resolver,
    p: int,
    c: int,
    answer: Option<crate::metadata::MetadataView>,
)
    requires
        same_run(m, w),
        0 <= p < m.knowledge().packages.len(),
        0 <= c < m.knowledge().packages[p].metadata.len(),
        answer_says(m, a, p, c, answer),
        answer_says(w, b, p, c, answer),
    ensures
        same_run(a, b),
{
    let was = m.knowledge();
    let x = a.knowledge();
    let y = b.knowledge();
    let keys = a.keys();
    a.lemma_inv_says();
    b.lemma_inv_says();
    assert(b.keys() == keys);
    assert(x.packages.len() == y.packages.len());
    assert(x.packages[p].metadata[c] == y.packages[p].metadata[c]) by {
        assert(answered(keys, x, p, c, answer));
        assert(answered(keys, y, p, c, answer));
        match answer {
            None => {},
            Some(meta) => {
                let ws = wants(keys[p], x.packages[p].candidates->0[c], meta);
                if exists|i: int| 0 <= i < ws.len() && (#[trigger] ws[i]).key == keys[p] {
                } else {
                    lemma_numbered_determined(
                        keys,
                        x.packages[p].metadata[c]->Known_0,
                        y.packages[p].metadata[c]->Known_0,
                        ws,
                    );
                }
            },
        }
    }
    assert(x.packages[p].metadata =~= y.packages[p].metadata) by {
        assert forall|d: int| 0 <= d < x.packages[p].metadata.len() implies x.packages[p].metadata[d]
            == y.packages[p].metadata[d] by {
            if d != c {
                assert(x.packages[p].metadata[d] == was.packages[p].metadata[d]);
                assert(y.packages[p].metadata[d] == w.knowledge().packages[p].metadata[d]);
            }
        }
    }
    assert forall|q: int| 0 <= q < x.packages.len() implies x.packages[q] == y.packages[q] by {
        if q >= was.packages.len() {
            assert(x.packages[q].metadata =~= y.packages[q].metadata);
        } else if q != p {
            assert(x.packages[q] == was.packages[q]);
            assert(y.packages[q] == w.knowledge().packages[q]);
        }
    }
    assert(x.packages =~= y.packages);
    assert(x == y);
    assert(a.engine().labels() =~= b.engine().labels());
}

/// Determinism of a turn. What one turn of a run over a shelf makes of the
/// resolver, and whether it ends the run, is determined by the state that
/// the turn is taken in and by the shelf: two outcomes that the contract of
/// the turn admits are one.
pub proof fn lemma_turn_determined(
    shelf: Seq<OfferView>,
    before: Resolver,
    a: Resolver,
    r: Option<Ending>,
    b: Resolver,
    s: Option<Ending>,
)
    requires
        before.inv(),
        turn_says(shelf, before, a, r),
        turn_says(shelf, before, b, s),
    ensures
        r == s,
        same_run(a, b),
{
    before.lemma_inv_says();
    let (m, act) = choose|m: Resolver, act: Action| #[trigger] stepped(before, m, act) && followed(shelf, m, act, a, r);
    let (w, other) = choose|w: Resolver, other: Action| #[trigger]
        stepped(before, w, other) && followed(shelf, w, other, b, s);
    lemma_step_determined(before.engine(), m.engine(), act, w.engine(), other);
    assert(same_run(m, w));
    assert(crate::solver::action_fits(m.engine().knowledge(), m.engine().phase(), act));
    match act {
        Action::NeedCandidates { package } => {
            lemma_listing_determined(
                m,
                a,
                w,
                b,
                package as int,
                versions_of(offered(shelf, m.keys()[package as int].name)),
            );
        },
        Action::NeedMetadata { package, candidate } => {
            lemma_answer_determined(
                m,
                a,
                w,
                b,
                package as int,
                candidate as int,
                metadata_at(
                    offered(shelf, m.keys()[package as int].name),
                    m.knowledge().packages[package as int].candidates->0[candidate as int],
                ),
            );
        },
        _ => {},
    }
}

/// What a turn says of a resolver it says of every resolver in the same
/// state.
pub proof fn lemma_turn_of_same(shelf: Seq<OfferView>, x: Resolver, y: Resolver, a: Resolver, r: Option<Ending>)
    requires
        same_run(x, y),
        turn_says(shelf, x, a, r),
    ensures
        turn_says(shelf, y, a, r),
{
    let (m, act) = choose|m: Resolver, act: Action| #[trigger] stepped(x, m, act) && followed(shelf, m, act, a, r);
    crate::determined::lemma_step_of_same(x.engine(), y.engine(), m.engine(), act);
    assert(stepped(y, m, act));
}

/// A turn leaves the resolver with its invariant.
pub proof fn lemma_turn_keeps(shelf: Seq<OfferView>, x: Resolver, a: Resolver, r: Option<Ending>)
    requires
        turn_says(shelf, x, a, r),
    ensures
        a.inv(),
{
    let (m, act) = choose|m: Resolver, act: Action| #[trigger] stepped(x, m, act) && followed(shelf, m, act, a, r);
}

/// Determinism of a run. Two runs of as many turns over one shelf, from
/// resolvers in the same state, end in the same way and leave the resolvers
/// in the same state: with the same table of packages, the same knowledge,
/// the same decisions and the same metadata fetched.
pub proof fn lemma_run_determined(
    shelf: Seq<OfferView>,
    x: Resolver,
    y: Resolver,
    a: Resolver,
    r: Ending,
    b: Resolver,
    s: Ending,
    steps: nat,
)
    requires
        x.inv(),
        y.inv(),
        same_run(x, y),
        ran(shelf, x, a, r, steps),
        ran(shelf, y, b, s, steps),
    ensures
        r == s,
        same_run(a, b),
    decreases steps,
{
    if steps > 0 {
        let (m, e) = choose|m: Resolver, e: Option<Ending>| #[trigger]
            turn_says(shelf, x, m, e) && if e == Some(Ending::Done) || e == Some(Ending::Failed) {
                a == m && Some(r) == e
            } else {
                ran(shelf, m, a, r, (steps - 1) as nat)
            };
        let (w, f) = choose|w: Resolver, f: Option<Ending>| #[trigger]
            turn_says(shelf, y, w, f) && if f == Some(Ending::Done) || f == Some(Ending::Failed) {
                b == w && Some(s) == f
            } else {
                ran(shelf, w, b, s, (steps - 1) as nat)
            };
        lemma_turn_of_same(shelf, y, x, w, f);
        lemma_turn_determined(shelf, x, m, e, w, f);
        if !(e == Some(Ending::Done) || e == Some(Ending::Failed)) {
            lemma_turn_keeps(shelf, x, m, e);
            lemma_turn_keeps(shelf, y, w, f);
            lemma_run_determined(shelf, m, w, a, r, b, s, (steps - 1) as nat);
        }
    }
}

/// Idempotence of a run. A run from a resolver that is done ends at once
/// as done, and a run from one that has failed as failed, and either leaves
/// the resolver in the state that it found it in: resolving again what was
/// resolved gives what it gave.
pub proof fn lemma_run_again(shelf: Seq<OfferView>, x: Resolver, a: Resolver, r: Ending, steps: nat)
    requires
        x.inv(),
        x.phase() == Phase::Satisfied || x.phase() == Phase::Unsatisfiable,
        ran(shelf, x, a, r, steps),
    ensures
        r == ending_of(x.phase()),
        same_run(x, a),
{
    if steps > 0 {
        let (m, e) = choose|m: Resolver, e: Option<Ending>| #[trigger]
            turn_says(shelf, x, m, e) && if e == Some(Ending::Done) || e == Some(Ending::Failed) {
                a == m && Some(r) == e
            } else {
                ran(shelf, m, a, r, (steps - 1) as nat)
            };
        let (w, act) = choose|w: Resolver, act: Action| #[trigger] stepped(x, w, act) && followed(shelf, w, act, m, e);
        assert(crate::solver::action_fits(w.engine().knowledge(), w.engine().phase(), act));
        assert(crate::solver::may_follow(x.engine().phase(), w.engine().phase()));
    }
}

/// Two resolvers that are made for the same root requirements are in the
/// same state.
pub proof fn lemma_made_same(x: Resolver, y: Resolver, roots: Seq<crate::metadata::DeclaredView>, prereleases: bool)
    requires
        made_from(x, roots, prereleases),
        made_from(y, roots, prereleases),
    ensures
        same_run(x, y),
        fresh(x),
{
    let ws = crate::metadata::wants_of_all(roots, crate::metadata::TagView::Plain);
    x.lemma_inv_says();
    y.lemma_inv_says();
    x.engine().lemma_inv_known();
    y.engine().lemma_inv_known();
    let k = x.knowledge();
    let h = y.knowledge();
    lemma_numbered_determined(x.keys(), k.roots, h.roots, ws);
    assert forall|p: int| 0 <= p < k.packages.len() implies k.packages[p] == h.packages[p] by {
        assert(k.package_wf(p));
        assert(h.package_wf(p));
        assert(k.packages[p].metadata =~= h.packages[p].metadata);
    }
    assert(k.packages =~= h.packages);
    assert(k == h);
    assert(x.engine().labels() =~= y.engine().labels());
}

/// Determinism of a resolution. Two resolvers made for the same root
/// requirements, each run for as many turns over the same shelf, end in the
/// same way and in the same state: with the same packages, the same
/// versions decided for them and the same metadata fetched.
pub proof fn lemma_resolution_determined(
    shelf: Seq<OfferView>,
    roots: Seq<crate::metadata::DeclaredView>,
    prereleases: bool,
    x: Resolver,
    y: Resolver,
    a: Resolver,
    r: Ending,
    b: Resolver,
    s: Ending,
    steps: nat,
)
    requires
        made_from(x, roots, prereleases),
        made_from(y, roots, prereleases),
        ran(shelf, x, a, r, steps),
        ran(shelf, y, b, s, steps),
    ensures
        r == s,
        same_run(a, b),
        a.selection() == b.selection(),
{
    lemma_made_same(x, y, roots, prereleases);
    lemma_run_determined(shelf, x, y, a, r, b, s, steps);
    a.engine().lemma_selection_is();
    b.engine().lemma_selection_is();
}

/// What is planned is determined by the state: resolvers in the same state
/// have the same decided packages, each with the same version and the same
/// metadata, and the same links between them.
pub proof fn lemma_plan_determined(x: Resolver, y: Resolver)
    requires
        same_run(x, y),
    ensures
        crate::resolver::choices_of(x) == crate::resolver::choices_of(y),
        crate::resolver::planned_links(x.knowledge(), x.decisions(), x.keys().len() as int)
            == crate::resolver::planned_links(y.knowledge(), y.decisions(), y.keys().len() as int),
{
    x.engine().lemma_selection_is();
    y.engine().lemma_selection_is();
    assert(crate::resolver::choices_of(x) =~= crate::resolver::choices_of(y));
}

} // verus!
