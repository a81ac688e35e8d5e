//! The distribution selector: from a package and a version to the one
//! artifact to install.
//!
//! A source that the requirement names itself (an address, a repository, a
//! path) always wins. Otherwise the indexes are searched in their order of
//! priority; the first index that has any artifact to offer is taken, and in
//! it a compatible wheel goes before a source distribution.

use crate::dist::{
    BuiltDist, Dist, DistKind, IndexUrl, RegistryBuiltDist, RegistrySourceDist, RegistryWheel, ResolvedDist,
    SourceDist, UrlDist, VersionOrUrlView,
};
use crate::hash::{
    digest_views, duplicate_digests, has_algorithm, has_digest, holds_algorithm, holds_digest, HashAlgorithm,
    HashDigest, HashDigestView,
};
use crate::names::PackageName;
use crate::version::Version;
use vstd::prelude::*;

verus! {

/// Whether an artifact is built or is source.
#[derive(Debug, Clone, Copy, PartialEq, Eq, Structural)]
pub enum ArtifactKind {
    Built,
    Source,
}

/// The mathematical value of an artifact.
pub struct ArtifactView {
    pub kind: ArtifactKind,
    pub filename: Seq<char>,
    pub priority: Option<u64>,
    pub hashes: Seq<HashDigestView>,
}

/// An artifact as an index describes it. The priority says how well a built
/// artifact fits the platform and the interpreter, a higher one better;
/// none where it does not fit at all. It means nothing for source.
#[derive(Debug)]
pub struct Artifact {
    pub kind: ArtifactKind,
    pub filename: String,
    pub priority: Option<u64>,
    pub hashes: Vec<HashDigest>,
}

impl View for Artifact {
    type V = ArtifactView;

    open spec fn view(&self) -> ArtifactView {
        ArtifactView {
            kind: self.kind,
            filename: self.filename@,
            priority: self.priority,
            hashes: digest_views(self.hashes@),
        }
    }
}

/// The views of a list of artifacts.
pub open spec fn artifact_views(arts: Seq<Artifact>) -> Seq<ArtifactView> {
    Seq::new(arts.len(), |i: int| arts[i]@)
}

/// What one index has of a package version.
#[derive(Debug)]
pub struct IndexListing {
    pub index: IndexUrl,
    pub artifacts: Vec<Artifact>,
}

/// A source that a requirement names itself.
#[derive(Debug)]
pub enum Pinned {
    /// A file behind a URL; a wheel if `built`.
    DirectUrl { url: String, built: bool },
    /// A repository.
    Git { url: String },
    /// A file on disk; a wheel if `built`.
    Path { url: String, built: bool },
    /// A directory on disk.
    Directory { url: String },
}

impl Pinned {
    /// The kind of distribution that the source stands for.
    pub open spec fn kind(&self) -> DistKind {
        match self {
            Pinned::DirectUrl { built, .. } => if *built {
                DistKind::BuiltDirectUrl
            } else {
                DistKind::SourceDirectUrl
            },
            Pinned::Git { .. } => DistKind::SourceGit,
            Pinned::Path { built, .. } => if *built {
                DistKind::BuiltPath
            } else {
                DistKind::SourcePath
            },
            Pinned::Directory { .. } => DistKind::SourceDirectory,
        }
    }

    /// The address of the source.
    pub open spec fn url(&self) -> Seq<char> {
        match self {
            Pinned::DirectUrl { url, .. } => url@,
            Pinned::Git { url } => url@,
            Pinned::Path { url, .. } => url@,
            Pinned::Directory { url } => url@,
        }
    }
}

/// Whether hashes are verified, and under which algorithm.
#[derive(Debug, Clone, Copy, PartialEq, Eq, Structural)]
pub enum HashPolicy {
    /// Hashes are not verified.
    Unchecked,
    /// Every artifact must come with a hash under this algorithm, and the
    /// hash computed from what was fetched must be one of those declared.
    Require(HashAlgorithm),
}

/// Why no artifact was selected.
#[derive(Debug, Clone, Copy, PartialEq, Eq, Structural)]
pub enum SelectionError {
    /// No index has an artifact to offer.
    NoDistributionFound,
    /// No hash computed from the artifact is among those declared for it.
    HashMismatch,
}

/// Whether the policy lets an artifact with these hashes be offered.
pub open spec fn hashes_pass(hashes: Seq<HashDigestView>, policy: HashPolicy) -> bool {
    match policy {
        HashPolicy::Unchecked => true,
        HashPolicy::Require(a) => has_algorithm(hashes, a),
    }
}

/// Whether the artifact is a wheel that can be offered: built, fitting the
/// platform, and with the hashes that the policy asks for.
pub open spec fn wheel_fits(a: ArtifactView, policy: HashPolicy) -> bool {
    a.kind == ArtifactKind::Built && a.priority is Some && hashes_pass(a.hashes, policy)
}

/// Whether the artifact is a source distribution that can be offered.
pub open spec fn source_fits(a: ArtifactView, policy: HashPolicy) -> bool {
    a.kind == ArtifactKind::Source && hashes_pass(a.hashes, policy)
}

/// Whether the index has a wheel to offer.
pub open spec fn offers_wheel(arts: Seq<ArtifactView>, policy: HashPolicy) -> bool {
    exists|p: int| 0 <= p < arts.len() && wheel_fits(#[trigger] arts[p], policy)
}

/// Whether the index has a source distribution to offer.
pub open spec fn offers_source(arts: Seq<ArtifactView>, policy: HashPolicy) -> bool {
    exists|p: int| 0 <= p < arts.len() && source_fits(#[trigger] arts[p], policy)
}

/// Whether the artifact of number `p` is the best wheel on offer: none has
/// a higher priority, and none of the same priority comes before it.
pub open spec fn best_wheel_at(arts: Seq<ArtifactView>, policy: HashPolicy, p: int) -> bool {
    &&& 0 <= p < arts.len()
    &&& wheel_fits(arts[p], policy)
    &&& forall|q: int|
        0 <= q < arts.len() && wheel_fits(#[trigger] arts[q], policy) ==> arts[q].priority->0 < arts[p].priority->0
            || (arts[q].priority->0 == arts[p].priority->0 && p <= q)
}

/// Whether the artifact of number `p` is the first source distribution on
/// offer.
pub open spec fn first_source_at(arts: Seq<ArtifactView>, policy: HashPolicy, p: int) -> bool {
    &&& 0 <= p < arts.len()
    &&& source_fits(arts[p], policy)
    &&& forall|q: int| 0 <= q < p ==> !source_fits(#[trigger] arts[q], policy)
}

/// Whether the artifact of number `p` is the one to take from the index:
/// the best wheel where there is a wheel on offer, else the first source
/// distribution.
pub open spec fn taken_at(arts: Seq<ArtifactView>, policy: HashPolicy, p: int) -> bool {
    if offers_wheel(arts, policy) {
        best_wheel_at(arts, policy, p)
    } else {
        first_source_at(arts, policy, p)
    }
}

/// The views of the artifacts of each listing.
pub open spec fn listing_views(ls: Seq<IndexListing>) -> Seq<Seq<ArtifactView>> {
    Seq::new(ls.len(), |i: int| artifact_views(ls[i].artifacts@))
}

/// Whether the listing of number `i` is the first that has anything to
/// offer.
pub open spec fn first_offer_at(ls: Seq<Seq<ArtifactView>>, policy: HashPolicy, i: int) -> bool {
    &&& 0 <= i < ls.len()
    &&& offers_wheel(ls[i], policy) || offers_source(ls[i], policy)
    &&& forall|j: int| 0 <= j < i ==> !offers_wheel(#[trigger] ls[j], policy) && !offers_source(ls[j], policy)
}

/// The wheels on offer among the first `upto` artifacts of a listing, each
/// as its file name and the address of the index.
pub open spec fn wheels_on_offer(arts: Seq<ArtifactView>, policy: HashPolicy, index: Seq<char>, upto: int) -> Seq<
    (Seq<char>, Seq<char>),
>
    decreases upto,
{
    if upto <= 0 {
        Seq::empty()
    } else {
        let before = wheels_on_offer(arts, policy, index, upto - 1);
        if wheel_fits(arts[upto - 1], policy) {
            before.push((arts[upto - 1].filename, index))
        } else {
            before
        }
    }
}

/// What was selected: the distribution, the hashes declared for it, and
/// for an artifact of an index the numbers of the listing and of the
/// artifact in it.
#[derive(Debug)]
pub struct Selected {
    pub dist: ResolvedDist,
    pub hashes: Vec<HashDigest>,
    pub place: Option<(usize, usize)>,
}

/// Every wheel on offer in a listing is of the index of the listing.
proof fn lemma_wheels_index(arts: Seq<ArtifactView>, policy: HashPolicy, index: Seq<char>, upto: int, k: int)
    requires
        0 <= k < wheels_on_offer(arts, policy, index, upto).len(),
    ensures
        wheels_on_offer(arts, policy, index, upto)[k].1 == index,
    decreases upto,
{
    if upto > 0 {
        let before = wheels_on_offer(arts, policy, index, upto - 1);
        if k < before.len() {
            lemma_wheels_index(arts, policy, index, upto - 1, k);
        }
    }
}

/// What one listing has to offer: the number of the artifact to take.
fn pick(arts: &Vec<Artifact>, policy: HashPolicy) -> (r: Option<usize>)
    ensures
        match r {
            Some(p) => taken_at(artifact_views(arts@), policy, p as int),
            None => !offers_wheel(artifact_views(arts@), policy) && !offers_source(artifact_views(arts@), policy),
        },
{
    let ghost views = artifact_views(arts@);
    let mut wheel: Option<usize> = None;
    let mut source: Option<usize> = None;
    let mut top: u64 = 0;
    let mut p: usize = 0;
    while p < arts.len()
        invariant
            p <= arts.len(),
            views == artifact_views(arts@),
            match wheel {
                Some(w) => {
                    &&& w < p
                    &&& wheel_fits(views[w as int], policy)
                    &&& views[w as int].priority == Some(top)
                    &&& forall|q: int|
                        0 <= q < p && wheel_fits(#[trigger] views[q], policy) ==> views[q].priority->0 < top || (
                        views[q].priority->0 == top && w <= q)
                },
                None => forall|q: int| 0 <= q < p ==> !wheel_fits(#[trigger] views[q], policy),
            },
            match source {
                Some(s) => s < p && first_source_at(views, policy, s as int),
                None => forall|q: int| 0 <= q < p ==> !source_fits(#[trigger] views[q], policy),
            },
        decreases arts.len() - p,
    {
        let a = &arts[p];
        assert(views[p as int] == a@);
        let pass = match policy {
            HashPolicy::Unchecked => true,
            HashPolicy::Require(alg) => holds_algorithm(&a.hashes, alg),
        };
        if pass {
            match a.kind {
                ArtifactKind::Built => {
                    match a.priority {
                        Some(rank) => {
                            if wheel.is_none() || rank > top {
                                wheel = Some(p);
                                top = rank;
                            }
                        },
                        None => {},
                    }
                },
                ArtifactKind::Source => {
                    if source.is_none() {
                        source = Some(p);
                    }
                },
            }
        }
        p += 1;
    }
    match wheel {
        Some(w) => Some(w),
        None => source,
    }
}

/// The wheels on offer in a listing, in their order, and among them the
/// place of the artifact of number `best`.
fn wheels_of(listing: &IndexListing, policy: HashPolicy, best: usize) -> (r: (Vec<RegistryWheel>, usize))
    requires
        best < listing.artifacts.len(),
        wheel_fits(listing.artifacts[best as int]@, policy),
    ensures
        r.1 < r.0.len(),
        Seq::new(r.0.len() as nat, |i: int| (r.0[i].filename@, r.0[i].index@)) == wheels_on_offer(
            artifact_views(listing.artifacts@),
            policy,
            listing.index@,
            listing.artifacts.len() as int,
        ),
        r.1 == wheels_on_offer(artifact_views(listing.artifacts@), policy, listing.index@, best as int).len(),
{
    let ghost arts = artifact_views(listing.artifacts@);
    let ghost index = listing.index@;
    let mut wheels: Vec<RegistryWheel> = Vec::new();
    let mut place: usize = 0;
    let mut p: usize = 0;
    assert(Seq::new(wheels.len() as nat, |i: int| (wheels[i].filename@, wheels[i].index@)) =~= wheels_on_offer(
        arts,
        policy,
        index,
        0,
    ));
    while p < listing.artifacts.len()
        invariant
            p <= listing.artifacts.len(),
            best < listing.artifacts.len(),
            arts == artifact_views(listing.artifacts@),
            index == listing.index@,
            wheel_fits(arts[best as int], policy),
            wheels.len() <= p,
            Seq::new(wheels.len() as nat, |i: int| (wheels[i].filename@, wheels[i].index@)) == wheels_on_offer(
                arts,
                policy,
                index,
                p as int,
            ),
            best < p ==> place < wheels.len() && place == wheels_on_offer(arts, policy, index, best as int).len(),
        decreases listing.artifacts.len() - p,
    {
        let a = &listing.artifacts[p];
        assert(arts[p as int] == a@);
        let pass = match policy {
            HashPolicy::Unchecked => true,
            HashPolicy::Require(alg) => holds_algorithm(&a.hashes, alg),
        };
        let ghost had = Seq::new(wheels.len() as nat, |i: int| (wheels[i].filename@, wheels[i].index@));
        if pass && a.kind == ArtifactKind::Built && a.priority.is_some() {
            if p == best {
                place = wheels.len();
            }
            wheels.push(RegistryWheel { filename: a.filename.clone(), index: listing.index.duplicate() });
            assert(Seq::new(wheels.len() as nat, |i: int| (wheels[i].filename@, wheels[i].index@)) =~= had.push(
                (a@.filename, index),
            ));
        }
        p += 1;
    }
    (wheels, place)
}

/// Selects the one distribution to install for a package at a version.
///
/// A source that the requirement names itself is taken as it is, without
/// any search. Otherwise the first listing that has anything to offer is
/// taken, and of it the best wheel, or where it offers no wheel its first
/// source distribution. With no listing offering anything there is no
/// distribution. Where hashes are required, artifacts without a hash under
/// the required algorithm are not on offer.
pub fn select(
    name: &PackageName,
    version: &Version,
    pinned: Option<Pinned>,
    listings: &Vec<IndexListing>,
    policy: HashPolicy,
) -> (r: Result<Selected, SelectionError>)
    ensures
        match r {
            Ok(s) => {
                &&& s.dist.name_view() == name@
                &&& match pinned {
                    Some(pin) => {
                        &&& s.place is None
                        &&& s.dist.kind() == pin.kind()
                        &&& s.dist.version_or_url_view() == VersionOrUrlView::Url(pin.url())
                        &&& s.hashes@.len() == 0
                    },
                    None => {
                        &&& s.place matches Some((i, p))
                        &&& first_offer_at(listing_views(listings@), policy, i as int)
                        &&& taken_at(listing_views(listings@)[i as int], policy, p as int)
                        &&& s.dist.kind() == if listings[i as int].artifacts[p as int].kind == ArtifactKind::Built {
                            DistKind::BuiltRegistry
                        } else {
                            DistKind::SourceRegistry
                        }
                        &&& s.dist.version_or_url_view() == VersionOrUrlView::Version(version@)
                        &&& s.dist.index_view() == Some(listings[i as int].index@)
                        &&& listings[i as int].artifacts[p as int].kind == ArtifactKind::Built ==> {
                            &&& s.dist.wheels() == wheels_on_offer(
                                listing_views(listings@)[i as int],
                                policy,
                                listings[i as int].index@,
                                listings[i as int].artifacts.len() as int,
                            )
                            &&& s.dist.best() == wheels_on_offer(
                                listing_views(listings@)[i as int],
                                policy,
                                listings[i as int].index@,
                                p as int,
                            ).len()
                        }
                        &&& digest_views(s.hashes@) == listings[i as int].artifacts[p as int]@.hashes
                        &&& hashes_pass(digest_views(s.hashes@), policy)
                    },
                }
            },
            Err(e) => {
                &&& e == SelectionError::NoDistributionFound
                &&& pinned is None
                &&& forall|i: int|
                    0 <= i < listings.len() ==> !offers_wheel(#[trigger] listing_views(listings@)[i], policy)
                        && !offers_source(listing_views(listings@)[i], policy)
            },
        },
{
    match pinned {
        Some(pin) => {
            let dist = match pin {
                Pinned::DirectUrl { url, built } => {
                    let d = UrlDist { name: name.duplicate(), url };
                    if built {
                        Dist::Built(BuiltDist::DirectUrl(d))
                    } else {
                        Dist::Source(SourceDist::DirectUrl(d))
                    }
                },
                Pinned::Git { url } => Dist::Source(SourceDist::Git(UrlDist { name: name.duplicate(), url })),
                Pinned::Path { url, built } => {
                    let d = UrlDist { name: name.duplicate(), url };
                    if built {
                        Dist::Built(BuiltDist::Path(d))
                    } else {
                        Dist::Source(SourceDist::Path(d))
                    }
                },
                Pinned::Directory { url } => Dist::Source(
                    SourceDist::Directory(UrlDist { name: name.duplicate(), url }),
                ),
            };
            Ok(Selected { dist: ResolvedDist::Installable(dist), hashes: Vec::new(), place: None })
        },
        None => {
            let ghost views = listing_views(listings@);
            let mut i: usize = 0;
            while i < listings.len()
                invariant
                    i <= listings.len(),
                    pinned is None,
                    views == listing_views(listings@),
                    forall|j: int| 0 <= j < i ==> !offers_wheel(#[trigger] views[j], policy) && !offers_source(
                        views[j],
                        policy,
                    ),
                decreases listings.len() - i,
            {
                let listing = &listings[i];
                assert(views[i as int] == artifact_views(listing.artifacts@));
                match pick(&listing.artifacts, policy) {
                    None => {},
                    Some(p) => {
                        let a = &listing.artifacts[p];
                        assert(views[i as int][p as int] == a@);
                        let hashes = duplicate_digests(&a.hashes);
                        proof {
                            if !offers_wheel(views[i as int], policy) {
                                assert(source_fits(views[i as int][p as int], policy));
                            }
                        }
                        let dist = match a.kind {
                            ArtifactKind::Built => {
                                let (wheels, place) = wheels_of(listing, policy, p);
                                match RegistryBuiltDist::new(name.duplicate(), version.duplicate(), wheels, place) {
                                    Some(d) => {
                                        proof {
                                            lemma_wheels_index(
                                                views[i as int],
                                                policy,
                                                listing.index@,
                                                listing.artifacts.len() as int,
                                                place as int,
                                            );
                                        }
                                        Dist::Built(BuiltDist::Registry(d))
                                    },
                                    None => vstd::pervasive::unreached(),
                                }
                            },
                            ArtifactKind::Source => Dist::Source(
                                SourceDist::Registry(
                                    RegistrySourceDist {
                                        name: name.duplicate(),
                                        version: version.duplicate(),
                                        index: listing.index.duplicate(),
                                    },
                                ),
                            ),
                        };
                        return Ok(Selected { dist: ResolvedDist::Installable(dist), hashes, place: Some((i, p)) });
                    },
                }
                i += 1;
            }
            Err(SelectionError::NoDistributionFound)
        },
    }
}

/// Whether one of the computed digests is under the required algorithm and
/// among the declared ones.
pub open spec fn digests_match(declared: Seq<HashDigestView>, computed: Seq<HashDigestView>, a: HashAlgorithm) -> bool {
    exists|i: int| 0 <= i < computed.len() && (#[trigger] computed[i]).algorithm == a && has_digest(declared, computed[i])
}

/// Holds what was selected against the digests computed from what was
/// fetched. Where hashes are required, the selection stands only if a
/// computed digest under the required algorithm is among those declared;
/// else it is a mismatch. Where they are not required it always stands.
pub fn confirm(selected: Selected, computed: &Vec<HashDigest>, policy: HashPolicy) -> (r: Result<
    Selected,
    SelectionError,
>)
    ensures
        match r {
            Ok(s) => s == selected && match policy {
                HashPolicy::Unchecked => true,
                HashPolicy::Require(a) => digests_match(digest_views(selected.hashes@), digest_views(computed@), a),
            },
            Err(e) => {
                &&& e == SelectionError::HashMismatch
                &&& policy matches HashPolicy::Require(a)
                &&& !digests_match(digest_views(selected.hashes@), digest_views(computed@), a)
            },
        },
{
    match policy {
        HashPolicy::Unchecked => Ok(selected),
        HashPolicy::Require(a) => {
            let ghost declared = digest_views(selected.hashes@);
            let ghost found = digest_views(computed@);
            let mut i: usize = 0;
            while i < computed.len()
                invariant
                    i <= computed.len(),
                    policy == HashPolicy::Require(a),
                    declared == digest_views(selected.hashes@),
                    found == digest_views(computed@),
                    forall|j: int| 0 <= j < i ==> !((#[trigger] found[j]).algorithm == a && has_digest(declared, found[j])),
                decreases computed.len() - i,
            {
                assert(found[i as int] == computed[i as int]@);
                if computed[i].algorithm() == a && holds_digest(&selected.hashes, &computed[i]) {
                    assert(found[i as int].algorithm == a && has_digest(declared, found[i as int]));
                    return Ok(selected);
                }
                i += 1;
            }
            Err(SelectionError::HashMismatch)
        },
    }
}

/// Hash rejection: where hashes are required, what `confirm` lets stand has
/// a computed digest among its declared ones. An artifact none of whose
/// computed digests is declared for it never stands.
pub proof fn lemma_mismatch_never_stands(
    declared: Seq<HashDigestView>,
    computed: Seq<HashDigestView>,
    a: HashAlgorithm,
)
    requires
        forall|i: int| 0 <= i < computed.len() ==> !has_digest(declared, #[trigger] computed[i]),
    ensures
        !digests_match(declared, computed, a),
{
}


/// The selection is determined by what is on offer: one listing only is the
/// first with anything to offer, and one artifact only is the one to take
/// from a listing.
pub proof fn lemma_selection_determined(ls: Seq<Seq<ArtifactView>>, policy: HashPolicy, i: int, j: int, p: int, q: int)
    requires
        first_offer_at(ls, policy, i),
        first_offer_at(ls, policy, j),
        taken_at(ls[i], policy, p),
        taken_at(ls[j], policy, q),
    ensures
        i == j,
        p == q,
{
    assert(i == j) by {
        if i < j {
            assert(!offers_wheel(ls[i], policy) && !offers_source(ls[i], policy));
        } else if j < i {
            assert(!offers_wheel(ls[j], policy) && !offers_source(ls[j], policy));
        }
    }
    let arts = ls[i];
    if offers_wheel(arts, policy) {
        assert(wheel_fits(arts[p], policy) && wheel_fits(arts[q], policy));
    } else {
        if p < q {
            assert(!source_fits(arts[p], policy));
        } else if q < p {
            assert(!source_fits(arts[q], policy));
        }
    }
}

} // verus!
