//! Resolved distributions: what is installed, or what can be installed and
//! from where.

use crate::names::PackageName;
use crate::version::Version;
use vstd::prelude::*;
use vstd::string::StringExecFns;

verus! {

/// The address of a package index.
#[derive(Debug)]
pub struct IndexUrl {
    url: String,
}

impl View for IndexUrl {
    type V = Seq<char>;

    closed spec fn view(&self) -> Seq<char> {
        self.url@
    }
}

impl IndexUrl {
    /// The index at this address.
    pub fn new(url: &str) -> (r: IndexUrl)
        ensures
            r@ == url@,
    {
        IndexUrl { url: url.to_owned() }
    }

    /// The address.
    pub fn as_str(&self) -> (r: &str)
        ensures
            r@ == self@,
    {
        self.url.as_str()
    }

    /// A copy of the address.
    pub fn duplicate(&self) -> (r: IndexUrl)
        ensures
            r@ == self@,
    {
        IndexUrl { url: self.url.clone() }
    }

    /// Whether both are the same index.
    pub fn same(&self, other: &IndexUrl) -> (r: bool)
        ensures
            r == (self@ == other@),
    {
        self.url == other.url
    }
}

/// What tells a distribution apart besides its name: the version of a
/// distribution that an index or the environment holds, the address of any
/// other.
pub enum VersionOrUrlView {
    Version(Seq<char>),
    Url(Seq<char>),
}

/// A borrowed version or address of a distribution.
#[derive(Debug)]
pub enum VersionOrUrl<'a> {
    Version(&'a Version),
    Url(&'a str),
}

impl<'a> View for VersionOrUrl<'a> {
    type V = VersionOrUrlView;

    open spec fn view(&self) -> VersionOrUrlView {
        match self {
            VersionOrUrl::Version(v) => VersionOrUrlView::Version(v@),
            VersionOrUrl::Url(u) => VersionOrUrlView::Url(u@),
        }
    }
}

/// A distribution that is installed already.
#[derive(Debug)]
pub struct InstalledDist {
    pub name: PackageName,
    pub version: Version,
}

/// One wheel of a package version in an index.
#[derive(Debug)]
pub struct RegistryWheel {
    pub filename: String,
    pub index: IndexUrl,
}

/// The wheels of a package version in the indexes, with the one that fits
/// the platform best.
#[derive(Debug)]
pub struct RegistryBuiltDist {
    name: PackageName,
    version: Version,
    wheels: Vec<RegistryWheel>,
    best: usize,
}

impl RegistryBuiltDist {
    /// There is a best wheel among the wheels.
    #[verifier::type_invariant]
    pub closed spec fn wf(&self) -> bool {
        self.best < self.wheels.len()
    }

    pub closed spec fn name_view(&self) -> Seq<char> {
        self.name@
    }

    pub closed spec fn version_view(&self) -> Seq<char> {
        self.version@
    }

    /// The wheels, as file name and index address.
    pub closed spec fn wheel_views(&self) -> Seq<(Seq<char>, Seq<char>)> {
        Seq::new(self.wheels.len() as nat, |i: int| (self.wheels[i].filename@, self.wheels[i].index@))
    }

    /// The number of the best wheel.
    pub closed spec fn best_view(&self) -> int {
        self.best as int
    }

    /// The wheels of a version with the number of the best one; `None`
    /// where there is no wheel of that number.
    pub fn new(name: PackageName, version: Version, wheels: Vec<RegistryWheel>, best: usize) -> (r: Option<
        RegistryBuiltDist,
    >)
        ensures
            r is Some <==> best < wheels.len(),
            r matches Some(d) ==> {
                &&& d.name_view() == name@
                &&& d.version_view() == version@
                &&& d.best_view() == best
                &&& d.wheel_views() == Seq::new(wheels.len() as nat, |i: int| (wheels[i].filename@, wheels[i].index@))
                &&& 0 <= d.best_view() < d.wheel_views().len()
            },
    {
        if best < wheels.len() {
            let d = RegistryBuiltDist { name, version, wheels, best };
            assert(d.wheel_views() =~= Seq::new(wheels.len() as nat, |i: int| (wheels[i].filename@, wheels[i].index@)));
            Some(d)
        } else {
            None
        }
    }

    /// A copy of the wheels, with the same best one.
    pub fn duplicate(&self) -> (r: RegistryBuiltDist)
        ensures
            r.name_view() == self.name_view(),
            r.version_view() == self.version_view(),
            r.wheel_views() == self.wheel_views(),
            r.best_view() == self.best_view(),
    {
        proof {
            use_type_invariant(self);
        }
        let mut wheels: Vec<RegistryWheel> = Vec::new();
        let mut i: usize = 0;
        while i < self.wheels.len()
            invariant
                i <= self.wheels.len(),
                wheels.len() == i,
                forall|k: int|
                    0 <= k < i ==> (#[trigger] wheels[k]).filename@ == self.wheels[k].filename@ && wheels[k].index@
                        == self.wheels[k].index@,
            decreases self.wheels.len() - i,
        {
            wheels.push(self.wheels[i].duplicate());
            i += 1;
        }
        let r = RegistryBuiltDist {
            name: self.name.duplicate(),
            version: self.version.duplicate(),
            wheels,
            best: self.best,
        };
        assert(r.wheel_views() =~= self.wheel_views());
        r
    }

    /// The wheel that fits the platform best.
    pub fn best_wheel(&self) -> (r: &RegistryWheel)
        ensures
            0 <= self.best_view() < self.wheel_views().len(),
            (r.filename@, r.index@) == self.wheel_views()[self.best_view()],
    {
        proof {
            use_type_invariant(self);
        }
        &self.wheels[self.best]
    }

    pub fn name(&self) -> (r: &PackageName)
        ensures
            r@ == self.name_view(),
    {
        &self.name
    }

    pub fn version(&self) -> (r: &Version)
        ensures
            r@ == self.version_view(),
    {
        &self.version
    }
}

/// The source distribution of a package version in an index.
#[derive(Debug)]
pub struct RegistrySourceDist {
    pub name: PackageName,
    pub version: Version,
    pub index: IndexUrl,
}

/// A distribution that is named by an address: a file behind a URL, a
/// repository, a file or a directory on disk.
#[derive(Debug)]
pub struct UrlDist {
    pub name: PackageName,
    pub url: String,
}

impl InstalledDist {
    /// A copy of the distribution.
    pub fn duplicate(&self) -> (r: InstalledDist)
        ensures
            r.name@ == self.name@,
            r.version@ == self.version@,
    {
        InstalledDist { name: self.name.duplicate(), version: self.version.duplicate() }
    }
}

impl RegistryWheel {
    /// A copy of the wheel.
    pub fn duplicate(&self) -> (r: RegistryWheel)
        ensures
            r.filename@ == self.filename@,
            r.index@ == self.index@,
    {
        RegistryWheel { filename: self.filename.clone(), index: self.index.duplicate() }
    }
}

impl RegistrySourceDist {
    /// A copy of the distribution.
    pub fn duplicate(&self) -> (r: RegistrySourceDist)
        ensures
            r.name@ == self.name@,
            r.version@ == self.version@,
            r.index@ == self.index@,
    {
        RegistrySourceDist {
            name: self.name.duplicate(),
            version: self.version.duplicate(),
            index: self.index.duplicate(),
        }
    }
}

impl UrlDist {
    /// A copy of the distribution.
    pub fn duplicate(&self) -> (r: UrlDist)
        ensures
            r.name@ == self.name@,
            r.url@ == self.url@,
    {
        UrlDist { name: self.name.duplicate(), url: self.url.clone() }
    }
}

/// A built distribution (a wheel).
#[derive(Debug)]
pub enum BuiltDist {
    Registry(RegistryBuiltDist),
    DirectUrl(UrlDist),
    Path(UrlDist),
}

/// A source distribution.
#[derive(Debug)]
pub enum SourceDist {
    Registry(RegistrySourceDist),
    DirectUrl(UrlDist),
    Git(UrlDist),
    Path(UrlDist),
    Directory(UrlDist),
}

/// A distribution that can be installed.
#[derive(Debug)]
pub enum Dist {
    Built(BuiltDist),
    Source(SourceDist),
}

/// A distribution that a resolution settles on.
#[derive(Debug)]
pub enum ResolvedDist {
    Installed(InstalledDist),
    Installable(Dist),
}

/// The kinds of distribution.
#[derive(Debug, Clone, Copy, PartialEq, Eq, Structural)]
pub enum DistKind {
    Installed,
    BuiltRegistry,
    BuiltDirectUrl,
    BuiltPath,
    SourceRegistry,
    SourceDirectUrl,
    SourceGit,
    SourcePath,
    SourceDirectory,
}

impl DistKind {
    /// Whether distributions of this kind come from an index.
    pub open spec fn from_registry(self) -> bool {
        self == DistKind::BuiltRegistry || self == DistKind::SourceRegistry
    }

    /// Whether distributions of this kind are built.
    pub open spec fn built(self) -> bool {
        self == DistKind::BuiltRegistry || self == DistKind::BuiltDirectUrl || self == DistKind::BuiltPath
    }
}

/// The text that shows a distribution: its name, then `==` and its version,
/// or ` @ ` and its address.
pub open spec fn shown(name: Seq<char>, rest: VersionOrUrlView) -> Seq<char> {
    match rest {
        VersionOrUrlView::Version(v) => name + "=="@ + v,
        VersionOrUrlView::Url(u) => name + " @ "@ + u,
    }
}

fn show(name: &PackageName, rest: &VersionOrUrl) -> (r: String)
    ensures
        r@ == shown(name@, rest@),
{
    let mut text = name.as_str().to_owned();
    match rest {
        VersionOrUrl::Version(v) => {
            text.append("==");
            text.append(v.as_str());
        },
        VersionOrUrl::Url(u) => {
            text.append(" @ ");
            text.append(u);
        },
    }
    text
}

impl BuiltDist {
    /// Whether the two are the same distribution: of one kind, with the
    /// same name, the same version or address, and the same wheels.
    pub open spec fn same_as(&self, other: &BuiltDist) -> bool {
        &&& self.kind() == other.kind()
        &&& self.name_view() == other.name_view()
        &&& self.version_or_url_view() == other.version_or_url_view()
        &&& self.index_view() == other.index_view()
        &&& self matches BuiltDist::Registry(a) ==> other matches BuiltDist::Registry(b) && a.wheel_views()
            == b.wheel_views() && a.best_view() == b.best_view()
    }

    /// A copy of the distribution.
    pub fn duplicate(&self) -> (r: BuiltDist)
        ensures
            r.same_as(self),
    {
        match self {
            BuiltDist::Registry(d) => BuiltDist::Registry(d.duplicate()),
            BuiltDist::DirectUrl(d) => BuiltDist::DirectUrl(d.duplicate()),
            BuiltDist::Path(d) => BuiltDist::Path(d.duplicate()),
        }
    }

    pub open spec fn kind(&self) -> DistKind {
        match self {
            BuiltDist::Registry(_) => DistKind::BuiltRegistry,
            BuiltDist::DirectUrl(_) => DistKind::BuiltDirectUrl,
            BuiltDist::Path(_) => DistKind::BuiltPath,
        }
    }

    pub open spec fn name_view(&self) -> Seq<char> {
        match self {
            BuiltDist::Registry(d) => d.name_view(),
            BuiltDist::DirectUrl(d) => d.name@,
            BuiltDist::Path(d) => d.name@,
        }
    }

    pub open spec fn version_or_url_view(&self) -> VersionOrUrlView {
        match self {
            BuiltDist::Registry(d) => VersionOrUrlView::Version(d.version_view()),
            BuiltDist::DirectUrl(d) => VersionOrUrlView::Url(d.url@),
            BuiltDist::Path(d) => VersionOrUrlView::Url(d.url@),
        }
    }

    /// The index of the best wheel, for the wheels of an index.
    pub open spec fn index_view(&self) -> Option<Seq<char>> {
        match self {
            BuiltDist::Registry(d) => Some(d.wheel_views()[d.best_view()].1),
            BuiltDist::DirectUrl(_) => None,
            BuiltDist::Path(_) => None,
        }
    }

    /// The name of the package.
    pub fn name(&self) -> (r: &PackageName)
        ensures
            r@ == self.name_view(),
    {
        match self {
            BuiltDist::Registry(d) => d.name(),
            BuiltDist::DirectUrl(d) => &d.name,
            BuiltDist::Path(d) => &d.name,
        }
    }

    /// The version, for the wheels of an index; the address of any other.
    pub fn version_or_url(&self) -> (r: VersionOrUrl<'_>)
        ensures
            r@ == self.version_or_url_view(),
    {
        match self {
            BuiltDist::Registry(d) => VersionOrUrl::Version(d.version()),
            BuiltDist::DirectUrl(d) => VersionOrUrl::Url(d.url.as_str()),
            BuiltDist::Path(d) => VersionOrUrl::Url(d.url.as_str()),
        }
    }

    /// The index that the distribution comes from, if it comes from one.
    pub fn index(&self) -> (r: Option<&IndexUrl>)
        ensures
            r is Some <==> self.kind().from_registry(),
            match r {
                Some(i) => self.index_view() == Some(i@),
                None => self.index_view() is None,
            },
    {
        match self {
            BuiltDist::Registry(d) => Some(&d.best_wheel().index),
            BuiltDist::DirectUrl(_) => None,
            BuiltDist::Path(_) => None,
        }
    }
}

impl SourceDist {
    /// Whether the two are the same distribution: of one kind, with the
    /// same name, the same version or address, and the same index.
    pub open spec fn same_as(&self, other: &SourceDist) -> bool {
        &&& self.kind() == other.kind()
        &&& self.name_view() == other.name_view()
        &&& self.version_or_url_view() == other.version_or_url_view()
        &&& self.index_view() == other.index_view()
    }

    /// A copy of the distribution.
    pub fn duplicate(&self) -> (r: SourceDist)
        ensures
            r.same_as(self),
    {
        match self {
            SourceDist::Registry(d) => SourceDist::Registry(d.duplicate()),
            SourceDist::DirectUrl(d) => SourceDist::DirectUrl(d.duplicate()),
            SourceDist::Git(d) => SourceDist::Git(d.duplicate()),
            SourceDist::Path(d) => SourceDist::Path(d.duplicate()),
            SourceDist::Directory(d) => SourceDist::Directory(d.duplicate()),
        }
    }

    pub open spec fn kind(&self) -> DistKind {
        match self {
            SourceDist::Registry(_) => DistKind::SourceRegistry,
            SourceDist::DirectUrl(_) => DistKind::SourceDirectUrl,
            SourceDist::Git(_) => DistKind::SourceGit,
            SourceDist::Path(_) => DistKind::SourcePath,
            SourceDist::Directory(_) => DistKind::SourceDirectory,
        }
    }

    pub open spec fn name_view(&self) -> Seq<char> {
        match self {
            SourceDist::Registry(d) => d.name@,
            SourceDist::DirectUrl(d) => d.name@,
            SourceDist::Git(d) => d.name@,
            SourceDist::Path(d) => d.name@,
            SourceDist::Directory(d) => d.name@,
        }
    }

    pub open spec fn version_or_url_view(&self) -> VersionOrUrlView {
        match self {
            SourceDist::Registry(d) => VersionOrUrlView::Version(d.version@),
            SourceDist::DirectUrl(d) => VersionOrUrlView::Url(d.url@),
            SourceDist::Git(d) => VersionOrUrlView::Url(d.url@),
            SourceDist::Path(d) => VersionOrUrlView::Url(d.url@),
            SourceDist::Directory(d) => VersionOrUrlView::Url(d.url@),
        }
    }

    pub open spec fn index_view(&self) -> Option<Seq<char>> {
        match self {
            SourceDist::Registry(d) => Some(d.index@),
            _ => None,
        }
    }

    /// The name of the package.
    pub fn name(&self) -> (r: &PackageName)
        ensures
            r@ == self.name_view(),
    {
        match self {
            SourceDist::Registry(d) => &d.name,
            SourceDist::DirectUrl(d) => &d.name,
            SourceDist::Git(d) => &d.name,
            SourceDist::Path(d) => &d.name,
            SourceDist::Directory(d) => &d.name,
        }
    }

    /// The version, for the source distribution of an index; the address of
    /// any other.
    pub fn version_or_url(&self) -> (r: VersionOrUrl<'_>)
        ensures
            r@ == self.version_or_url_view(),
    {
        match self {
            SourceDist::Registry(d) => VersionOrUrl::Version(&d.version),
            SourceDist::DirectUrl(d) => VersionOrUrl::Url(d.url.as_str()),
            SourceDist::Git(d) => VersionOrUrl::Url(d.url.as_str()),
            SourceDist::Path(d) => VersionOrUrl::Url(d.url.as_str()),
            SourceDist::Directory(d) => VersionOrUrl::Url(d.url.as_str()),
        }
    }

    /// The index that the distribution comes from, if it comes from one.
    pub fn index(&self) -> (r: Option<&IndexUrl>)
        ensures
            r is Some <==> self.kind().from_registry(),
            match r {
                Some(i) => self.index_view() == Some(i@),
                None => self.index_view() is None,
            },
    {
        match self {
            SourceDist::Registry(d) => Some(&d.index),
            SourceDist::DirectUrl(_) => None,
            SourceDist::Git(_) => None,
            SourceDist::Path(_) => None,
            SourceDist::Directory(_) => None,
        }
    }
}

impl Dist {
    /// A copy of the distribution.
    pub fn duplicate(&self) -> (r: Dist)
        ensures
            (ResolvedDist::Installable(r)).same_as(&ResolvedDist::Installable(*self)),
    {
        match self {
            Dist::Built(d) => Dist::Built(d.duplicate()),
            Dist::Source(d) => Dist::Source(d.duplicate()),
        }
    }

    pub open spec fn kind(&self) -> DistKind {
        match self {
            Dist::Built(d) => d.kind(),
            Dist::Source(d) => d.kind(),
        }
    }

    pub open spec fn name_view(&self) -> Seq<char> {
        match self {
            Dist::Built(d) => d.name_view(),
            Dist::Source(d) => d.name_view(),
        }
    }

    pub open spec fn version_or_url_view(&self) -> VersionOrUrlView {
        match self {
            Dist::Built(d) => d.version_or_url_view(),
            Dist::Source(d) => d.version_or_url_view(),
        }
    }

    pub open spec fn index_view(&self) -> Option<Seq<char>> {
        match self {
            Dist::Built(d) => d.index_view(),
            Dist::Source(d) => d.index_view(),
        }
    }

    /// The name of the package.
    pub fn name(&self) -> (r: &PackageName)
        ensures
            r@ == self.name_view(),
    {
        match self {
            Dist::Built(d) => d.name(),
            Dist::Source(d) => d.name(),
        }
    }

    /// The version or the address of the distribution.
    pub fn version_or_url(&self) -> (r: VersionOrUrl<'_>)
        ensures
            r@ == self.version_or_url_view(),
    {
        match self {
            Dist::Built(d) => d.version_or_url(),
            Dist::Source(d) => d.version_or_url(),
        }
    }

    /// The index that the distribution comes from, if it comes from one.
    pub fn index(&self) -> (r: Option<&IndexUrl>)
        ensures
            r is Some <==> self.kind().from_registry(),
            match r {
                Some(i) => self.index_view() == Some(i@),
                None => self.index_view() is None,
            },
    {
        match self {
            Dist::Built(d) => d.index(),
            Dist::Source(d) => d.index(),
        }
    }
}

impl ResolvedDist {
    /// Whether the two are the same distribution: of one kind, with the
    /// same name, the same version or address, the same index and the same
    /// wheels.
    pub open spec fn same_as(&self, other: &ResolvedDist) -> bool {
        &&& self.kind() == other.kind()
        &&& self.name_view() == other.name_view()
        &&& self.version_or_url_view() == other.version_or_url_view()
        &&& self.index_view() == other.index_view()
        &&& self.wheels() == other.wheels()
        &&& self.best() == other.best()
    }

    /// A copy of the distribution.
    pub fn duplicate(&self) -> (r: ResolvedDist)
        ensures
            r.same_as(self),
    {
        match self {
            ResolvedDist::Installed(d) => ResolvedDist::Installed(d.duplicate()),
            ResolvedDist::Installable(d) => ResolvedDist::Installable(d.duplicate()),
        }
    }

    /// The kind of the distribution.
    pub open spec fn kind(&self) -> DistKind {
        match self {
            ResolvedDist::Installed(_) => DistKind::Installed,
            ResolvedDist::Installable(d) => d.kind(),
        }
    }

    pub open spec fn name_view(&self) -> Seq<char> {
        match self {
            ResolvedDist::Installed(d) => d.name@,
            ResolvedDist::Installable(d) => d.name_view(),
        }
    }

    pub open spec fn version_or_url_view(&self) -> VersionOrUrlView {
        match self {
            ResolvedDist::Installed(d) => VersionOrUrlView::Version(d.version@),
            ResolvedDist::Installable(d) => d.version_or_url_view(),
        }
    }

    /// The index of the distribution: that of the best wheel or of the
    /// source distribution where it comes from an index, none otherwise.
    pub open spec fn index_view(&self) -> Option<Seq<char>> {
        match self {
            ResolvedDist::Installed(_) => None,
            ResolvedDist::Installable(d) => d.index_view(),
        }
    }

    /// The wheels, as file name and index address, of a distribution that
    /// is the wheels of a version in the indexes; none of any other.
    pub open spec fn wheels(&self) -> Seq<(Seq<char>, Seq<char>)> {
        match self {
            ResolvedDist::Installable(Dist::Built(BuiltDist::Registry(d))) => d.wheel_views(),
            _ => Seq::empty(),
        }
    }

    /// The number of the best wheel, where there are wheels.
    pub open spec fn best(&self) -> int {
        match self {
            ResolvedDist::Installable(Dist::Built(BuiltDist::Registry(d))) => d.best_view(),
            _ => 0,
        }
    }

    /// The name of the package.
    pub fn name(&self) -> (r: &PackageName)
        ensures
            r@ == self.name_view(),
    {
        match self {
            ResolvedDist::Installed(d) => &d.name,
            ResolvedDist::Installable(d) => d.name(),
        }
    }

    /// The version of a distribution that is installed or comes from an
    /// index; the address of any other.
    pub fn version_or_url(&self) -> (r: VersionOrUrl<'_>)
        ensures
            r@ == self.version_or_url_view(),
    {
        match self {
            ResolvedDist::Installed(d) => VersionOrUrl::Version(&d.version),
            ResolvedDist::Installable(d) => d.version_or_url(),
        }
    }

    /// The index that the distribution comes from, if it comes from one:
    /// exactly the wheels and the source distributions of an index do.
    pub fn index(&self) -> (r: Option<&IndexUrl>)
        ensures
            r is Some <==> self.kind().from_registry(),
            match r {
                Some(i) => self.index_view() == Some(i@),
                None => self.index_view() is None,
            },
    {
        match self {
            ResolvedDist::Installed(_) => None,
            ResolvedDist::Installable(d) => d.index(),
        }
    }

    /// The text that shows the distribution.
    pub fn to_text(&self) -> (r: String)
        ensures
            r@ == shown(self.name_view(), self.version_or_url_view()),
    {
        show(self.name(), &self.version_or_url())
    }
}

impl Clone for ResolvedDist {
    fn clone(&self) -> (r: ResolvedDist)
        ensures
            r.same_as(self),
    {
        self.duplicate()
    }
}

} // verus!
