//! Pinned packages: the nodes of the resolution graph.

use crate::dist::{shown, IndexUrl, ResolvedDist, VersionOrUrl};
use crate::hash::{digest_views, duplicate_digests, HashDigest};
use crate::metadata::{metadata_view, Metadata};
use crate::names::{ExtraName, GroupName, PackageName};
use crate::packages::{extra_view, group_view, same_extra, same_group};
use crate::version::{one_version, Version};
use vstd::prelude::*;

verus! {

/// What has a package name.
pub trait Named {
    /// The name, as text.
    spec fn named(&self) -> Seq<char>;

    /// The name of the package.
    fn package_name(&self) -> (r: &PackageName)
        ensures
            r@ == self.named(),
    ;
}

/// What can be shown as text.
pub trait Shown {
    /// The text that shows it.
    spec fn text(&self) -> Seq<char>;

    /// The text that shows it.
    fn display(&self) -> (r: String)
        ensures
            r@ == self.text(),
    ;
}

impl Named for ResolvedDist {
    open spec fn named(&self) -> Seq<char> {
        self.name_view()
    }

    fn package_name(&self) -> (r: &PackageName) {
        self.name()
    }
}

impl Shown for ResolvedDist {
    open spec fn text(&self) -> Seq<char> {
        shown(self.name_view(), self.version_or_url_view())
    }

    fn display(&self) -> (r: String) {
        self.to_text()
    }
}

/// What tells one node of the graph from another: the package, its
/// version, and the extra or the dependency group that brought it in.
pub struct NodeKey {
    pub name: Seq<char>,
    pub version: Seq<char>,
    pub extra: Option<Seq<char>>,
    pub group: Option<Seq<char>>,
}

/// Whether both identities are one: the same package, brought in by the
/// same extra or group, at the same version. Two versions are the same where
/// they are written the same, or where both are versions that the version
/// order holds equal.
pub open spec fn same_key(a: NodeKey, b: NodeKey) -> bool {
    &&& a.name == b.name
    &&& a.extra == b.extra
    &&& a.group == b.group
    &&& one_version(a.version, b.version)
}

/// Being one identity is an equivalence: each identity is one with itself,
/// and of three identities, where the second is one with the first and with
/// the third, each is one with each.
pub proof fn lemma_same_key(a: NodeKey, b: NodeKey, c: NodeKey)
    ensures
        same_key(a, a),
        same_key(a, b) == same_key(b, a),
        same_key(a, b) && same_key(b, c) ==> same_key(a, c),
{
}

/// A pinned package with its resolved distribution and metadata. The
/// distribution is one specific artifact; the metadata belongs to the
/// package and version.
#[derive(Debug)]
pub struct AnnotatedDist {
    pub dist: ResolvedDist,
    pub name: PackageName,
    pub version: Version,
    pub extra: Option<ExtraName>,
    pub dev: Option<GroupName>,
    pub hashes: Vec<HashDigest>,
    pub metadata: Option<Metadata>,
}

impl AnnotatedDist {
    /// The identity of the node.
    pub open spec fn key(&self) -> NodeKey {
        NodeKey {
            name: self.name@,
            version: self.version@,
            extra: extra_view(self.extra),
            group: group_view(self.dev),
        }
    }

    /// Whether the node stands for the package itself, not for one of its
    /// extras or dependency groups.
    pub open spec fn base(&self) -> bool {
        self.extra is None && self.dev is None
    }

    /// Returns `true` if the node is a base package (i.e., not an extra or
    /// a dependency group).
    pub fn is_base(&self) -> (r: bool)
        ensures
            r == self.base(),
            r == (self.key().extra is None && self.key().group is None),
    {
        self.extra.is_none() && self.dev.is_none()
    }

    /// The index of the distribution, if it is from a registry.
    pub fn index(&self) -> (r: Option<&IndexUrl>)
        ensures
            r is Some <==> self.dist.kind().from_registry(),
            match r {
                Some(i) => self.dist.index_view() == Some(i@),
                None => self.dist.index_view() is None,
            },
    {
        self.dist.index()
    }

    /// The name that the distribution carries.
    pub fn name(&self) -> (r: &PackageName)
        ensures
            r@ == self.dist.name_view(),
    {
        self.dist.name()
    }

    /// The version of the distribution, or its address.
    pub fn version_or_url(&self) -> (r: VersionOrUrl<'_>)
        ensures
            r@ == self.dist.version_or_url_view(),
    {
        self.dist.version_or_url()
    }

    /// The text that shows the node: that of its distribution.
    pub fn to_text(&self) -> (r: String)
        ensures
            r@ == shown(self.dist.name_view(), self.dist.version_or_url_view()),
    {
        self.dist.to_text()
    }

    /// A copy of the node: the same distribution, identity and hashes, and
    /// the same metadata.
    pub fn duplicate(&self) -> (r: AnnotatedDist)
        ensures
            r.dist.same_as(&self.dist),
            r.key() == self.key(),
            digest_views(r.hashes@) == digest_views(self.hashes@),
            metadata_view(r.metadata) == metadata_view(self.metadata),
    {
        AnnotatedDist {
            dist: self.dist.duplicate(),
            name: self.name.duplicate(),
            version: self.version.duplicate(),
            extra: match &self.extra {
                Some(e) => Some(e.duplicate()),
                None => None,
            },
            dev: match &self.dev {
                Some(g) => Some(g.duplicate()),
                None => None,
            },
            hashes: duplicate_digests(&self.hashes),
            metadata: match &self.metadata {
                Some(m) => Some(m.duplicate()),
                None => None,
            },
        }
    }

    /// Whether both are the same node of the graph.
    pub fn same_node(&self, other: &AnnotatedDist) -> (r: bool)
        ensures
            r == same_key(self.key(), other.key()),
    {
        let mine = &self.version;
        let theirs = &other.version;
        proof {
            use_type_invariant(mine);
            use_type_invariant(theirs);
        }
        self.name.same(&other.name) && mine.same(theirs) && same_extra(
            &self.extra,
            &other.extra,
        ) && same_group(&self.dev, &other.dev)
    }
}

impl Named for AnnotatedDist {
    open spec fn named(&self) -> Seq<char> {
        self.dist.name_view()
    }

    fn package_name(&self) -> (r: &PackageName) {
        self.name()
    }
}

impl Shown for AnnotatedDist {
    open spec fn text(&self) -> Seq<char> {
        shown(self.dist.name_view(), self.dist.version_or_url_view())
    }

    fn display(&self) -> (r: String) {
        self.to_text()
    }
}

/// The same package at the same version, once taken plainly and once with
/// an extra, are two nodes: their identities differ in the extra alone,
/// they have the version in common, and only the plain one is a base node.
pub proof fn lemma_plain_and_extra_differ(plain: AnnotatedDist, extra: AnnotatedDist)
    requires
        plain.name@ == extra.name@,
        plain.version@ == extra.version@,
        plain.extra is None,
        plain.dev is None,
        extra.extra is Some,
        extra.dev is None,
    ensures
        !same_key(plain.key(), extra.key()),
        plain.key().name == extra.key().name,
        plain.key().version == extra.key().version,
        plain.key().group == extra.key().group,
        plain.base(),
        !extra.base(),
{
}

impl Clone for AnnotatedDist {
    fn clone(&self) -> (r: AnnotatedDist)
        ensures
            r.dist.same_as(&self.dist),
            r.key() == self.key(),
            digest_views(r.hashes@) == digest_views(self.hashes@),
            metadata_view(r.metadata) == metadata_view(self.metadata),
    {
        self.duplicate()
    }
}

} // verus!
