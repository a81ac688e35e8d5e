//! What the metadata provider answers for one version of a package, and
//! what that makes a package of the solver require.

use crate::names::{ExtraName, GroupName, PackageName};
use crate::packages::{PackageKey, PackageKeyView};
use crate::version::Version;
use crate::version_set::{VersionSet, VersionSetView};
use vstd::prelude::*;

verus! {

/// The mathematical value of a declared requirement.
pub struct DeclaredView {
    pub name: Seq<char>,
    pub extras: Seq<Seq<char>>,
    pub groups: Seq<Seq<char>>,
    pub versions: VersionSetView,
    pub active: bool,
}

/// A requirement as metadata declares it or as a run is asked for it: a
/// package, the extras and the dependency groups of it that are asked for,
/// the versions that will do, and whether the requirement applies to the
/// environment that is resolved for.
#[derive(Debug)]
pub struct Declared {
    pub name: PackageName,
    pub extras: Vec<ExtraName>,
    pub groups: Vec<GroupName>,
    pub versions: VersionSet,
    pub active: bool,
}

/// The texts of a list of extras.
pub open spec fn extra_views(es: Seq<ExtraName>) -> Seq<Seq<char>> {
    Seq::new(es.len(), |i: int| es[i]@)
}

/// The texts of a list of dependency groups.
pub open spec fn group_views(gs: Seq<GroupName>) -> Seq<Seq<char>> {
    Seq::new(gs.len(), |i: int| gs[i]@)
}

impl View for Declared {
    type V = DeclaredView;

    open spec fn view(&self) -> DeclaredView {
        DeclaredView {
            name: self.name@,
            extras: extra_views(self.extras@),
            groups: group_views(self.groups@),
            versions: self.versions@,
            active: self.active,
        }
    }
}

impl Declared {
    /// A copy of the requirement.
    pub fn duplicate(&self) -> (r: Declared)
        ensures
            r@ == self@,
    {
        let mut extras: Vec<ExtraName> = Vec::new();
        let mut i: usize = 0;
        while i < self.extras.len()
            invariant
                i <= self.extras.len(),
                extras.len() == i,
                forall|k: int| 0 <= k < i ==> (#[trigger] extras[k])@ == self.extras[k]@,
            decreases self.extras.len() - i,
        {
            extras.push(self.extras[i].duplicate());
            i += 1;
        }
        let mut groups: Vec<GroupName> = Vec::new();
        let mut j: usize = 0;
        while j < self.groups.len()
            invariant
                j <= self.groups.len(),
                groups.len() == j,
                forall|k: int| 0 <= k < j ==> (#[trigger] groups[k])@ == self.groups[k]@,
            decreases self.groups.len() - j,
        {
            groups.push(self.groups[j].duplicate());
            j += 1;
        }
        assert(extra_views(extras@) =~= extra_views(self.extras@));
        assert(group_views(groups@) =~= group_views(self.groups@));
        Declared {
            name: self.name.duplicate(),
            extras,
            groups,
            versions: self.versions.duplicate(),
            active: self.active,
        }
    }
}

/// A copy of a list of declared requirements.
pub fn duplicate_declared(ds: &Vec<Declared>) -> (r: Vec<Declared>)
    ensures
        declared_views(r@) == declared_views(ds@),
{
    let mut out: Vec<Declared> = Vec::new();
    let mut i: usize = 0;
    while i < ds.len()
        invariant
            i <= ds.len(),
            out.len() == i,
            forall|k: int| 0 <= k < i ==> (#[trigger] out[k])@ == ds[k]@,
        decreases ds.len() - i,
    {
        out.push(ds[i].duplicate());
        i += 1;
    }
    assert(declared_views(out@) =~= declared_views(ds@));
    out
}

/// The views of a list of declared requirements.
pub open spec fn declared_views(ds: Seq<Declared>) -> Seq<DeclaredView> {
    Seq::new(ds.len(), |i: int| ds[i]@)
}

/// The mathematical value of the metadata of one version.
pub struct MetadataView {
    pub requirements: Seq<DeclaredView>,
    pub extras: Seq<(Seq<char>, Seq<DeclaredView>)>,
    pub groups: Seq<(Seq<char>, Seq<DeclaredView>)>,
}

/// The metadata of one version of a package: what it requires, and what
/// each of its extras and dependency groups requires in addition.
#[derive(Debug)]
pub struct Metadata {
    pub requirements: Vec<Declared>,
    pub extras: Vec<(ExtraName, Vec<Declared>)>,
    pub groups: Vec<(GroupName, Vec<Declared>)>,
}

impl View for Metadata {
    type V = MetadataView;

    open spec fn view(&self) -> MetadataView {
        MetadataView {
            requirements: declared_views(self.requirements@),
            extras: Seq::new(
                self.extras.len() as nat,
                |i: int| (self.extras[i].0@, declared_views(self.extras[i].1@)),
            ),
            groups: Seq::new(
                self.groups.len() as nat,
                |i: int| (self.groups[i].0@, declared_views(self.groups[i].1@)),
            ),
        }
    }
}

impl Metadata {
    /// A copy of the metadata.
    pub fn duplicate(&self) -> (r: Metadata)
        ensures
            r@ == self@,
    {
        let requirements = duplicate_declared(&self.requirements);
        let mut extras: Vec<(ExtraName, Vec<Declared>)> = Vec::new();
        let mut i: usize = 0;
        while i < self.extras.len()
            invariant
                i <= self.extras.len(),
                extras.len() == i,
                forall|k: int|
                    0 <= k < i ==> (#[trigger] extras[k]).0@ == self.extras[k].0@ && declared_views(extras[k].1@)
                        == declared_views(self.extras[k].1@),
            decreases self.extras.len() - i,
        {
            extras.push((self.extras[i].0.duplicate(), duplicate_declared(&self.extras[i].1)));
            i += 1;
        }
        let mut groups: Vec<(GroupName, Vec<Declared>)> = Vec::new();
        let mut j: usize = 0;
        while j < self.groups.len()
            invariant
                j <= self.groups.len(),
                groups.len() == j,
                forall|k: int|
                    0 <= k < j ==> (#[trigger] groups[k]).0@ == self.groups[k].0@ && declared_views(groups[k].1@)
                        == declared_views(self.groups[k].1@),
            decreases self.groups.len() - j,
        {
            groups.push((self.groups[j].0.duplicate(), duplicate_declared(&self.groups[j].1)));
            j += 1;
        }
        let r = Metadata { requirements, extras, groups };
        assert(r@.extras =~= self@.extras);
        assert(r@.groups =~= self@.groups);
        r
    }
}

/// The value of metadata that may be missing.
pub open spec fn metadata_view(m: Option<Metadata>) -> Option<MetadataView> {
    match m {
        Some(x) => Some(x@),
        None => None,
    }
}

impl Clone for Metadata {
    fn clone(&self) -> (r: Metadata)
        ensures
            r@ == self@,
    {
        self.duplicate()
    }
}

/// Why a requirement is there.
pub enum TagView {
    /// The package itself declares it.
    Plain,
    /// This extra of the package declares it.
    Extra(Seq<char>),
    /// This dependency group of the package declares it.
    Group(Seq<char>),
    /// A package taken with an extra or a group requires the package taken
    /// plainly, at its own version.
    Pin,
}

/// Why a requirement is there.
#[derive(Debug)]
pub enum Tag {
    Plain,
    Extra(ExtraName),
    Group(GroupName),
    Pin,
}

impl View for Tag {
    type V = TagView;

    open spec fn view(&self) -> TagView {
        match self {
            Tag::Plain => TagView::Plain,
            Tag::Extra(e) => TagView::Extra(e@),
            Tag::Group(g) => TagView::Group(g@),
            Tag::Pin => TagView::Pin,
        }
    }
}

impl Tag {
    /// A copy of the tag.
    pub fn duplicate(&self) -> (r: Tag)
        ensures
            r@ == self@,
    {
        match self {
            Tag::Plain => Tag::Plain,
            Tag::Extra(e) => Tag::Extra(e.duplicate()),
            Tag::Group(g) => Tag::Group(g.duplicate()),
            Tag::Pin => Tag::Pin,
        }
    }
}

/// The mathematical value of a want.
pub struct WantView {
    pub key: PackageKeyView,
    pub versions: VersionSetView,
    pub tag: TagView,
}

/// What a package of the solver requires of another: the package, the
/// versions that will do, and why.
#[derive(Debug)]
pub struct Want {
    pub key: PackageKey,
    pub versions: VersionSet,
    pub tag: Tag,
}

impl View for Want {
    type V = WantView;

    open spec fn view(&self) -> WantView {
        WantView { key: self.key@, versions: self.versions@, tag: self.tag@ }
    }
}

/// The views of a list of wants.
pub open spec fn want_views(ws: Seq<Want>) -> Seq<WantView> {
    Seq::new(ws.len(), |i: int| ws[i]@)
}

/// The package taken with each of the extras, at the versions named.
pub open spec fn with_extras(d: DeclaredView, tag: TagView, upto: nat) -> Seq<WantView> {
    Seq::new(
        upto,
        |i: int|
            WantView {
                key: PackageKeyView { name: d.name, extra: Some(d.extras[i]), group: None },
                versions: d.versions,
                tag,
            },
    )
}

/// The package taken with each of the dependency groups, at the versions
/// named.
pub open spec fn with_groups(d: DeclaredView, tag: TagView, upto: nat) -> Seq<WantView> {
    Seq::new(
        upto,
        |i: int|
            WantView {
                key: PackageKeyView { name: d.name, extra: None, group: Some(d.groups[i]) },
                versions: d.versions,
                tag,
            },
    )
}

/// What one declared requirement asks for: nothing where it does not apply;
/// the package taken plainly where neither an extra nor a dependency group
/// is asked for; else the package taken with each extra that is asked for,
/// then the package taken with each group that is asked for. All at the
/// versions named.
pub open spec fn wants_of(d: DeclaredView, tag: TagView) -> Seq<WantView> {
    if !d.active {
        Seq::empty()
    } else if d.extras.len() == 0 && d.groups.len() == 0 {
        seq![WantView { key: PackageKeyView { name: d.name, extra: None, group: None }, versions: d.versions, tag }]
    } else {
        with_extras(d, tag, d.extras.len()) + with_groups(d, tag, d.groups.len())
    }
}

/// What a list of declared requirements asks for, in their order.
pub open spec fn wants_of_all(ds: Seq<DeclaredView>, tag: TagView) -> Seq<WantView>
    decreases ds.len(),
{
    if ds.len() == 0 {
        Seq::empty()
    } else {
        wants_of_all(ds.drop_last(), tag) + wants_of(ds.last(), tag)
    }
}

/// The requirements listed under the first entry of this name; none where
/// no entry has the name.
pub open spec fn listed_under(entries: Seq<(Seq<char>, Seq<DeclaredView>)>, name: Seq<char>) -> Seq<DeclaredView>
    decreases entries.len(),
{
    if entries.len() == 0 {
        Seq::empty()
    } else if entries.first().0 == name {
        entries.first().1
    } else {
        listed_under(entries.drop_first(), name)
    }
}

/// The set of the versions that are the same as `v`.
pub open spec fn only(v: Seq<char>) -> VersionSetView {
    VersionSet::higher_than_view(v).intersection(VersionSet::lower_than_view(v))
}

/// What a package of the solver requires at the version `version`, whose
/// metadata is `m`. Taken plainly it requires what the metadata declares.
/// Taken with an extra or a group it requires the package taken plainly at
/// that same version, what the metadata declares, and what the extra or the
/// group declares.
pub open spec fn wants(key: PackageKeyView, version: Seq<char>, m: MetadataView) -> Seq<WantView> {
    let plain = wants_of_all(m.requirements, TagView::Plain);
    let pin = seq![WantView { key: key.base(), versions: only(version), tag: TagView::Pin }];
    match (key.extra, key.group) {
        (Some(e), _) => pin + plain + wants_of_all(listed_under(m.extras, e), TagView::Extra(e)),
        (None, Some(g)) => pin + plain + wants_of_all(listed_under(m.groups, g), TagView::Group(g)),
        (None, None) => plain,
    }
}

/// Adds to `out` what one declared requirement asks for.
fn push_wants_of(out: &mut Vec<Want>, d: &Declared, tag: &Tag)
    ensures
        want_views(final(out)@) == want_views(old(out)@) + wants_of(d@, tag@),
{
    let ghost before = want_views(out@);
    if !d.active {
        assert(want_views(out@) =~= before + wants_of(d@, tag@));
        return ;
    }
    assert(d@.extras.len() == d.extras.len() && d@.groups.len() == d.groups.len());
    if d.extras.len() == 0 && d.groups.len() == 0 {
        out.push(
            Want { key: PackageKey::plain(d.name.duplicate()), versions: d.versions.duplicate(), tag: tag.duplicate() },
        );
        assert(want_views(out@) =~= before + wants_of(d@, tag@));
        return ;
    }
    let mut i: usize = 0;
    assert(want_views(out@) =~= before + with_extras(d@, tag@, 0));
    while i < d.extras.len()
        invariant
            i <= d.extras.len(),
            want_views(out@) == before + with_extras(d@, tag@, i as nat),
        decreases d.extras.len() - i,
    {
        let ghost was = want_views(out@);
        out.push(
            Want {
                key: PackageKey::with_extra(d.name.duplicate(), d.extras[i].duplicate()),
                versions: d.versions.duplicate(),
                tag: tag.duplicate(),
            },
        );
        assert(d@.extras[i as int] == d.extras[i as int]@);
        assert(want_views(out@) =~= was.push(out[out.len() - 1]@));
        i += 1;
        assert(want_views(out@) =~= before + with_extras(d@, tag@, i as nat));
    }
    let ghost mid = want_views(out@);
    let mut j: usize = 0;
    assert(want_views(out@) =~= mid + with_groups(d@, tag@, 0));
    while j < d.groups.len()
        invariant
            j <= d.groups.len(),
            want_views(out@) == mid + with_groups(d@, tag@, j as nat),
        decreases d.groups.len() - j,
    {
        let ghost was = want_views(out@);
        out.push(
            Want {
                key: PackageKey::with_group(d.name.duplicate(), d.groups[j].duplicate()),
                versions: d.versions.duplicate(),
                tag: tag.duplicate(),
            },
        );
        assert(d@.groups[j as int] == d.groups[j as int]@);
        assert(want_views(out@) =~= was.push(out[out.len() - 1]@));
        j += 1;
        assert(want_views(out@) =~= mid + with_groups(d@, tag@, j as nat));
    }
    assert(want_views(out@) =~= before + wants_of(d@, tag@));
}

/// Adds to `out` what a list of declared requirements asks for.
pub fn push_wants_of_all(out: &mut Vec<Want>, ds: &Vec<Declared>, tag: &Tag)
    ensures
        want_views(final(out)@) == want_views(old(out)@) + wants_of_all(declared_views(ds@), tag@),
{
    let ghost before = want_views(out@);
    let ghost all = declared_views(ds@);
    let mut i: usize = 0;
    assert(all.take(0) =~= Seq::empty());
    assert(want_views(out@) =~= before + wants_of_all(all.take(0), tag@));
    while i < ds.len()
        invariant
            i <= ds.len(),
            all == declared_views(ds@),
            want_views(out@) == before + wants_of_all(all.take(i as int), tag@),
        decreases ds.len() - i,
    {
        push_wants_of(out, &ds[i], tag);
        proof {
            let next = all.take(i + 1);
            assert(next.drop_last() =~= all.take(i as int));
            assert(next.last() == ds[i as int]@);
            assert(want_views(out@) =~= before + wants_of_all(next, tag@));
        }
        i += 1;
    }
    assert(all.take(ds.len() as int) =~= all);
}

/// The place of the first entry of this name among the extras.
fn find_extra(entries: &Vec<(ExtraName, Vec<Declared>)>, name: &ExtraName) -> (r: Option<usize>)
    ensures
        match r {
            Some(i) => i < entries.len() && listed_under(
                Seq::new(entries.len() as nat, |k: int| (entries[k].0@, declared_views(entries[k].1@))),
                name@,
            ) == declared_views(entries[i as int].1@),
            None => listed_under(
                Seq::new(entries.len() as nat, |k: int| (entries[k].0@, declared_views(entries[k].1@))),
                name@,
            ) == Seq::<DeclaredView>::empty(),
        },
{
    let ghost all = Seq::new(entries.len() as nat, |k: int| (entries[k].0@, declared_views(entries[k].1@)));
    let mut i: usize = 0;
    assert(all.skip(0) =~= all);
    while i < entries.len()
        invariant
            i <= entries.len(),
            all == Seq::new(entries.len() as nat, |k: int| (entries[k].0@, declared_views(entries[k].1@))),
            listed_under(all, name@) == listed_under(all.skip(i as int), name@),
        decreases entries.len() - i,
    {
        assert(all.skip(i as int).first() == all[i as int]);
        if entries[i].0.same(name) {
            return Some(i);
        }
        assert(all.skip(i as int).drop_first() =~= all.skip(i + 1));
        i += 1;
    }
    None
}

/// The place of the first entry of this name among the groups.
fn find_group(entries: &Vec<(GroupName, Vec<Declared>)>, name: &GroupName) -> (r: Option<usize>)
    ensures
        match r {
            Some(i) => i < entries.len() && listed_under(
                Seq::new(entries.len() as nat, |k: int| (entries[k].0@, declared_views(entries[k].1@))),
                name@,
            ) == declared_views(entries[i as int].1@),
            None => listed_under(
                Seq::new(entries.len() as nat, |k: int| (entries[k].0@, declared_views(entries[k].1@))),
                name@,
            ) == Seq::<DeclaredView>::empty(),
        },
{
    let ghost all = Seq::new(entries.len() as nat, |k: int| (entries[k].0@, declared_views(entries[k].1@)));
    let mut i: usize = 0;
    assert(all.skip(0) =~= all);
    while i < entries.len()
        invariant
            i <= entries.len(),
            all == Seq::new(entries.len() as nat, |k: int| (entries[k].0@, declared_views(entries[k].1@))),
            listed_under(all, name@) == listed_under(all.skip(i as int), name@),
        decreases entries.len() - i,
    {
        assert(all.skip(i as int).first() == all[i as int]);
        if entries[i].0.same(name) {
            return Some(i);
        }
        assert(all.skip(i as int).drop_first() =~= all.skip(i + 1));
        i += 1;
    }
    None
}

/// What the package `key` requires at the version `version`, whose metadata
/// is `m`.
pub fn expand(key: &PackageKey, version: &Version, m: &Metadata) -> (r: Vec<Want>)
    ensures
        want_views(r@) == wants(key@, version@, m@),
{
    let mut out: Vec<Want> = Vec::new();
    assert(want_views(out@) =~= Seq::empty());
    if !key.is_base() {
        out.push(
            Want { key: PackageKey::plain(key.name.duplicate()), versions: VersionSet::singleton(version), tag: Tag::Pin },
        );
    }
    let ghost pin = want_views(out@);
    push_wants_of_all(&mut out, &m.requirements, &Tag::Plain);
    match (&key.extra, &key.group) {
        (Some(e), _) => {
            let tag = Tag::Extra(e.duplicate());
            match find_extra(&m.extras, e) {
                Some(i) => {
                    push_wants_of_all(&mut out, &m.extras[i].1, &tag);
                },
                None => {
                    assert(wants_of_all(Seq::empty(), tag@) =~= Seq::empty());
                },
            }
            assert(want_views(out@) =~= wants(key@, version@, m@));
        },
        (None, Some(g)) => {
            let tag = Tag::Group(g.duplicate());
            match find_group(&m.groups, g) {
                Some(i) => {
                    push_wants_of_all(&mut out, &m.groups[i].1, &tag);
                },
                None => {
                    assert(wants_of_all(Seq::empty(), tag@) =~= Seq::empty());
                },
            }
            assert(want_views(out@) =~= wants(key@, version@, m@));
        },
        (None, None) => {
            assert(want_views(out@) =~= wants(key@, version@, m@));
        },
    }
    out
}

} // verus!
