//! The packages of a resolution run and their numbers.
//!
//! A package of the solver is a named package taken plainly, with one of
//! its extras, or with one of its dependency groups. The same name with and
//! without an extra are two packages.

use crate::names::{ExtraName, GroupName, PackageName};
use vstd::prelude::*;
use vstd::string::StringExecFns;

verus! {

/// The mathematical value of a package key.
pub struct PackageKeyView {
    pub name: Seq<char>,
    pub extra: Option<Seq<char>>,
    pub group: Option<Seq<char>>,
}

/// A named package, taken plainly or with an extra or a dependency group.
#[derive(Debug)]
pub struct PackageKey {
    pub name: PackageName,
    pub extra: Option<ExtraName>,
    pub group: Option<GroupName>,
}

/// The view of an optional extra.
pub open spec fn extra_view(e: Option<ExtraName>) -> Option<Seq<char>> {
    match e {
        Some(x) => Some(x@),
        None => None,
    }
}

/// The view of an optional dependency group.
pub open spec fn group_view(g: Option<GroupName>) -> Option<Seq<char>> {
    match g {
        Some(x) => Some(x@),
        None => None,
    }
}

/// A copy of an optional extra.
pub fn duplicate_extra(e: &Option<ExtraName>) -> (r: Option<ExtraName>)
    ensures
        extra_view(r) == extra_view(*e),
{
    match e {
        Some(x) => Some(x.duplicate()),
        None => None,
    }
}

/// A copy of an optional dependency group.
pub fn duplicate_group(g: &Option<GroupName>) -> (r: Option<GroupName>)
    ensures
        group_view(r) == group_view(*g),
{
    match g {
        Some(x) => Some(x.duplicate()),
        None => None,
    }
}

/// Whether both are the same extra, or both none.
pub fn same_extra(a: &Option<ExtraName>, b: &Option<ExtraName>) -> (r: bool)
    ensures
        r == (extra_view(*a) == extra_view(*b)),
{
    match (a, b) {
        (Some(x), Some(y)) => x.same(y),
        (None, None) => true,
        _ => false,
    }
}

/// Whether both are the same dependency group, or both none.
pub fn same_group(a: &Option<GroupName>, b: &Option<GroupName>) -> (r: bool)
    ensures
        r == (group_view(*a) == group_view(*b)),
{
    match (a, b) {
        (Some(x), Some(y)) => x.same(y),
        (None, None) => true,
        _ => false,
    }
}

impl View for PackageKey {
    type V = PackageKeyView;

    open spec fn view(&self) -> PackageKeyView {
        PackageKeyView { name: self.name@, extra: extra_view(self.extra), group: group_view(self.group) }
    }
}

impl PackageKeyView {
    /// Whether the package is taken plainly.
    pub open spec fn is_base(self) -> bool {
        self.extra is None && self.group is None
    }

    /// The same name, taken plainly.
    pub open spec fn base(self) -> PackageKeyView {
        PackageKeyView { name: self.name, extra: None, group: None }
    }

    /// The text that the package goes by: its name, then the extra in
    /// square brackets, then a colon and the group.
    pub open spec fn label(self) -> Seq<char> {
        let with_extra = match self.extra {
            Some(e) => self.name + "["@ + e + "]"@,
            None => self.name,
        };
        match self.group {
            Some(g) => with_extra + ":"@ + g,
            None => with_extra,
        }
    }
}

impl PackageKey {
    /// The package of this name, taken plainly.
    pub fn plain(name: PackageName) -> (r: PackageKey)
        ensures
            r@ == (PackageKeyView { name: name@, extra: None, group: None }),
    {
        PackageKey { name, extra: None, group: None }
    }

    /// The package of this name, taken with an extra.
    pub fn with_extra(name: PackageName, extra: ExtraName) -> (r: PackageKey)
        ensures
            r@ == (PackageKeyView { name: name@, extra: Some(extra@), group: None }),
    {
        PackageKey { name, extra: Some(extra), group: None }
    }

    /// The package of this name, taken with a dependency group.
    pub fn with_group(name: PackageName, group: GroupName) -> (r: PackageKey)
        ensures
            r@ == (PackageKeyView { name: name@, extra: None, group: Some(group@) }),
    {
        PackageKey { name, extra: None, group: Some(group) }
    }

    /// Whether the package is taken plainly.
    pub fn is_base(&self) -> (r: bool)
        ensures
            r == self@.is_base(),
    {
        self.extra.is_none() && self.group.is_none()
    }

    /// The text that the package goes by.
    pub fn label(&self) -> (r: String)
        ensures
            r@ == self@.label(),
    {
        let mut text = self.name.as_str().to_owned();
        match &self.extra {
            Some(e) => {
                text.append("[");
                text.append(e.as_str());
                text.append("]");
            },
            None => {},
        }
        match &self.group {
            Some(g) => {
                text.append(":");
                text.append(g.as_str());
            },
            None => {},
        }
        text
    }

    /// A copy of the key.
    pub fn duplicate(&self) -> (r: PackageKey)
        ensures
            r@ == self@,
    {
        PackageKey {
            name: self.name.duplicate(),
            extra: duplicate_extra(&self.extra),
            group: duplicate_group(&self.group),
        }
    }

    /// Whether both are the same package.
    pub fn same(&self, other: &PackageKey) -> (r: bool)
        ensures
            r == (self@ == other@),
    {
        self.name.same(&other.name) && same_extra(&self.extra, &other.extra) && same_group(
            &self.group,
            &other.group,
        )
    }
}

/// The views of a list of keys.
pub open spec fn key_views(keys: Seq<PackageKey>) -> Seq<PackageKeyView> {
    Seq::new(keys.len(), |i: int| keys[i]@)
}

/// No key occurs twice.
pub open spec fn keys_distinct(keys: Seq<PackageKeyView>) -> bool {
    forall|i: int, j: int| 0 <= i < j < keys.len() ==> #[trigger] keys[i] != #[trigger] keys[j]
}

/// The packages of a run: the number of a package is its place in the table.
#[derive(Debug)]
pub struct PackageTable {
    keys: Vec<PackageKey>,
}

impl View for PackageTable {
    type V = Seq<PackageKeyView>;

    closed spec fn view(&self) -> Seq<PackageKeyView> {
        key_views(self.keys@)
    }
}

impl PackageTable {
    /// No package is in the table twice.
    pub open spec fn wf(&self) -> bool {
        keys_distinct(self@)
    }

    /// The table without packages.
    pub fn new() -> (r: PackageTable)
        ensures
            r@ == Seq::<PackageKeyView>::empty(),
            r.wf(),
    {
        let r = PackageTable { keys: Vec::new() };
        assert(r@ =~= Seq::empty());
        r
    }

    /// The number of packages.
    pub fn len(&self) -> (r: usize)
        ensures
            r == self@.len(),
    {
        self.keys.len()
    }

    /// The package of number `p`.
    pub fn key(&self, p: usize) -> (r: &PackageKey)
        requires
            p < self@.len(),
        ensures
            r@ == self@[p as int],
    {
        &self.keys[p]
    }

    /// The number of the package, if it is in the table.
    pub fn find(&self, key: &PackageKey) -> (r: Option<usize>)
        ensures
            match r {
                Some(p) => p < self@.len() && self@[p as int] == key@,
                None => forall|i: int| 0 <= i < self@.len() ==> self@[i] != key@,
            },
    {
        let mut i: usize = 0;
        while i < self.keys.len()
            invariant
                i <= self.keys.len(),
                forall|j: int| 0 <= j < i ==> self@[j] != key@,
            decreases self.keys.len() - i,
        {
            if self.keys[i].same(key) {
                return Some(i);
            }
            i += 1;
        }
        None
    }

    /// The number of the package; it is put at the end of the table if it
    /// was not in it.
    pub fn intern(&mut self, key: PackageKey) -> (r: usize)
        requires
            old(self).wf(),
        ensures
            final(self).wf(),
            r < final(self)@.len(),
            final(self)@[r as int] == key@,
            final(self)@ == if exists|i: int| 0 <= i < old(self)@.len() && old(self)@[i] == key@ {
                old(self)@
            } else {
                old(self)@.push(key@)
            },
    {
        match self.find(&key) {
            Some(p) => p,
            None => {
                let r = self.keys.len();
                self.keys.push(key);
                assert(self@ =~= old(self)@.push(key@));
                r
            },
        }
    }
}

} // verus!
