//! The resolution graph: the pinned packages that the roots lead to, and
//! what requires what.
//!
//! The builder is handed pinned packages and links between them. It keeps
//! one node of each identity (the first that was handed in), leaves out the
//! links that only pin a package taken with an extra to the package taken
//! plainly, prunes the nodes that no walk from the root leads to, and
//! refuses a graph in which a build requirement lies on a cycle (or any
//! requirement, where that is asked for).

use crate::annotated::{lemma_same_key, same_key, AnnotatedDist, NodeKey};
use crate::metadata::{Tag, TagView};
use crate::reach::{as_ints, is_walk, linked, reached_from, reaches, search, Search};
use vstd::prelude::*;

verus! {

/// The mathematical value of a link.
pub struct LinkView {
    pub from: Option<int>,
    pub to: int,
    pub tag: TagView,
    pub build: bool,
}

/// A link of the graph: the requiring node (none: the root), the required
/// node, the extra or group that brings the requirement, and whether it is a
/// requirement at build time.
#[derive(Debug)]
pub struct Link {
    pub from: Option<usize>,
    pub to: usize,
    pub tag: Tag,
    pub build: bool,
}

impl View for Link {
    type V = LinkView;

    open spec fn view(&self) -> LinkView {
        LinkView {
            from: match self.from {
                Some(f) => Some(f as int),
                None => None,
            },
            to: self.to as int,
            tag: self.tag@,
            build: self.build,
        }
    }
}

/// The views of a list of links.
pub open spec fn link_views(ls: Seq<Link>) -> Seq<LinkView> {
    Seq::new(ls.len(), |i: int| ls[i]@)
}

/// The identities of a list of pinned packages.
pub open spec fn keys_of(ds: Seq<AnnotatedDist>) -> Seq<NodeKey> {
    Seq::new(ds.len(), |i: int| ds[i].key())
}

/// Whether a link counts: it names nodes that were handed in, and is no
/// pin.
pub open spec fn counts(n: int, l: LinkView) -> bool {
    &&& 0 <= l.to < n
    &&& l.from matches Some(f) ==> 0 <= f < n
    &&& !(l.tag is Pin)
}

/// The first place from `j` on, before `i`, with the identity of place `i`;
/// `i` itself where there is none.
pub open spec fn first_from(keys: Seq<NodeKey>, i: int, j: int) -> int
    decreases i - j,
{
    if j >= i {
        i
    } else if same_key(keys[j], keys[i]) {
        j
    } else {
        first_from(keys, i, j + 1)
    }
}

/// The first place with the identity of place `i`: the node that stands
/// for it.
pub open spec fn first_of(keys: Seq<NodeKey>, i: int) -> int {
    first_from(keys, i, 0)
}

/// The links between nodes that count, each from the node that stands for
/// its requiring package to the node that stands for its required one.
pub open spec fn inner_links(keys: Seq<NodeKey>, links: Seq<LinkView>) -> Seq<(usize, usize)>
    decreases links.len(),
{
    if links.len() == 0 {
        Seq::empty()
    } else {
        let rest = inner_links(keys, links.drop_last());
        let l = links.last();
        if counts(keys.len() as int, l) && l.from is Some {
            rest.push((first_of(keys, l.from->0) as usize, first_of(keys, l.to) as usize))
        } else {
            rest
        }
    }
}

/// The nodes that the root requires.
pub open spec fn root_targets(keys: Seq<NodeKey>, links: Seq<LinkView>) -> Seq<usize>
    decreases links.len(),
{
    if links.len() == 0 {
        Seq::empty()
    } else {
        let rest = root_targets(keys, links.drop_last());
        let l = links.last();
        if counts(keys.len() as int, l) && l.from is None {
            rest.push(first_of(keys, l.to) as usize)
        } else {
            rest
        }
    }
}

/// Whether a walk from the root leads to the node at place `i`.
pub open spec fn reached(keys: Seq<NodeKey>, links: Seq<LinkView>, i: int) -> bool {
    reached_from(keys.len() as int, inner_links(keys, links), root_targets(keys, links), i)
}

/// Whether place `i` becomes a node of the graph: it is the first of its
/// identity, and a walk from the root leads to it.
pub open spec fn kept(keys: Seq<NodeKey>, links: Seq<LinkView>, i: int) -> bool {
    first_of(keys, i) == i && reached(keys, links, i)
}

/// The places below `upto` that become nodes, in their order.
pub open spec fn kept_places(keys: Seq<NodeKey>, links: Seq<LinkView>, upto: int) -> Seq<int>
    decreases upto,
{
    if upto <= 0 {
        Seq::empty()
    } else {
        let before = kept_places(keys, links, upto - 1);
        if kept(keys, links, upto - 1) {
            before.push(upto - 1)
        } else {
            before
        }
    }
}

/// Whether a link becomes an edge of the graph: it counts, and the root or
/// a node of the graph requires.
pub open spec fn survives(keys: Seq<NodeKey>, links: Seq<LinkView>, l: LinkView) -> bool {
    &&& counts(keys.len() as int, l)
    &&& l.from matches Some(f) ==> reached(keys, links, first_of(keys, f))
}

/// The numbers of the first `upto` links that become edges, in their order.
pub open spec fn surviving(keys: Seq<NodeKey>, links: Seq<LinkView>, upto: int) -> Seq<int>
    decreases upto,
{
    if upto <= 0 {
        Seq::empty()
    } else {
        let before = surviving(keys, links, upto - 1);
        if survives(keys, links, links[upto - 1]) {
            before.push(upto - 1)
        } else {
            before
        }
    }
}

/// Which cycles are an error.
#[derive(Debug, Clone, Copy, PartialEq, Eq, Structural)]
pub enum Cycles {
    /// A cycle is an error where a requirement at build time lies on it;
    /// packages that only need each other at run time can be installed
    /// together.
    AllowRuntime,
    /// Every cycle is an error.
    Forbid,
}

/// Whether a link may not lie on a cycle under the policy.
pub open spec fn ordered(l: LinkView, cycles: Cycles) -> bool {
    l.build || cycles == Cycles::Forbid
}

/// Whether there is a cycle that the policy forbids: some link that becomes
/// an edge may not lie on a cycle, and a walk leads back from the required
/// node to the requiring one.
pub open spec fn build_cycle(keys: Seq<NodeKey>, links: Seq<LinkView>, cycles: Cycles) -> bool {
    exists|k: int| 0 <= k < links.len() && build_cycle_at(keys, links, cycles, k)
}

/// Whether the link of number `k` lies on a cycle that the policy forbids.
pub open spec fn build_cycle_at(keys: Seq<NodeKey>, links: Seq<LinkView>, cycles: Cycles, k: int) -> bool {
    let l = links[k];
    &&& survives(keys, links, l)
    &&& ordered(l, cycles)
    &&& l.from is Some
    &&& reaches(keys.len() as int, inner_links(keys, links), first_of(keys, l.to), first_of(keys, l.from->0))
}

/// The first place with the identity of `i` has that identity, is not after
/// `i`, and no place before it has the identity.
pub proof fn lemma_first_from(keys: Seq<NodeKey>, i: int, j: int)
    requires
        0 <= j <= i < keys.len(),
        forall|m: int| 0 <= m < j ==> !same_key(#[trigger] keys[m], keys[i]),
    ensures
        j <= first_from(keys, i, j) <= i,
        same_key(keys[first_from(keys, i, j)], keys[i]),
        forall|m: int| 0 <= m < first_from(keys, i, j) ==> !same_key(#[trigger] keys[m], keys[i]),
        first_of(keys, i) == first_from(keys, i, j),
        first_of(keys, first_from(keys, i, j)) == first_from(keys, i, j),
    decreases i - j,
{
    lemma_first_is(keys, i, j, 0);
    if j < i && !same_key(keys[j], keys[i]) {
        lemma_first_from(keys, i, j + 1);
    } else {
        let f = first_from(keys, i, j);
        lemma_same_key(keys[f], keys[f], keys[i]);
        assert forall|m: int| 0 <= m < f implies !same_key(#[trigger] keys[m], keys[f]) by {
            lemma_same_key(keys[m], keys[f], keys[i]);
        }
        lemma_first_is(keys, f, f, 0);
    }
}

/// Scanning from any place below one without the identity of `i` before it
/// gives the same first place.
proof fn lemma_first_is(keys: Seq<NodeKey>, i: int, j: int, from: int)
    requires
        0 <= from <= j <= i < keys.len(),
        forall|m: int| from <= m < j ==> !same_key(#[trigger] keys[m], keys[i]),
    ensures
        first_from(keys, i, from) == first_from(keys, i, j),
    decreases j - from,
{
    if from < j {
        lemma_first_is(keys, i, j, from + 1);
    }
}

/// The node that stands for each place.
fn firsts(dists: &Vec<AnnotatedDist>) -> (r: Vec<usize>)
    ensures
        r.len() == dists.len(),
        forall|i: int| 0 <= i < r.len() ==> #[trigger] r[i] == first_of(keys_of(dists@), i),
        forall|i: int| 0 <= i < r.len() ==> (#[trigger] r[i]) <= i && first_of(keys_of(dists@), r[i] as int) == r[i],
{
    let ghost keys = keys_of(dists@);
    let mut r: Vec<usize> = Vec::new();
    let mut i: usize = 0;
    while i < dists.len()
        invariant
            i <= dists.len(),
            keys == keys_of(dists@),
            r.len() == i,
            forall|k: int| 0 <= k < i ==> #[trigger] r[k] == first_of(keys, k),
            forall|k: int| 0 <= k < i ==> (#[trigger] r[k]) <= k && first_of(keys, r[k] as int) == r[k],
        decreases dists.len() - i,
    {
        let mut j: usize = 0;
        while j < i && !dists[j].same_node(&dists[i])
            invariant
                j <= i,
                i < dists.len(),
                keys == keys_of(dists@),
                forall|m: int| 0 <= m < j ==> !same_key(#[trigger] keys[m], keys[i as int]),
            decreases i - j,
        {
            j += 1;
        }
        proof {
            lemma_first_from(keys, i as int, j as int);
        }
        r.push(j);
        i += 1;
    }
    r
}


/// Whether the link counts.
fn link_counts(n: usize, l: &Link) -> (r: bool)
    ensures
        r == counts(n as int, l@),
{
    let from_ok = match l.from {
        Some(f) => f < n,
        None => true,
    };
    let pin = match &l.tag {
        Tag::Pin => true,
        _ => false,
    };
    l.to < n && from_ok && !pin
}

/// The links between nodes and the targets of the root, over the nodes
/// that stand for the places named.
fn sort_links(dists: &Vec<AnnotatedDist>, first: &Vec<usize>, links: &Vec<Link>) -> (r: (
    Vec<(usize, usize)>,
    Vec<usize>,
))
    requires
        first.len() == dists.len(),
        forall|i: int| 0 <= i < first.len() ==> #[trigger] first[i] == first_of(keys_of(dists@), i),
    ensures
        r.0@ == inner_links(keys_of(dists@), link_views(links@)),
        r.1@ == root_targets(keys_of(dists@), link_views(links@)),
{
    let ghost keys = keys_of(dists@);
    let ghost all = link_views(links@);
    let n = dists.len();
    let mut inner: Vec<(usize, usize)> = Vec::new();
    let mut starts: Vec<usize> = Vec::new();
    let mut k: usize = 0;
    assert(all.take(0) =~= Seq::empty());
    while k < links.len()
        invariant
            k <= links.len(),
            n == dists.len(),
            keys == keys_of(dists@),
            all == link_views(links@),
            first.len() == n,
            forall|i: int| 0 <= i < first.len() ==> #[trigger] first[i] == first_of(keys, i),
            inner@ == inner_links(keys, all.take(k as int)),
            starts@ == root_targets(keys, all.take(k as int)),
        decreases links.len() - k,
    {
        let l = &links[k];
        proof {
            let next = all.take(k + 1);
            assert(next.drop_last() =~= all.take(k as int));
            assert(next.last() == l@);
        }
        if link_counts(n, l) {
            match l.from {
                Some(f) => {
                    inner.push((first[f], first[l.to]));
                },
                None => {
                    starts.push(first[l.to]);
                },
            }
        }
        k += 1;
    }
    assert(all.take(links.len() as int) =~= all);
    (inner, starts)
}

/// A link between nodes that counts is among the inner links.
proof fn lemma_inner_link(keys: Seq<NodeKey>, links: Seq<LinkView>, k: int)
    requires
        keys.len() <= usize::MAX,
        0 <= k < links.len(),
        counts(keys.len() as int, links[k]),
        links[k].from is Some,
    ensures
        linked(
            keys.len() as int,
            inner_links(keys, links),
            first_of(keys, links[k].from->0),
            first_of(keys, links[k].to),
        ),
    decreases links.len(),
{
    let n = keys.len() as int;
    let f = links[k].from->0;
    let t = links[k].to;
    lemma_first_from(keys, f, 0);
    lemma_first_from(keys, t, 0);
    let all = inner_links(keys, links);
    let rest = inner_links(keys, links.drop_last());
    if k == links.len() - 1 {
        assert(all == rest.push((first_of(keys, f) as usize, first_of(keys, t) as usize)));
        assert(all[all.len() - 1] == (first_of(keys, f) as usize, first_of(keys, t) as usize));
    } else {
        assert(links.drop_last()[k] == links[k]);
        lemma_inner_link(keys, links.drop_last(), k);
        let e = choose|e: int|
            0 <= e < rest.len() && (#[trigger] rest[e]).0 == first_of(keys, f) && rest[e].1 == first_of(keys, t);
        assert(all[e] == rest[e]);
    }
}

/// What the root requires is among the targets of the root.
proof fn lemma_root_target(keys: Seq<NodeKey>, links: Seq<LinkView>, k: int)
    requires
        keys.len() <= usize::MAX,
        0 <= k < links.len(),
        counts(keys.len() as int, links[k]),
        links[k].from is None,
    ensures
        exists|s: int|
            0 <= s < root_targets(keys, links).len() && #[trigger] root_targets(keys, links)[s] == first_of(
                keys,
                links[k].to,
            ),
    decreases links.len(),
{
    let t = links[k].to;
    lemma_first_from(keys, t, 0);
    let all = root_targets(keys, links);
    let rest = root_targets(keys, links.drop_last());
    if k == links.len() - 1 {
        assert(all == rest.push(first_of(keys, t) as usize));
        assert(all[all.len() - 1] == first_of(keys, t));
    } else {
        assert(links.drop_last()[k] == links[k]);
        lemma_root_target(keys, links.drop_last(), k);
        let s = choose|s: int| 0 <= s < rest.len() && #[trigger] rest[s] == first_of(keys, t);
        assert(all[s] == rest[s]);
    }
}

/// What a link that becomes an edge requires is a node of the graph.
pub proof fn lemma_edge_target_kept(keys: Seq<NodeKey>, links: Seq<LinkView>, k: int)
    requires
        keys.len() <= usize::MAX,
        0 <= k < links.len(),
        survives(keys, links, links[k]),
    ensures
        kept(keys, links, first_of(keys, links[k].to)),
        links[k].from matches Some(f) ==> kept(keys, links, first_of(keys, f)),
{
    let n = keys.len() as int;
    let l = links[k];
    let t = first_of(keys, l.to);
    lemma_first_from(keys, l.to, 0);
    let inner = inner_links(keys, links);
    let starts = root_targets(keys, links);
    match l.from {
        None => {
            lemma_root_target(keys, links, k);
            let s = choose|s: int| 0 <= s < starts.len() && #[trigger] starts[s] == t;
            crate::reach::lemma_reaches_itself(n, inner, t);
            assert(reaches(n, inner, starts[s] as int, t));
        },
        Some(f) => {
            lemma_first_from(keys, f, 0);
            let u = first_of(keys, f);
            lemma_inner_link(keys, links, k);
            let s = choose|s: int| 0 <= s < starts.len() && reaches(n, inner, #[trigger] starts[s] as int, u);
            crate::reach::lemma_walk_on(n, inner, starts[s] as int, u, t);
            assert(reaches(n, inner, starts[s] as int, t));
        },
    }
}


/// Whether the walk `w` closes a cycle through the link of number `k`: the
/// link becomes an edge and may not lie on a cycle, and the walk leads from
/// the node it requires back to the node that requires.
pub open spec fn cycle_through(keys: Seq<NodeKey>, links: Seq<LinkView>, cycles: Cycles, k: int, w: Seq<int>) -> bool {
    &&& 0 <= k < links.len()
    &&& survives(keys, links, links[k])
    &&& ordered(links[k], cycles)
    &&& links[k].from is Some
    &&& is_walk(keys.len() as int, inner_links(keys, links), w)
    &&& w.first() == first_of(keys, links[k].to)
    &&& w.last() == first_of(keys, links[k].from->0)
}

/// Looks for a link on a cycle that the policy forbids, and gives the
/// number of the first such link with a walk that closes the cycle.
fn find_cycle(
    dists: &Vec<AnnotatedDist>,
    first: &Vec<usize>,
    links: &Vec<Link>,
    inner: &Vec<(usize, usize)>,
    marks: &Search,
    cycles: Cycles,
) -> (r: Option<(usize, Vec<usize>)>)
    requires
        first.len() == dists.len(),
        forall|i: int| 0 <= i < first.len() ==> #[trigger] first[i] == first_of(keys_of(dists@), i),
        inner@ == inner_links(keys_of(dists@), link_views(links@)),
        marks.found().len() == dists.len(),
        forall|x: int|
            0 <= x < dists.len() ==> (#[trigger] marks.found()[x] <==> reached(
                keys_of(dists@),
                link_views(links@),
                x,
            )),
    ensures
        match r {
            None => !build_cycle(keys_of(dists@), link_views(links@), cycles),
            Some((k, w)) => cycle_through(keys_of(dists@), link_views(links@), cycles, k as int, as_ints(w@)),
        },
{
    let ghost keys = keys_of(dists@);
    let ghost all = link_views(links@);
    let n = dists.len();
    let mut k: usize = 0;
    while k < links.len()
        invariant
            k <= links.len(),
            n == dists.len(),
            keys == keys_of(dists@),
            all == link_views(links@),
            first.len() == n,
            forall|i: int| 0 <= i < first.len() ==> #[trigger] first[i] == first_of(keys, i),
            inner@ == inner_links(keys, all),
            marks.found().len() == n,
            forall|x: int| 0 <= x < n ==> (#[trigger] marks.found()[x] <==> reached(keys, all, x)),
            forall|j: int| 0 <= j < k ==> !build_cycle_at(keys, all, cycles, j),
        decreases links.len() - k,
    {
        let l = &links[k];
        assert(all[k as int] == l@);
        if link_counts(n, l) && (l.build || cycles == Cycles::Forbid) {
            match l.from {
                None => {},
                Some(f) => {
                    let u = first[f];
                    let v = first[l.to];
                    proof {
                        lemma_first_from(keys, f as int, 0);
                        lemma_first_from(keys, l.to as int, 0);
                    }
                    if marks.is_found(u) {
                        let mut from: Vec<usize> = Vec::new();
                        from.push(v);
                        let back = search(n, inner, &from);
                        if back.is_found(u) {
                            let w = back.walk_to(u);
                            proof {
                                let s = choose|s: int| 0 <= s < from@.len() && #[trigger] from@[s] == w[0] as int;
                                assert(as_ints(w@).first() == v);
                                assert(as_ints(w@).last() == u);
                            }
                            return Some((k, w));
                        } else {
                            proof {
                                if reaches(n as int, inner@, v as int, u as int) {
                                    assert(reaches(n as int, inner@, from@[0] as int, u as int));
                                    assert(reached_from(n as int, inner@, from@, u as int));
                                }
                            }
                        }
                    }
                },
            }
        }
        k += 1;
    }
    None
}

/// The places that become nodes are in rising order and below `upto`.
proof fn lemma_kept_places(keys: Seq<NodeKey>, links: Seq<LinkView>, upto: int)
    requires
        0 <= upto,
    ensures
        kept_places(keys, links, upto).len() <= upto,
        forall|t: int|
            0 <= t < kept_places(keys, links, upto).len() ==> 0 <= (#[trigger] kept_places(keys, links, upto)[t])
                < upto && kept(keys, links, kept_places(keys, links, upto)[t]),
        forall|s: int, t: int|
            0 <= s < t < kept_places(keys, links, upto).len() ==> (#[trigger] kept_places(keys, links, upto)[s]) < (
            #[trigger] kept_places(keys, links, upto)[t]),
    decreases upto,
{
    if upto > 0 {
        lemma_kept_places(keys, links, upto - 1);
    }
}

/// Numbers the nodes: the places that become nodes in their order, and for
/// each such place its number.
fn place_nodes(dists: &Vec<AnnotatedDist>, first: &Vec<usize>, links: &Vec<Link>, marks: &Search) -> (r: (
    Vec<usize>,
    Vec<usize>,
))
    requires
        first.len() == dists.len(),
        forall|i: int| 0 <= i < first.len() ==> #[trigger] first[i] == first_of(keys_of(dists@), i),
        marks.found().len() == dists.len(),
        forall|x: int|
            0 <= x < dists.len() ==> (#[trigger] marks.found()[x] <==> reached(
                keys_of(dists@),
                link_views(links@),
                x,
            )),
    ensures
        as_ints(r.0@) == kept_places(keys_of(dists@), link_views(links@), dists.len() as int),
        r.1.len() == dists.len(),
        forall|x: int|
            0 <= x < dists.len() && kept(keys_of(dists@), link_views(links@), x) ==> (#[trigger] r.1[x]) < r.0.len()
                && r.0[r.1[x] as int] == x,
{
    let ghost keys = keys_of(dists@);
    let ghost all = link_views(links@);
    let n = dists.len();
    let mut origin: Vec<usize> = Vec::new();
    let mut pos: Vec<usize> = Vec::new();
    let mut i: usize = 0;
    assert(as_ints(origin@) =~= kept_places(keys, all, 0));
    while i < n
        invariant
            i <= n,
            n == dists.len(),
            keys == keys_of(dists@),
            all == link_views(links@),
            first.len() == n,
            forall|x: int| 0 <= x < first.len() ==> #[trigger] first[x] == first_of(keys, x),
            marks.found().len() == n,
            forall|x: int| 0 <= x < n ==> (#[trigger] marks.found()[x] <==> reached(keys, all, x)),
            as_ints(origin@) == kept_places(keys, all, i as int),
            pos.len() == i,
            forall|x: int| 0 <= x < i && kept(keys, all, x) ==> (#[trigger] pos[x]) < origin.len() && origin[pos[x] as int] == x,
        decreases n - i,
    {
        proof {
            lemma_kept_places(keys, all, i as int);
        }
        if first[i] == i && marks.is_found(i) {
            pos.push(origin.len());
            origin.push(i);
            assert(as_ints(origin@) =~= kept_places(keys, all, i as int).push(i as int));
        } else {
            pos.push(0);
        }
        i += 1;
    }
    (origin, pos)
}

/// Takes out of `dists` the pinned packages at the places given, which
/// rise, in their order.
fn take_nodes(dists: Vec<AnnotatedDist>, origin: &Vec<usize>) -> (r: Vec<AnnotatedDist>)
    requires
        forall|t: int| 0 <= t < origin.len() ==> (#[trigger] origin[t]) < dists.len(),
        forall|s: int, t: int| 0 <= s < t < origin.len() ==> (#[trigger] origin[s]) < (#[trigger] origin[t]),
    ensures
        r.len() == origin.len(),
        forall|t: int| 0 <= t < r.len() ==> #[trigger] r[t] == dists[origin[t] as int],
{
    let ghost all = dists@;
    let mut left = dists;
    let mut rev: Vec<AnnotatedDist> = Vec::new();
    let mut t: usize = origin.len();
    let mut i: usize = left.len();
    while i > 0
        invariant
            i == left.len(),
            left@ == all.take(i as int),
            i <= all.len(),
            t <= origin.len(),
            rev.len() == origin.len() - t,
            forall|q: int| 0 <= q < origin.len() ==> (#[trigger] origin[q]) < all.len(),
            forall|p: int, q: int| 0 <= p < q < origin.len() ==> (#[trigger] origin[p]) < (#[trigger] origin[q]),
            forall|q: int| 0 <= q < t ==> (#[trigger] origin[q]) < i,
            forall|q: int| t <= q < origin.len() ==> (#[trigger] origin[q]) >= i,
            forall|j: int| 0 <= j < rev.len() ==> #[trigger] rev[j] == all[origin[origin.len() - 1 - j] as int],
        decreases i,
    {
        let d = left.pop().unwrap();
        i -= 1;
        assert(left@ =~= all.take(i as int));
        assert(d == all[i as int]);
        if t > 0 && origin[t - 1] == i {
            rev.push(d);
            t -= 1;
        }
    }
    assert(t == 0) by {
        if t > 0 {
            assert(origin[t - 1] < 0);
        }
    }
    let mut nodes: Vec<AnnotatedDist> = Vec::new();
    let ghost back = rev@;
    let mut k: usize = rev.len();
    while k > 0
        invariant
            k == rev.len(),
            rev@ == back.take(k as int),
            k <= back.len(),
            back.len() == origin.len(),
            nodes.len() == back.len() - k,
            forall|j: int| 0 <= j < back.len() ==> #[trigger] back[j] == all[origin[origin.len() - 1 - j] as int],
            forall|j: int| 0 <= j < nodes.len() ==> #[trigger] nodes[j] == all[origin[j] as int],
        decreases k,
    {
        let d = rev.pop().unwrap();
        k -= 1;
        assert(rev@ =~= back.take(k as int));
        assert(d == back[k as int]);
        nodes.push(d);
    }
    nodes
}

/// Whether the edge `e` is what the link `l` becomes: it keeps the tag and
/// the kind, and joins the nodes that stand for the places that `l` names.
pub open spec fn edge_matches(keys: Seq<NodeKey>, origin: Seq<int>, l: LinkView, e: LinkView) -> bool {
    &&& e.tag == l.tag
    &&& e.build == l.build
    &&& 0 <= e.to < origin.len()
    &&& origin[e.to] == first_of(keys, l.to)
    &&& match l.from {
        None => e.from is None,
        Some(f) => e.from matches Some(g) && 0 <= g < origin.len() && origin[g] == first_of(keys, f),
    }
}

/// Makes the edges: each link that becomes an edge, between the numbers of
/// the nodes.
fn make_edges(
    dists: Ghost<Seq<AnnotatedDist>>,
    n: usize,
    first: &Vec<usize>,
    links: &Vec<Link>,
    marks: &Search,
    origin: &Vec<usize>,
    pos: &Vec<usize>,
) -> (r: Vec<Link>)
    requires
        n == dists@.len(),
        first.len() == n,
        forall|i: int| 0 <= i < first.len() ==> #[trigger] first[i] == first_of(keys_of(dists@), i),
        marks.found().len() == n,
        forall|x: int|
            0 <= x < n ==> (#[trigger] marks.found()[x] <==> reached(keys_of(dists@), link_views(links@), x)),
        pos.len() == n,
        forall|x: int|
            0 <= x < n && kept(keys_of(dists@), link_views(links@), x) ==> (#[trigger] pos[x]) < origin.len()
                && origin[pos[x] as int] == x,
    ensures
        link_views(r@).len() == surviving(keys_of(dists@), link_views(links@), links.len() as int).len(),
        forall|e: int|
            0 <= e < r.len() ==> edge_matches(
                keys_of(dists@),
                as_ints(origin@),
                link_views(links@)[surviving(keys_of(dists@), link_views(links@), links.len() as int)[e]],
                #[trigger] link_views(r@)[e],
            ),
{
    let ghost keys = keys_of(dists@);
    let ghost all = link_views(links@);
    let mut edges: Vec<Link> = Vec::new();
    let mut k: usize = 0;
    while k < links.len()
        invariant
            k <= links.len(),
            n == dists@.len(),
            keys == keys_of(dists@),
            all == link_views(links@),
            first.len() == n,
            forall|i: int| 0 <= i < first.len() ==> #[trigger] first[i] == first_of(keys, i),
            marks.found().len() == n,
            forall|x: int| 0 <= x < n ==> (#[trigger] marks.found()[x] <==> reached(keys, all, x)),
            pos.len() == n,
            forall|x: int| 0 <= x < n && kept(keys, all, x) ==> (#[trigger] pos[x]) < origin.len() && origin[pos[x] as int] == x,
            edges.len() == surviving(keys, all, k as int).len(),
            forall|j: int| 0 <= j < surviving(keys, all, k as int).len() ==> 0 <= #[trigger] surviving(keys, all, k as int)[j] < k,
            forall|e: int|
                0 <= e < edges.len() ==> edge_matches(
                    keys,
                    as_ints(origin@),
                    all[surviving(keys, all, k as int)[e]],
                    #[trigger] link_views(edges@)[e],
                ),
        decreases links.len() - k,
    {
        let l = &links[k];
        assert(all[k as int] == l@);
        let ghost before = surviving(keys, all, k as int);
        let ghost had = link_views(edges@);
        let live = link_counts(n, l) && match l.from {
            Some(f) => marks.is_found(first[f]),
            None => true,
        };
        proof {
            if let Some(f) = l.from {
                if f < n {
                    lemma_first_from(keys, f as int, 0);
                }
            }
            assert(live == survives(keys, all, all[k as int]));
        }
        if live {
            proof {
                lemma_edge_target_kept(keys, all, k as int);
                lemma_first_from(keys, l.to as int, 0);
            }
            let from = match l.from {
                Some(f) => Some(pos[first[f]]),
                None => None,
            };
            let edge = Link { from, to: pos[first[l.to]], tag: l.tag.duplicate(), build: l.build };
            assert(edge_matches(keys, as_ints(origin@), all[k as int], edge@));
            edges.push(edge);
            proof {
                let now = surviving(keys, all, k + 1);
                assert(now == before.push(k as int));
                assert forall|e: int| 0 <= e < edges.len() implies edge_matches(
                    keys,
                    as_ints(origin@),
                    all[now[e]],
                    #[trigger] link_views(edges@)[e],
                ) by {
                    if e < had.len() {
                        assert(link_views(edges@)[e] == had[e]);
                        assert(now[e] == before[e]);
                    }
                }
            }
        }
        k += 1;
    }
    edges
}


/// A cycle that is an error: the number of the link that may not lie on a
/// cycle, the places of the cycle from the node that is required back to
/// the node that requires, and the names of the packages at these places.
#[derive(Debug)]
pub struct CycleError {
    pub link: usize,
    pub places: Vec<usize>,
    pub packages: Vec<String>,
}

/// The resolution graph.
#[derive(Debug)]
pub struct ResolutionGraph {
    nodes: Vec<AnnotatedDist>,
    edges: Vec<Link>,
    origin: Vec<usize>,
}

/// A place as a number, or none for the root.
pub open spec fn place_view(place: Option<usize>) -> Option<int> {
    match place {
        Some(f) => Some(f as int),
        None => None,
    }
}

/// Whether an edge leads from the place `from` to the node `to`.
pub open spec fn leads(edges: Seq<LinkView>, from: Option<int>, to: int) -> bool {
    exists|e: int| 0 <= e < edges.len() && (#[trigger] edges[e]).from == from && edges[e].to == to
}

/// A place in the graph: the root, which stands for the requirements that
/// were to be resolved, or a pinned package.
#[derive(Debug)]
pub enum ResolutionGraphNode<'a> {
    Root,
    Dist(&'a AnnotatedDist),
}

/// The numbers of the edges below `upto` that leave `from` (none: the
/// root), in their order.
pub open spec fn leaving(edges: Seq<LinkView>, from: Option<int>, upto: int) -> Seq<int>
    decreases upto,
{
    if upto <= 0 {
        Seq::empty()
    } else if upto <= edges.len() && edges[upto - 1].from == from {
        leaving(edges, from, upto - 1).push(upto - 1)
    } else {
        leaving(edges, from, upto - 1)
    }
}

/// The nodes that the edges of these numbers lead to, edge by edge.
pub open spec fn targets(edges: Seq<LinkView>, numbers: Seq<int>) -> Seq<int> {
    Seq::new(numbers.len(), |k: int| edges[numbers[k]].to)
}

impl ResolutionGraph {
    /// Every edge joins nodes of the graph.
    #[verifier::type_invariant]
    pub closed spec fn wf(&self) -> bool {
        &&& self.origin.len() == self.nodes.len()
        &&& forall|e: int|
            0 <= e < self.edges.len() ==> (#[trigger] self.edges[e]).to < self.nodes.len() && (self.edges[e].from matches Some(
                f,
            ) ==> f < self.nodes.len())
    }

    /// The nodes.
    pub closed spec fn nodes(&self) -> Seq<AnnotatedDist> {
        self.nodes@
    }

    /// The edges, between the numbers of the nodes.
    pub closed spec fn edges(&self) -> Seq<LinkView> {
        link_views(self.edges@)
    }

    /// For each node, the place at which it was handed in.
    pub closed spec fn origin(&self) -> Seq<int> {
        as_ints(self.origin@)
    }

    /// The number of nodes.
    pub fn node_count(&self) -> (r: usize)
        ensures
            r == self.nodes().len(),
    {
        self.nodes.len()
    }

    /// The node of number `i`.
    pub fn node(&self, i: usize) -> (r: &AnnotatedDist)
        requires
            i < self.nodes().len(),
        ensures
            *r == self.nodes()[i as int],
    {
        &self.nodes[i]
    }

    /// The number of edges.
    pub fn edge_count(&self) -> (r: usize)
        ensures
            r == self.edges().len(),
    {
        self.edges.len()
    }

    /// The edge of number `e`.
    pub fn edge(&self, e: usize) -> (r: &Link)
        requires
            e < self.edges().len(),
        ensures
            r@ == self.edges()[e as int],
            r.to < self.nodes().len(),
            r.from matches Some(f) ==> f < self.nodes().len(),
    {
        proof {
            use_type_invariant(self);
        }
        &self.edges[e]
    }

    /// What is at a place: the root at none, a pinned package at the number
    /// of a node, nothing at any other number.
    pub fn at(&self, place: Option<usize>) -> (r: Option<ResolutionGraphNode<'_>>)
        ensures
            match place {
                None => r matches Some(ResolutionGraphNode::Root),
                Some(i) => if i < self.nodes().len() {
                    r matches Some(ResolutionGraphNode::Dist(d)) && *d == self.nodes()[i as int]
                } else {
                    r is None
                },
            },
    {
        match place {
            None => Some(ResolutionGraphNode::Root),
            Some(i) => if i < self.nodes.len() {
                Some(ResolutionGraphNode::Dist(&self.nodes[i]))
            } else {
                None
            },
        }
    }

    /// The nodes that the node `from` (none: the root) requires, one for
    /// each edge that leaves it, in the order of the edges.
    pub fn children_of(&self, from: Option<usize>) -> (r: Vec<usize>)
        ensures
            as_ints(r@) == targets(
                self.edges(),
                leaving(self.edges(), place_view(from), self.edges().len() as int),
            ),
            forall|k: int|
                0 <= k < r.len() ==> (#[trigger] r[k]) < self.nodes().len() && leads(
                    self.edges(),
                    place_view(from),
                    r[k] as int,
                ),
            forall|to: int|
                #[trigger] leads(self.edges(), place_view(from), to) ==> exists|k: int|
                    0 <= k < r.len() && #[trigger] r[k] == to,
    {
        let ghost want = place_view(from);
        let leaving = self.edges_from(from);
        let mut r: Vec<usize> = Vec::new();
        let mut k: usize = 0;
        while k < leaving.len()
            invariant
                k <= leaving.len(),
                r.len() == k,
                forall|j: int| 0 <= j < leaving.len() ==> (#[trigger] leaving[j]) < self.edges().len(),
                forall|j: int| 0 <= j < k ==> #[trigger] r[j] == self.edges()[leaving[j] as int].to,
                forall|j: int| 0 <= j < k ==> (#[trigger] r[j]) < self.nodes().len(),
            decreases leaving.len() - k,
        {
            let edge = self.edge(leaving[k]);
            r.push(edge.to);
            k += 1;
        }
        proof {
            assert(as_ints(r@) =~= targets(self.edges(), as_ints(leaving@)));
            assert forall|j: int| 0 <= j < r.len() implies leads(self.edges(), want, (#[trigger] r[j]) as int) by {
                let e = leaving[j] as int;
                assert(self.edges()[e].to == r[j] && self.edges()[e].from == want);
            }
            assert forall|to: int| #[trigger] leads(self.edges(), want, to) implies exists|j: int|
                0 <= j < r.len() && #[trigger] r[j] == to by {
                let e = choose|e: int|
                    0 <= e < self.edges().len() && (#[trigger] self.edges()[e]).from == want && self.edges()[e].to
                        == to;
                let j = choose|j: int| 0 <= j < leaving.len() && #[trigger] leaving[j] == e;
                assert(r[j] == to);
            }
        }
        r
    }

    /// The numbers of the edges that leave the node `from` (none: the
    /// root), in their order.
    pub fn edges_from(&self, from: Option<usize>) -> (r: Vec<usize>)
        ensures
            as_ints(r@) == leaving(self.edges(), place_view(from), self.edges().len() as int),
            forall|k: int|
                0 <= k < r.len() ==> (#[trigger] r[k]) < self.edges().len() && self.edges()[r[k] as int].from
                    == place_view(from),
            forall|j: int, k: int| 0 <= j < k < r.len() ==> (#[trigger] r[j]) < (#[trigger] r[k]),
            forall|e: int|
                0 <= e < self.edges().len() && (#[trigger] self.edges()[e]).from == place_view(from) ==> exists|k: int|
                    0 <= k < r.len() && #[trigger] r[k] == e,
    {
        let ghost want = place_view(from);
        let mut r: Vec<usize> = Vec::new();
        let mut e: usize = 0;
        assert(as_ints(r@) =~= leaving(self.edges(), want, 0));
        while e < self.edges.len()
            invariant
                e <= self.edges.len(),
                self.edges.len() == self.edges().len(),
                want == place_view(from),
                as_ints(r@) == leaving(self.edges(), want, e as int),
                forall|k: int| 0 <= k < r.len() ==> (#[trigger] r[k]) < e && self.edges()[r[k] as int].from == want,
                forall|j: int, k: int| 0 <= j < k < r.len() ==> (#[trigger] r[j]) < (#[trigger] r[k]),
                forall|d: int|
                    0 <= d < e && (#[trigger] self.edges()[d]).from == want ==> exists|k: int|
                        0 <= k < r.len() && #[trigger] r[k] == d,
            decreases self.edges.len() - e,
        {
            let same = match (self.edges[e].from, from) {
                (Some(a), Some(b)) => a == b,
                (None, None) => true,
                _ => false,
            };
            assert(self.edges()[e as int] == self.edges[e as int]@);
            if same {
                let ghost had = r@;
                r.push(e);
                assert(as_ints(r@) =~= as_ints(had).push(e as int));
                assert forall|d: int| 0 <= d < e + 1 && (#[trigger] self.edges()[d]).from == want implies exists|k: int|
                    0 <= k < r.len() && #[trigger] r[k] == d by {
                    if d < e {
                        let k = choose|k: int| 0 <= k < had.len() && #[trigger] had[k] == d;
                        assert(r[k] == d);
                    } else {
                        assert(r[r.len() - 1] == d);
                    }
                }
            }
            e += 1;
        }
        r
    }
}

/// Builds the resolution graph from pinned packages and links between
/// their places.
///
/// Of the packages of one identity the first stands for all. Links that
/// name a place that was not handed in, and pins, count for nothing. A
/// package becomes a node where a walk from the root leads to it; the nodes
/// keep the order in which they were handed in. A link becomes an edge
/// where the root or a node requires; the edges keep the order of the
/// links. Where a link that would become an edge may not lie on a cycle (a
/// requirement at build time; or any, where every cycle is forbidden) and a
/// walk leads back from what it requires to what requires, there is no
/// graph: the cycle is reported.
pub fn build(dists: Vec<AnnotatedDist>, links: Vec<Link>, cycles: Cycles) -> (r: Result<
    ResolutionGraph,
    CycleError,
>)
    ensures
        match r {
            Ok(g) => {
                &&& !build_cycle(keys_of(dists@), link_views(links@), cycles)
                &&& g.origin() == kept_places(keys_of(dists@), link_views(links@), dists.len() as int)
                &&& g.nodes().len() == g.origin().len()
                &&& forall|t: int| 0 <= t < g.nodes().len() ==> #[trigger] g.nodes()[t] == dists[g.origin()[t]]
                &&& g.edges().len() == surviving(keys_of(dists@), link_views(links@), links.len() as int).len()
                &&& forall|e: int|
                    0 <= e < g.edges().len() ==> edge_matches(
                        keys_of(dists@),
                        g.origin(),
                        link_views(links@)[surviving(keys_of(dists@), link_views(links@), links.len() as int)[e]],
                        #[trigger] g.edges()[e],
                    )
            },
            Err(c) => {
                &&& build_cycle(keys_of(dists@), link_views(links@), cycles)
                &&& cycle_through(keys_of(dists@), link_views(links@), cycles, c.link as int, as_ints(c.places@))
                &&& c.packages.len() == c.places.len()
                &&& forall|k: int|
                    0 <= k < c.places.len() ==> (#[trigger] c.places[k]) < dists.len() && c.packages[k]@
                        == dists[c.places[k] as int].name@
            },
        },
{
    let ghost keys = keys_of(dists@);
    let ghost all = link_views(links@);
    let n = dists.len();
    let first = firsts(&dists);
    let (inner, starts) = sort_links(&dists, &first, &links);
    let marks = search(n, &inner, &starts);
    match find_cycle(&dists, &first, &links, &inner, &marks, cycles) {
        Some((k, places)) => {
            assert(build_cycle_at(keys, all, cycles, k as int)) by {
                let w = as_ints(places@);
                assert(reaches(n as int, inner@, w.first(), w.last()));
            }
            let mut packages: Vec<String> = Vec::new();
            let mut i: usize = 0;
            proof {
                lemma_walk_in_range(n as int, inner@, as_ints(places@));
                assert forall|k: int| 0 <= k < places.len() implies (#[trigger] places[k]) < dists.len() by {
                    assert(as_ints(places@)[k] == places[k]);
                }
            }
            while i < places.len()
                invariant
                    i <= places.len(),
                    packages.len() == i,
                    forall|k: int| 0 <= k < places.len() ==> (#[trigger] places[k]) < dists.len(),
                    forall|k: int| 0 <= k < i ==> (#[trigger] packages[k])@ == dists[places[k] as int].name@,
                decreases places.len() - i,
            {
                packages.push(dists[places[i]].name.as_str().to_owned());
                i += 1;
            }
            Err(CycleError { link: k, places, packages })
        },
        None => {
            let (origin, pos) = place_nodes(&dists, &first, &links, &marks);
            let edges = make_edges(Ghost(dists@), n, &first, &links, &marks, &origin, &pos);
            proof {
                lemma_kept_places(keys, all, n as int);
                assert forall|t: int| 0 <= t < origin.len() implies (#[trigger] origin[t]) < dists.len() by {
                    assert(as_ints(origin@)[t] == origin[t]);
                }
                assert forall|s: int, t: int| 0 <= s < t < origin.len() implies (#[trigger] origin[s]) < (
                #[trigger] origin[t]) by {
                    assert(as_ints(origin@)[s] == origin[s] && as_ints(origin@)[t] == origin[t]);
                }
            }
            let nodes = take_nodes(dists, &origin);
            proof {
                assert forall|e: int| 0 <= e < edges.len() implies (#[trigger] edges[e]).to < nodes.len() && (edges[e].from matches Some(
                    f,
                ) ==> f < nodes.len()) by {
                    assert(link_views(edges@)[e] == edges[e]@);
                }
            }
            let g = ResolutionGraph { nodes, edges, origin };
            proof {
                assert forall|t: int| 0 <= t < g.nodes().len() implies #[trigger] g.nodes()[t] == dists[g.origin()[t]] by {
                    assert(g.origin()[t] == origin[t]);
                }
            }
            Ok(g)
        },
    }
}

/// Every node of a walk is a node of the graph.
proof fn lemma_walk_in_range(n: int, links: Seq<(usize, usize)>, w: Seq<int>)
    requires
        is_walk(n, links, w),
    ensures
        forall|k: int| 0 <= k < w.len() ==> 0 <= #[trigger] w[k] < n,
{
    assert forall|k: int| 0 <= k < w.len() implies 0 <= #[trigger] w[k] < n by {
        if k > 0 {
            assert(linked(n, links, w[k - 1], w[k - 1 + 1]));
        }
    }
}

/// No two nodes of a graph have the same identity: the places that become
/// nodes are each the first of their identity.
pub proof fn lemma_nodes_distinct(keys: Seq<NodeKey>, links: Seq<LinkView>, s: int, t: int)
    requires
        0 <= s < t < kept_places(keys, links, keys.len() as int).len(),
    ensures
        !same_key(
            keys[kept_places(keys, links, keys.len() as int)[s]],
            keys[kept_places(keys, links, keys.len() as int)[t]],
        ),
{
    let places = kept_places(keys, links, keys.len() as int);
    lemma_kept_places(keys, links, keys.len() as int);
    let a = places[s];
    let b = places[t];
    assert(kept(keys, links, b));
    assert(a < b);
    lemma_first_from(keys, b, 0);
}


/// The graph is determined by what the builder is handed: the places of its
/// nodes are given by a function of the identities and the links, and
/// there is one edge only that a link can become.
pub proof fn lemma_edge_determined(keys: Seq<NodeKey>, links: Seq<LinkView>, l: LinkView, a: LinkView, b: LinkView)
    requires
        edge_matches(keys, kept_places(keys, links, keys.len() as int), l, a),
        edge_matches(keys, kept_places(keys, links, keys.len() as int), l, b),
    ensures
        a == b,
{
    let origin = kept_places(keys, links, keys.len() as int);
    lemma_kept_places(keys, links, keys.len() as int);
    assert(a.to == b.to) by {
        if a.to < b.to {
            assert(origin[a.to] < origin[b.to]);
        } else if b.to < a.to {
            assert(origin[b.to] < origin[a.to]);
        }
    }
    if l.from is Some {
        let x = a.from->0;
        let y = b.from->0;
        assert(x == y) by {
            if x < y {
                assert(origin[x] < origin[y]);
            } else if y < x {
                assert(origin[y] < origin[x]);
            }
        }
    }
}

} // verus!
