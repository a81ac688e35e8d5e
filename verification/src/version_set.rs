//! The algebra of version sets.
//!
//! A set is held as the membership below its first boundary and a strictly
//! rising list of boundaries, each lying just before or just after a
//! version; membership flips at every boundary. Complement flips the first
//! membership, union sweeps both lists once, and intersection is their De
//! Morgan dual.

use crate::version::{is_version, version_le, version_lt, version_same, Version};
use vstd::prelude::*;

verus! {

/// A boundary between two versions: just before `version`, or just after it.
pub struct CutView {
    pub version: Seq<char>,
    pub after: bool,
}

/// Whether the boundary `c` lies below the version `x`.
pub open spec fn cut_below(c: CutView, x: Seq<char>) -> bool {
    if c.after {
        version_lt(c.version, x)
    } else {
        version_le(c.version, x)
    }
}

/// Whether the boundary `c` lies strictly below the boundary `d`.
pub open spec fn cut_lt(c: CutView, d: CutView) -> bool {
    version_lt(c.version, d.version) || (version_same(c.version, d.version) && !c.after && d.after)
}

/// Whether both boundaries lie at the same place.
pub open spec fn cut_same(c: CutView, d: CutView) -> bool {
    version_same(c.version, d.version) && c.after == d.after
}

/// Membership after `n` boundaries have been crossed.
pub open spec fn flipped(initial: bool, n: int) -> bool {
    initial != (n % 2 == 1)
}

/// Whether `x` belongs to the set that starts at `initial` and flips at each
/// of `cuts`.
pub open spec fn cuts_contain(initial: bool, cuts: Seq<CutView>, x: Seq<char>) -> bool
    decreases cuts.len(),
{
    if cuts.len() == 0 {
        initial
    } else if cut_below(cuts.last(), x) {
        flipped(initial, cuts.len() as int)
    } else {
        cuts_contain(initial, cuts.drop_last(), x)
    }
}

/// Boundaries of versions, strictly rising.
pub open spec fn cuts_rising(cuts: Seq<CutView>) -> bool {
    &&& forall|i: int| 0 <= i < cuts.len() ==> is_version(#[trigger] cuts[i].version)
    &&& forall|i: int, j: int| 0 <= i < j < cuts.len() ==> cut_lt(#[trigger] cuts[i], #[trigger] cuts[j])
}

/// The mathematical value of a version set.
pub struct VersionSetView {
    pub initial: bool,
    pub cuts: Seq<CutView>,
}

impl VersionSetView {
    /// Whether the version `x` is in the set.
    pub open spec fn contains(self, x: Seq<char>) -> bool {
        cuts_contain(self.initial, self.cuts, x)
    }

    /// The boundaries are versions and rise strictly.
    pub open spec fn wf(self) -> bool {
        cuts_rising(self.cuts)
    }

    /// The set without any version, in its one representation.
    pub open spec fn empty() -> VersionSetView {
        VersionSetView { initial: false, cuts: Seq::empty() }
    }

    /// The set of all versions, in its one representation.
    pub open spec fn full() -> VersionSetView {
        VersionSetView { initial: true, cuts: Seq::empty() }
    }

    /// The set of the versions that are not in `self`.
    pub open spec fn complement(self) -> VersionSetView {
        VersionSetView { initial: !self.initial, cuts: self.cuts }
    }

    /// Both have the same first membership and boundaries at the same places.
    pub open spec fn same_shape(self, other: VersionSetView) -> bool {
        &&& self.initial == other.initial
        &&& self.cuts.len() == other.cuts.len()
        &&& forall|i: int| 0 <= i < self.cuts.len() ==> cut_same(#[trigger] self.cuts[i], other.cuts[i])
    }

    /// Both hold the same versions.
    pub open spec fn same_versions(self, other: VersionSetView) -> bool {
        forall|x: Seq<char>| is_version(x) ==> (#[trigger] self.contains(x) <==> other.contains(x))
    }

    /// Every version of `self` is in `other`.
    pub open spec fn subset_of(self, other: VersionSetView) -> bool {
        forall|x: Seq<char>| is_version(x) ==> (#[trigger] self.contains(x) ==> other.contains(x))
    }

    /// No version is in both.
    pub open spec fn disjoint_from(self, other: VersionSetView) -> bool {
        forall|x: Seq<char>| is_version(x) ==> !(#[trigger] self.contains(x) && other.contains(x))
    }

    /// No version is in the set.
    pub open spec fn holds_nothing(self) -> bool {
        forall|x: Seq<char>| is_version(x) ==> !#[trigger] self.contains(x)
    }
}

/// A boundary below a boundary below `x` is below `x`.
pub proof fn lemma_cut_below_mono(c: CutView, d: CutView, x: Seq<char>)
    requires
        is_version(c.version),
        is_version(d.version),
        is_version(x),
        cut_lt(c, d) || cut_same(c, d),
        cut_below(d, x),
    ensures
        cut_below(c, x),
{
    assert(version_le(c.version, d.version));
    if version_le(x, c.version) {
        assert(version_le(x, d.version));
        if version_le(d.version, x) {
            assert(version_le(d.version, c.version));
        }
    }
}

/// The order of boundaries is transitive.
pub proof fn lemma_cut_lt_trans(c: CutView, d: CutView, e: CutView)
    requires
        is_version(c.version),
        is_version(d.version),
        is_version(e.version),
        cut_lt(c, d) || cut_same(c, d),
        cut_lt(d, e) || cut_same(d, e),
    ensures
        cut_lt(c, e) || cut_same(c, e),
        cut_lt(c, d) || cut_lt(d, e) ==> cut_lt(c, e),
{
    assert(version_le(c.version, d.version));
    assert(version_le(d.version, e.version));
    assert(version_le(c.version, e.version));
    if version_le(e.version, c.version) {
        assert(version_le(e.version, d.version));
        assert(version_le(d.version, c.version));
    }
}

/// Two boundaries of versions are at the same place or one is below the other.
pub proof fn lemma_cut_total(c: CutView, d: CutView)
    requires
        is_version(c.version),
        is_version(d.version),
    ensures
        cut_lt(c, d) || cut_same(c, d) || cut_lt(d, c),
        !(cut_lt(c, d) && cut_lt(d, c)),
        !(cut_lt(c, d) && cut_same(c, d)),
        !(cut_lt(d, c) && cut_same(c, d)),
{
    assert(version_le(c.version, d.version) || version_le(d.version, c.version));
}

/// Where `x` has exactly the first `k` boundaries below it, its membership
/// is the first membership flipped `k` times.
pub proof fn lemma_contains_at(initial: bool, cuts: Seq<CutView>, x: Seq<char>, k: int)
    requires
        cuts_rising(cuts),
        is_version(x),
        0 <= k <= cuts.len(),
        k > 0 ==> cut_below(cuts[k - 1], x),
        k < cuts.len() ==> !cut_below(cuts[k], x),
    ensures
        cuts_contain(initial, cuts, x) == flipped(initial, k),
    decreases cuts.len(),
{
    if cuts.len() > 0 {
        let last = cuts.last();
        if cut_below(last, x) {
            if k < cuts.len() {
                if k < cuts.len() - 1 {
                    lemma_cut_below_mono(cuts[k], last, x);
                }
            }
        } else {
            let rest = cuts.drop_last();
            assert(cuts_rising(rest)) by {
                assert forall|i: int, j: int| 0 <= i < j < rest.len() implies cut_lt(
                    #[trigger] rest[i],
                    #[trigger] rest[j],
                ) by {
                    assert(rest[i] == cuts[i] && rest[j] == cuts[j]);
                }
                assert forall|i: int| 0 <= i < rest.len() implies is_version(
                    #[trigger] rest[i].version,
                ) by {
                    assert(rest[i] == cuts[i]);
                }
            }
            if k > 0 {
                assert(rest[k - 1] == cuts[k - 1]);
            }
            if k < rest.len() {
                assert(rest[k] == cuts[k]);
            }
            lemma_contains_at(initial, rest, x, k);
        }
    }
}

/// The number of boundaries below `x`: they are the first ones.
pub open spec fn cuts_below_count(cuts: Seq<CutView>, x: Seq<char>) -> int
    decreases cuts.len(),
{
    if cuts.len() == 0 {
        0
    } else if cut_below(cuts.last(), x) {
        cuts.len() as int
    } else {
        cuts_below_count(cuts.drop_last(), x)
    }
}

/// Membership is the first membership flipped once for each boundary below.
pub proof fn lemma_contains_by_count(initial: bool, cuts: Seq<CutView>, x: Seq<char>)
    ensures
        cuts_contain(initial, cuts, x) == flipped(initial, cuts_below_count(cuts, x)),
        0 <= cuts_below_count(cuts, x) <= cuts.len(),
    decreases cuts.len(),
{
    if cuts.len() > 0 && !cut_below(cuts.last(), x) {
        lemma_contains_by_count(initial, cuts.drop_last(), x);
    }
}

/// A version is in the complement exactly when it is not in the set.
pub proof fn lemma_complement_contains(s: VersionSetView, x: Seq<char>)
    ensures
        s.complement().contains(x) == !s.contains(x),
{
    lemma_contains_by_count(s.initial, s.cuts, x);
    lemma_contains_by_count(!s.initial, s.cuts, x);
}

/// Sets of the same shape hold the same versions.
pub proof fn lemma_same_shape_same_versions(s: VersionSetView, t: VersionSetView)
    requires
        s.wf(),
        t.wf(),
        s.same_shape(t),
    ensures
        s.same_versions(t),
{
    assert forall|x: Seq<char>| is_version(x) implies (#[trigger] s.contains(x) <==> t.contains(x)) by {
        lemma_same_shape_at(s.initial, s.cuts, t.cuts, x);
    }
}

proof fn lemma_same_shape_at(initial: bool, a: Seq<CutView>, b: Seq<CutView>, x: Seq<char>)
    requires
        cuts_rising(a),
        cuts_rising(b),
        is_version(x),
        a.len() == b.len(),
        forall|i: int| 0 <= i < a.len() ==> cut_same(#[trigger] a[i], b[i]),
    ensures
        cuts_contain(initial, a, x) == cuts_contain(initial, b, x),
    decreases a.len(),
{
    if a.len() > 0 {
        let n = a.len() - 1;
        assert(cut_same(a[n], b[n]));
        lemma_cut_same_below(a[n], b[n], x);
        if !cut_below(a.last(), x) {
            let ra = a.drop_last();
            let rb = b.drop_last();
            assert forall|i: int| 0 <= i < ra.len() implies cut_same(#[trigger] ra[i], rb[i]) by {
                assert(ra[i] == a[i] && rb[i] == b[i]);
            }
            assert forall|i: int, j: int| 0 <= i < j < ra.len() implies cut_lt(
                #[trigger] ra[i],
                #[trigger] ra[j],
            ) by {
                assert(ra[i] == a[i] && ra[j] == a[j]);
            }
            assert forall|i: int, j: int| 0 <= i < j < rb.len() implies cut_lt(
                #[trigger] rb[i],
                #[trigger] rb[j],
            ) by {
                assert(rb[i] == b[i] && rb[j] == b[j]);
            }
            assert forall|i: int| 0 <= i < ra.len() implies is_version(#[trigger] ra[i].version) by {
                assert(ra[i] == a[i]);
            }
            assert forall|i: int| 0 <= i < rb.len() implies is_version(#[trigger] rb[i].version) by {
                assert(rb[i] == b[i]);
            }
            lemma_same_shape_at(initial, ra, rb, x);
        }
    }
}

/// Boundaries at the same place have the same versions above them.
pub proof fn lemma_cut_same_below(c: CutView, d: CutView, x: Seq<char>)
    requires
        is_version(c.version),
        is_version(d.version),
        is_version(x),
        cut_same(c, d),
    ensures
        cut_below(c, x) == cut_below(d, x),
{
    if cut_below(d, x) {
        lemma_cut_below_mono(c, d, x);
    }
    if cut_below(c, x) {
        lemma_cut_below_mono(d, c, x);
    }
}


/// Where the sweep of two sets stands: `i` boundaries of `a` and `j` of `b`
/// are behind it, and `out` holds the union up to there.
pub open spec fn sweep_inv(a: VersionSetView, b: VersionSetView, out: VersionSetView, i: int, j: int) -> bool {
    &&& 0 <= i <= a.cuts.len()
    &&& 0 <= j <= b.cuts.len()
    &&& out.wf()
    &&& out.initial == (a.initial || b.initial)
    &&& flipped(out.initial, out.cuts.len() as int) == (flipped(a.initial, i) || flipped(b.initial, j))
    &&& forall|k: int|
        0 <= k < out.cuts.len() ==> (i < a.cuts.len() ==> cut_lt(#[trigger] out.cuts[k], a.cuts[i])) && (j
            < b.cuts.len() ==> cut_lt(out.cuts[k], b.cuts[j]))
    &&& forall|k: int| 0 <= k < i && j < b.cuts.len() ==> cut_lt(#[trigger] a.cuts[k], b.cuts[j])
    &&& forall|k: int| 0 <= k < j && i < a.cuts.len() ==> cut_lt(#[trigger] b.cuts[k], a.cuts[i])
    &&& forall|x: Seq<char>|
        is_version(x) && (i < a.cuts.len() ==> !cut_below(a.cuts[i], x)) && (j < b.cuts.len() ==> !cut_below(
            b.cuts[j],
            x,
        )) ==> (#[trigger] out.contains(x) <==> a.contains(x) || b.contains(x))
}

/// The boundary that the sweep crosses next.
pub open spec fn sweep_cut(a: VersionSetView, b: VersionSetView, i: int, j: int, take_a: bool) -> CutView {
    if take_a {
        a.cuts[i]
    } else {
        b.cuts[j]
    }
}

/// The union after the sweep has crossed its next boundary.
pub open spec fn sweep_out(
    a: VersionSetView,
    b: VersionSetView,
    out: VersionSetView,
    i: int,
    j: int,
    take_a: bool,
    take_b: bool,
) -> VersionSetView {
    let i2 = if take_a {
        i + 1
    } else {
        i
    };
    let j2 = if take_b {
        j + 1
    } else {
        j
    };
    if (flipped(a.initial, i2) || flipped(b.initial, j2)) != (flipped(a.initial, i) || flipped(b.initial, j)) {
        VersionSetView { initial: out.initial, cuts: out.cuts.push(sweep_cut(a, b, i, j, take_a)) }
    } else {
        out
    }
}

/// What the sweep may cross next: the lower of the two next boundaries, or
/// both where they lie at the same place.
pub open spec fn sweep_choice(a: VersionSetView, b: VersionSetView, i: int, j: int, take_a: bool, take_b: bool) -> bool {
    &&& take_a || take_b
    &&& take_a ==> i < a.cuts.len()
    &&& take_b ==> j < b.cuts.len()
    &&& take_a && take_b ==> cut_same(a.cuts[i], b.cuts[j])
    &&& take_a && !take_b && j < b.cuts.len() ==> cut_lt(a.cuts[i], b.cuts[j])
    &&& !take_a && take_b && i < a.cuts.len() ==> cut_lt(b.cuts[j], a.cuts[i])
}

proof fn lemma_sweep_order(
    a: VersionSetView,
    b: VersionSetView,
    out: VersionSetView,
    i: int,
    j: int,
    take_a: bool,
    take_b: bool,
)
    requires
        a.wf(),
        b.wf(),
        sweep_inv(a, b, out, i, j),
        sweep_choice(a, b, i, j, take_a, take_b),
    ensures
        ({
            let i2 = if take_a {
                i + 1
            } else {
                i
            };
            let j2 = if take_b {
                j + 1
            } else {
                j
            };
            let c = sweep_cut(a, b, i, j, take_a);
            &&& is_version(c.version)
            &&& forall|k: int| 0 <= k < out.cuts.len() ==> cut_lt(#[trigger] out.cuts[k], c)
            &&& i2 < a.cuts.len() ==> cut_lt(c, a.cuts[i2])
            &&& j2 < b.cuts.len() ==> cut_lt(c, b.cuts[j2])
            &&& forall|k: int|
                0 <= k < out.cuts.len() ==> (i2 < a.cuts.len() ==> cut_lt(#[trigger] out.cuts[k], a.cuts[i2])) && (j2
                    < b.cuts.len() ==> cut_lt(out.cuts[k], b.cuts[j2]))
            &&& forall|k: int| 0 <= k < i2 && j2 < b.cuts.len() ==> cut_lt(#[trigger] a.cuts[k], b.cuts[j2])
            &&& forall|k: int| 0 <= k < j2 && i2 < a.cuts.len() ==> cut_lt(#[trigger] b.cuts[k], a.cuts[i2])
            &&& forall|k: int| 0 <= k < i2 ==> cut_lt(#[trigger] a.cuts[k], c) || cut_same(a.cuts[k], c)
            &&& forall|k: int| 0 <= k < j2 ==> cut_lt(#[trigger] b.cuts[k], c) || cut_same(b.cuts[k], c)
        }),
{
    let i2 = if take_a {
        i + 1
    } else {
        i
    };
    let j2 = if take_b {
        j + 1
    } else {
        j
    };
    let c = sweep_cut(a, b, i, j, take_a);
    if take_a {
        assert(is_version(a.cuts[i].version));
    }
    if take_b {
        assert(is_version(b.cuts[j].version));
    }
    if i2 < a.cuts.len() {
        assert(is_version(a.cuts[i2].version));
        if take_a {
            assert(cut_lt(a.cuts[i], a.cuts[i2]));
        }
        if take_a && take_b {
            lemma_cut_lt_trans(b.cuts[j], a.cuts[i], a.cuts[i2]);
        }
    }
    if j2 < b.cuts.len() {
        assert(is_version(b.cuts[j2].version));
        if take_b {
            assert(cut_lt(b.cuts[j], b.cuts[j2]));
        }
        if take_a && take_b {
            lemma_cut_lt_trans(a.cuts[i], b.cuts[j], b.cuts[j2]);
        }
    }
    assert(i2 < a.cuts.len() ==> cut_lt(c, a.cuts[i2]));
    assert(j2 < b.cuts.len() ==> cut_lt(c, b.cuts[j2]));
    assert forall|k: int| 0 <= k < out.cuts.len() implies cut_lt(#[trigger] out.cuts[k], c) by {}
    assert forall|k: int| 0 <= k < out.cuts.len() implies (i2 < a.cuts.len() ==> cut_lt(
        #[trigger] out.cuts[k],
        a.cuts[i2],
    )) && (j2 < b.cuts.len() ==> cut_lt(out.cuts[k], b.cuts[j2])) by {
        assert(is_version(out.cuts[k].version));
        assert(cut_lt(out.cuts[k], c));
        if i2 < a.cuts.len() {
            lemma_cut_lt_trans(out.cuts[k], c, a.cuts[i2]);
        }
        if j2 < b.cuts.len() {
            lemma_cut_lt_trans(out.cuts[k], c, b.cuts[j2]);
        }
    }
    assert forall|k: int| 0 <= k < i2 implies cut_lt(#[trigger] a.cuts[k], c) || cut_same(a.cuts[k], c) by {
        assert(is_version(a.cuts[k].version));
        if k < i {
            if take_a {
                assert(cut_lt(a.cuts[k], a.cuts[i]));
            }
        } else {
            lemma_cut_total(a.cuts[k], c);
        }
    }
    assert forall|k: int| 0 <= k < j2 implies cut_lt(#[trigger] b.cuts[k], c) || cut_same(b.cuts[k], c) by {
        assert(is_version(b.cuts[k].version));
        if k < j {
            if take_b {
                assert(cut_lt(b.cuts[k], b.cuts[j]));
                if take_a {
                    lemma_cut_lt_trans(b.cuts[k], b.cuts[j], a.cuts[i]);
                }
            }
        } else {
            if take_a {
                lemma_cut_total(b.cuts[k], c);
            }
        }
    }
    assert forall|k: int| 0 <= k < i2 && j2 < b.cuts.len() implies cut_lt(#[trigger] a.cuts[k], b.cuts[j2]) by {
        assert(is_version(a.cuts[k].version));
        lemma_cut_lt_trans(a.cuts[k], c, b.cuts[j2]);
    }
    assert forall|k: int| 0 <= k < j2 && i2 < a.cuts.len() implies cut_lt(#[trigger] b.cuts[k], a.cuts[i2]) by {
        assert(is_version(b.cuts[k].version));
        lemma_cut_lt_trans(b.cuts[k], c, a.cuts[i2]);
    }
}


/// Crossing the next boundary keeps the sweep's invariant.
pub proof fn lemma_sweep_step(
    a: VersionSetView,
    b: VersionSetView,
    out: VersionSetView,
    i: int,
    j: int,
    take_a: bool,
    take_b: bool,
)
    requires
        a.wf(),
        b.wf(),
        sweep_inv(a, b, out, i, j),
        sweep_choice(a, b, i, j, take_a, take_b),
    ensures
        sweep_inv(
            a,
            b,
            sweep_out(a, b, out, i, j, take_a, take_b),
            if take_a {
                i + 1
            } else {
                i
            },
            if take_b {
                j + 1
            } else {
                j
            },
        ),
{
    let i2 = if take_a {
        i + 1
    } else {
        i
    };
    let j2 = if take_b {
        j + 1
    } else {
        j
    };
    let c = sweep_cut(a, b, i, j, take_a);
    let before = flipped(a.initial, i) || flipped(b.initial, j);
    let now = flipped(a.initial, i2) || flipped(b.initial, j2);
    let out2 = sweep_out(a, b, out, i, j, take_a, take_b);
    lemma_sweep_order(a, b, out, i, j, take_a, take_b);
    if now != before {
        assert(out2.cuts.drop_last() =~= out.cuts);
        assert(out2.cuts.last() == c);
        assert forall|p: int, q: int| 0 <= p < q < out2.cuts.len() implies cut_lt(
            #[trigger] out2.cuts[p],
            #[trigger] out2.cuts[q],
        ) by {
            if q < out.cuts.len() {
                assert(out2.cuts[p] == out.cuts[p] && out2.cuts[q] == out.cuts[q]);
            } else {
                assert(out2.cuts[p] == out.cuts[p]);
            }
        }
        assert forall|p: int| 0 <= p < out2.cuts.len() implies is_version(#[trigger] out2.cuts[p].version) by {
            if p < out.cuts.len() {
                assert(out2.cuts[p] == out.cuts[p]);
            }
        }
        assert forall|k: int| 0 <= k < out2.cuts.len() implies (i2 < a.cuts.len() ==> cut_lt(
            #[trigger] out2.cuts[k],
            a.cuts[i2],
        )) && (j2 < b.cuts.len() ==> cut_lt(out2.cuts[k], b.cuts[j2])) by {
            if k < out.cuts.len() {
                assert(out2.cuts[k] == out.cuts[k]);
            }
        }
    }
    assert(out2.wf());
    assert forall|x: Seq<char>|
        is_version(x) && (i2 < a.cuts.len() ==> !cut_below(a.cuts[i2], x)) && (j2 < b.cuts.len() ==> !cut_below(
            b.cuts[j2],
            x,
        )) implies (#[trigger] out2.contains(x) <==> a.contains(x) || b.contains(x)) by {
        if cut_below(c, x) {
            if i2 > 0 {
                assert(is_version(a.cuts[i2 - 1].version));
                lemma_cut_below_mono(a.cuts[i2 - 1], c, x);
            }
            if j2 > 0 {
                assert(is_version(b.cuts[j2 - 1].version));
                lemma_cut_below_mono(b.cuts[j2 - 1], c, x);
            }
            lemma_contains_at(a.initial, a.cuts, x, i2);
            lemma_contains_at(b.initial, b.cuts, x, j2);
            if now != before {
                assert(out2.contains(x) == flipped(out.initial, out2.cuts.len() as int));
            } else {
                if out.cuts.len() > 0 {
                    let last = out.cuts.last();
                    assert(is_version(last.version));
                    assert(cut_lt(last, c));
                    lemma_cut_below_mono(last, c, x);
                }
                lemma_contains_at(out.initial, out.cuts, x, out.cuts.len() as int);
            }
        } else {
            if i < a.cuts.len() && !take_a {
                assert(is_version(a.cuts[i].version));
                if cut_below(a.cuts[i], x) {
                    lemma_cut_below_mono(c, a.cuts[i], x);
                }
            }
            if j < b.cuts.len() && !take_b {
                assert(is_version(b.cuts[j].version));
                if cut_below(b.cuts[j], x) {
                    lemma_cut_below_mono(c, b.cuts[j], x);
                }
            }
            if take_a && take_b {
                lemma_cut_same_below(a.cuts[i], b.cuts[j], x);
            }
            assert(out.contains(x) <==> a.contains(x) || b.contains(x));
        }
    }
}

/// Before the sweep starts its invariant holds.
pub proof fn lemma_sweep_start(a: VersionSetView, b: VersionSetView)
    requires
        a.wf(),
        b.wf(),
    ensures
        sweep_inv(a, b, VersionSetView { initial: a.initial || b.initial, cuts: Seq::empty() }, 0, 0),
{
    let out = VersionSetView { initial: a.initial || b.initial, cuts: Seq::<CutView>::empty() };
    assert forall|x: Seq<char>|
        is_version(x) && (0 < a.cuts.len() ==> !cut_below(a.cuts[0], x)) && (0 < b.cuts.len() ==> !cut_below(
            b.cuts[0],
            x,
        )) implies (#[trigger] out.contains(x) <==> a.contains(x) || b.contains(x)) by {
        lemma_contains_at(a.initial, a.cuts, x, 0);
        lemma_contains_at(b.initial, b.cuts, x, 0);
    }
}


/// Which of the two next boundaries the sweep crosses: the lower one, or
/// both where they lie at the same place.
pub open spec fn sweep_takes(a: VersionSetView, b: VersionSetView, i: int, j: int) -> (bool, bool) {
    if j >= b.cuts.len() {
        (true, false)
    } else if i >= a.cuts.len() {
        (false, true)
    } else if cut_lt(a.cuts[i], b.cuts[j]) {
        (true, false)
    } else if cut_lt(b.cuts[j], a.cuts[i]) {
        (false, true)
    } else {
        (true, true)
    }
}

/// The union that the sweep ends with, from where it stands.
pub open spec fn sweep_run(a: VersionSetView, b: VersionSetView, out: VersionSetView, i: int, j: int) -> VersionSetView
    decreases a.cuts.len() - i + b.cuts.len() - j,
{
    if i < 0 || j < 0 || i > a.cuts.len() || j > b.cuts.len() || (i >= a.cuts.len() && j >= b.cuts.len()) {
        out
    } else {
        let t = sweep_takes(a, b, i, j);
        sweep_run(
            a,
            b,
            sweep_out(a, b, out, i, j, t.0, t.1),
            if t.0 {
                i + 1
            } else {
                i
            },
            if t.1 {
                j + 1
            } else {
                j
            },
        )
    }
}

impl VersionSetView {
    /// The versions that are in either set: one sweep over both lists of
    /// boundaries, which keeps a boundary where the joint membership flips.
    pub open spec fn union(self, other: VersionSetView) -> VersionSetView {
        sweep_run(self, other, VersionSetView { initial: self.initial || other.initial, cuts: Seq::empty() }, 0, 0)
    }

    /// The versions that are in both sets.
    pub open spec fn intersection(self, other: VersionSetView) -> VersionSetView {
        self.complement().union(other.complement()).complement()
    }
}

/// The sweep's own choice is one that keeps its invariant.
pub proof fn lemma_sweep_takes(a: VersionSetView, b: VersionSetView, i: int, j: int)
    requires
        a.wf(),
        b.wf(),
        0 <= i <= a.cuts.len(),
        0 <= j <= b.cuts.len(),
        i < a.cuts.len() || j < b.cuts.len(),
    ensures
        sweep_choice(a, b, i, j, sweep_takes(a, b, i, j).0, sweep_takes(a, b, i, j).1),
{
    if i < a.cuts.len() && j < b.cuts.len() {
        lemma_cut_total(a.cuts[i], b.cuts[j]);
    }
}

proof fn lemma_sweep_run(a: VersionSetView, b: VersionSetView, out: VersionSetView, i: int, j: int)
    requires
        a.wf(),
        b.wf(),
        sweep_inv(a, b, out, i, j),
    ensures
        sweep_run(a, b, out, i, j).wf(),
        forall|x: Seq<char>|
            is_version(x) ==> (#[trigger] sweep_run(a, b, out, i, j).contains(x) <==> a.contains(x) || b.contains(x)),
    decreases a.cuts.len() - i + b.cuts.len() - j,
{
    if i >= a.cuts.len() && j >= b.cuts.len() {
    } else {
        let t = sweep_takes(a, b, i, j);
        lemma_sweep_takes(a, b, i, j);
        lemma_sweep_step(a, b, out, i, j, t.0, t.1);
        lemma_sweep_run(
            a,
            b,
            sweep_out(a, b, out, i, j, t.0, t.1),
            if t.0 {
                i + 1
            } else {
                i
            },
            if t.1 {
                j + 1
            } else {
                j
            },
        );
    }
}

/// The union is a version set, and a version is in it exactly when it is in
/// one of the two.
pub proof fn lemma_union(a: VersionSetView, b: VersionSetView)
    requires
        a.wf(),
        b.wf(),
    ensures
        a.union(b).wf(),
        forall|x: Seq<char>| is_version(x) ==> (#[trigger] a.union(b).contains(x) <==> a.contains(x) || b.contains(x)),
{
    lemma_sweep_start(a, b);
    lemma_sweep_run(a, b, VersionSetView { initial: a.initial || b.initial, cuts: Seq::empty() }, 0, 0);
}

/// The intersection is a version set, and a version is in it exactly when
/// it is in both.
pub proof fn lemma_intersection(a: VersionSetView, b: VersionSetView)
    requires
        a.wf(),
        b.wf(),
    ensures
        a.intersection(b).wf(),
        forall|x: Seq<char>|
            is_version(x) ==> (#[trigger] a.intersection(b).contains(x) <==> a.contains(x) && b.contains(x)),
{
    lemma_union(a.complement(), b.complement());
    assert forall|x: Seq<char>| is_version(x) implies (#[trigger] a.intersection(b).contains(x) <==> a.contains(x)
        && b.contains(x)) by {
        lemma_complement_contains(a, x);
        lemma_complement_contains(b, x);
        lemma_complement_contains(a.complement().union(b.complement()), x);
        assert(a.complement().union(b.complement()).contains(x) <==> a.complement().contains(x)
            || b.complement().contains(x));
    }
}

/// A boundary of a version set.
#[derive(Debug)]
pub struct Cut {
    version: Version,
    after: bool,
}

impl View for Cut {
    type V = CutView;

    closed spec fn view(&self) -> CutView {
        CutView { version: self.version@, after: self.after }
    }
}

/// How one boundary lies to another.
#[derive(Debug, Clone, Copy, PartialEq, Eq, Structural)]
pub enum Place {
    Below,
    Same,
    Above,
}

impl Cut {
    fn duplicate(&self) -> (r: Cut)
        ensures
            r@ == self@,
    {
        Cut { version: self.version.duplicate(), after: self.after }
    }

    fn is_below(&self, v: &Version) -> (r: bool)
        ensures
            r == cut_below(self@, v@),
    {
        if self.after {
            self.version.lt(v)
        } else {
            self.version.le(v)
        }
    }

    fn place(&self, other: &Cut) -> (r: Place)
        ensures
            r == Place::Below <==> cut_lt(self@, other@),
            r == Place::Same <==> cut_same(self@, other@),
            r == Place::Above <==> cut_lt(other@, self@),
    {
        proof {
            use_type_invariant(&self.version);
            use_type_invariant(&other.version);
            lemma_cut_total(self@, other@);
        }
        let le = self.version.le(&other.version);
        let ge = other.version.le(&self.version);
        if le && !ge {
            Place::Below
        } else if ge && !le {
            Place::Above
        } else if self.after == other.after {
            Place::Same
        } else if other.after {
            Place::Below
        } else {
            Place::Above
        }
    }
}

/// The views of a list of boundaries.
pub open spec fn cut_views(cuts: Seq<Cut>) -> Seq<CutView> {
    Seq::new(cuts.len(), |i: int| cuts[i]@)
}

/// A set of versions.
#[derive(Debug)]
pub struct VersionSet {
    initial: bool,
    cuts: Vec<Cut>,
}

impl View for VersionSet {
    type V = VersionSetView;

    closed spec fn view(&self) -> VersionSetView {
        VersionSetView { initial: self.initial, cuts: cut_views(self.cuts@) }
    }
}

impl VersionSet {
    /// The boundaries of every set are versions and rise strictly.
    #[verifier::type_invariant]
    pub open spec fn wf(&self) -> bool {
        self@.wf()
    }

    /// The set without any version.
    pub fn empty() -> (r: VersionSet)
        ensures
            r@ == VersionSetView::empty(),
            r.wf(),
    {
        let r = VersionSet { initial: false, cuts: Vec::new() };
        assert(r@.cuts =~= Seq::empty());
        r
    }

    /// The set of all versions.
    pub fn full() -> (r: VersionSet)
        ensures
            r@ == VersionSetView::full(),
            r.wf(),
    {
        let r = VersionSet { initial: true, cuts: Vec::new() };
        assert(r@.cuts =~= Seq::empty());
        r
    }

    /// A copy of the set.
    pub fn duplicate(&self) -> (r: VersionSet)
        ensures
            r@ == self@,
            r.wf(),
    {
        proof {
            use_type_invariant(self);
        }
        let mut cuts: Vec<Cut> = Vec::new();
        let mut i: usize = 0;
        while i < self.cuts.len()
            invariant
                i <= self.cuts.len(),
                cuts.len() == i,
                forall|k: int| 0 <= k < i ==> cuts[k]@ == self.cuts[k]@,
            decreases self.cuts.len() - i,
        {
            cuts.push(self.cuts[i].duplicate());
            i += 1;
        }
        assert(cut_views(cuts@) =~= cut_views(self.cuts@));
        VersionSet { initial: self.initial, cuts }
    }

    /// The versions that are not in the set.
    pub fn complement(&self) -> (r: VersionSet)
        ensures
            r@ == self@.complement(),
            r.wf(),
            forall|x: Seq<char>| #[trigger] r@.contains(x) == !self@.contains(x),
    {
        let copy = self.duplicate();
        proof {
            use_type_invariant(&copy);
            assert forall|x: Seq<char>| #[trigger]
                self@.complement().contains(x) == !self@.contains(x) by {
                lemma_complement_contains(self@, x);
            }
        }
        VersionSet { initial: !copy.initial, cuts: copy.cuts }
    }

    /// Whether the version is in the set.
    pub fn contains(&self, v: &Version) -> (r: bool)
        ensures
            r == self@.contains(v@),
    {
        let mut n: usize = self.cuts.len();
        assert(self@.cuts.take(n as int) =~= self@.cuts);
        while n > 0
            invariant
                n <= self.cuts.len(),
                self@.contains(v@) == cuts_contain(self.initial, self@.cuts.take(n as int), v@),
            decreases n,
        {
            let below = self.cuts[n - 1].is_below(v);
            assert(self@.cuts.take(n as int).last() == self.cuts[n - 1]@);
            if below {
                return self.initial != (n % 2 == 1);
            }
            assert(self@.cuts.take(n as int).drop_last() =~= self@.cuts.take(n - 1));
            n -= 1;
        }
        self.initial
    }

    /// Whether the version is in the set and, unless pre-releases are
    /// allowed, is no pre-release.
    pub fn admits(&self, v: &Version, allow_prereleases: bool) -> (r: bool)
        ensures
            r == (self@.contains(v@) && (allow_prereleases || !crate::version::version_is_prerelease(v@))),
    {
        self.contains(v) && (allow_prereleases || !v.is_prerelease())
    }

    /// Whether this is the set without any version, in its one representation.
    pub fn is_empty(&self) -> (r: bool)
        ensures
            r == (self@ == VersionSetView::empty()),
            r ==> self@.holds_nothing(),
    {
        let r = !self.initial && self.cuts.len() == 0;
        proof {
            assert(self@.cuts.len() == self.cuts.len());
            if r {
                assert(self@.cuts =~= Seq::empty());
            }
        }
        r
    }

    /// Whether this is the set of all versions, in its one representation.
    pub fn is_full(&self) -> (r: bool)
        ensures
            r == (self@ == VersionSetView::full()),
            r ==> forall|x: Seq<char>| #[trigger] self@.contains(x),
    {
        let r = self.initial && self.cuts.len() == 0;
        proof {
            assert(self@.cuts.len() == self.cuts.len());
            if r {
                assert(self@.cuts =~= Seq::empty());
            }
        }
        r
    }

    /// The versions that are in either set.
    pub fn union(&self, other: &VersionSet) -> (r: VersionSet)
        ensures
            r@ == self@.union(other@),
            r.wf(),
            forall|x: Seq<char>|
                is_version(x) ==> (#[trigger] r@.contains(x) <==> self@.contains(x) || other@.contains(x)),
    {
        let initial = self.initial || other.initial;
        let mut cuts: Vec<Cut> = Vec::new();
        let mut i: usize = 0;
        let mut j: usize = 0;
        let mut in_a = self.initial;
        let mut in_b = other.initial;
        proof {
            use_type_invariant(self);
            use_type_invariant(other);
            lemma_union(self@, other@);
            lemma_sweep_start(self@, other@);
            assert(cut_views(cuts@) =~= Seq::empty());
        }
        while i < self.cuts.len() || j < other.cuts.len()
            invariant
                self@.wf(),
                other@.wf(),
                initial == (self.initial || other.initial),
                in_a == flipped(self.initial, i as int),
                in_b == flipped(other.initial, j as int),
                sweep_inv(self@, other@, VersionSetView { initial, cuts: cut_views(cuts@) }, i as int, j as int),
                sweep_run(self@, other@, VersionSetView { initial, cuts: cut_views(cuts@) }, i as int, j as int)
                    == self@.union(other@),
            decreases self.cuts.len() - i + other.cuts.len() - j,
        {
            let ghost out = VersionSetView { initial, cuts: cut_views(cuts@) };
            let ghost i0 = i as int;
            let ghost j0 = j as int;
            let mut take_a = true;
            let mut take_b = false;
            if i >= self.cuts.len() {
                take_a = false;
                take_b = true;
            } else if j < other.cuts.len() {
                let place = self.cuts[i].place(&other.cuts[j]);
                if place == Place::Same {
                    take_b = true;
                } else if place == Place::Above {
                    take_a = false;
                    take_b = true;
                }
            }
            proof {
                assert(self@.cuts.len() == self.cuts.len() && other@.cuts.len() == other.cuts.len());
                if i < self.cuts.len() && j < other.cuts.len() {
                    lemma_cut_total(self@.cuts[i0], other@.cuts[j0]);
                }
                assert(sweep_takes(self@, other@, i0, j0) == (take_a, take_b));
                lemma_sweep_takes(self@, other@, i0, j0);
                lemma_sweep_step(self@, other@, out, i0, j0, take_a, take_b);
            }
            let before = in_a || in_b;
            let cut = if take_a {
                self.cuts[i].duplicate()
            } else {
                other.cuts[j].duplicate()
            };
            if take_a {
                in_a = !in_a;
                i += 1;
            }
            if take_b {
                in_b = !in_b;
                j += 1;
            }
            if (in_a || in_b) != before {
                cuts.push(cut);
                assert(cut_views(cuts@) =~= out.cuts.push(sweep_cut(self@, other@, i0, j0, take_a)));
            }
        }
        VersionSet { initial, cuts }
    }

    /// The versions that are in both sets.
    pub fn intersection(&self, other: &VersionSet) -> (r: VersionSet)
        ensures
            r@ == self@.intersection(other@),
            r.wf(),
            forall|x: Seq<char>|
                is_version(x) ==> (#[trigger] r@.contains(x) <==> self@.contains(x) && other@.contains(x)),
    {
        proof {
            use_type_invariant(self);
            use_type_invariant(other);
            lemma_intersection(self@, other@);
        }
        self.complement().union(&other.complement()).complement()
    }

    fn from_one(initial: bool, version: &Version, after: bool) -> (r: VersionSet)
        ensures
            r@ == (VersionSetView { initial, cuts: seq![CutView { version: version@, after }] }),
            r.wf(),
            forall|x: Seq<char>| #[trigger]
                r@.contains(x) == (initial != cut_below(CutView { version: version@, after }, x)),
    {
        proof {
            use_type_invariant(version);
        }
        let mut cuts: Vec<Cut> = Vec::new();
        cuts.push(Cut { version: version.duplicate(), after });
        let ghost view = seq![CutView { version: version@, after }];
        assert(cut_views(cuts@) =~= view);
        assert(view.drop_last() =~= Seq::empty());
        assert forall|x: Seq<char>| #[trigger]
            cuts_contain(initial, view, x) == (initial != cut_below(CutView { version: version@, after }, x)) by {
            reveal_with_fuel(cuts_contain, 2);
        }
        VersionSet { initial, cuts }
    }

    /// The versions that are the same as `v`.
    pub fn singleton(v: &Version) -> (r: VersionSet)
        ensures
            r@ == VersionSet::higher_than_view(v@).intersection(VersionSet::lower_than_view(v@)),
            r.wf(),
            forall|x: Seq<char>| is_version(x) ==> (#[trigger] r@.contains(x) <==> version_same(v@, x)),
    {
        VersionSet::higher_than(v).intersection(&VersionSet::lower_than(v))
    }

    /// The set `>= v`, as a value.
    pub open spec fn higher_than_view(v: Seq<char>) -> VersionSetView {
        VersionSetView { initial: false, cuts: seq![CutView { version: v, after: false }] }
    }

    /// The set `<= v`, as a value.
    pub open spec fn lower_than_view(v: Seq<char>) -> VersionSetView {
        VersionSetView { initial: true, cuts: seq![CutView { version: v, after: true }] }
    }

    /// The versions `>= v`.
    pub fn higher_than(v: &Version) -> (r: VersionSet)
        ensures
            r@ == VersionSet::higher_than_view(v@),
            r.wf(),
            forall|x: Seq<char>| #[trigger] r@.contains(x) == version_le(v@, x),
    {
        VersionSet::from_one(false, v, false)
    }

    /// The versions `> v`.
    pub fn strictly_higher_than(v: &Version) -> (r: VersionSet)
        ensures
            r.wf(),
            forall|x: Seq<char>| #[trigger] r@.contains(x) == version_lt(v@, x),
    {
        VersionSet::from_one(false, v, true)
    }

    /// The versions `<= v`.
    pub fn lower_than(v: &Version) -> (r: VersionSet)
        ensures
            r@ == VersionSet::lower_than_view(v@),
            r.wf(),
            forall|x: Seq<char>| #[trigger] r@.contains(x) == !version_lt(v@, x),
    {
        VersionSet::from_one(true, v, true)
    }

    /// The versions `< v`.
    pub fn strictly_lower_than(v: &Version) -> (r: VersionSet)
        ensures
            r.wf(),
            forall|x: Seq<char>| #[trigger] r@.contains(x) == !version_le(v@, x),
    {
        VersionSet::from_one(true, v, false)
    }

    /// The versions `>= low` and `< high`.
    pub fn between(low: &Version, high: &Version) -> (r: VersionSet)
        ensures
            r.wf(),
            forall|x: Seq<char>|
                is_version(x) ==> (#[trigger] r@.contains(x) <==> version_le(low@, x) && !version_le(high@, x)),
    {
        VersionSet::higher_than(low).intersection(&VersionSet::strictly_lower_than(high))
    }

    /// Whether both sets have the same first membership and boundaries at
    /// the same places; such sets hold the same versions.
    pub fn equals(&self, other: &VersionSet) -> (r: bool)
        ensures
            r == self@.same_shape(other@),
            r ==> self@.same_versions(other@),
    {
        proof {
            use_type_invariant(self);
            use_type_invariant(other);
            if self@.same_shape(other@) {
                lemma_same_shape_same_versions(self@, other@);
            }
            assert(self@.cuts.len() == self.cuts.len() && other@.cuts.len() == other.cuts.len());
        }
        if self.initial != other.initial || self.cuts.len() != other.cuts.len() {
            return false;
        }
        let mut i: usize = 0;
        while i < self.cuts.len()
            invariant
                i <= self.cuts.len(),
                self.cuts.len() == other.cuts.len(),
                forall|k: int| 0 <= k < i ==> cut_same(#[trigger] self@.cuts[k], other@.cuts[k]),
            decreases self.cuts.len() - i,
        {
            let place = self.cuts[i].place(&other.cuts[i]);
            if place != Place::Same {
                assert(!cut_same(self@.cuts[i as int], other@.cuts[i as int]));
                return false;
            }
            i += 1;
        }
        true
    }

    /// Whether the part of `self` outside `other` is the empty set; if so,
    /// every version of `self` is in `other`.
    pub fn subset_of(&self, other: &VersionSet) -> (r: bool)
        ensures
            r == (self@.intersection(other@.complement()) == VersionSetView::empty()),
            r ==> self@.subset_of(other@),
    {
        let rest = self.intersection(&other.complement());
        proof {
            assert forall|x: Seq<char>| is_version(x) && rest@.holds_nothing() && #[trigger] self@.contains(x)
                implies other@.contains(x) by {
                assert(!rest@.contains(x));
            }
        }
        rest.is_empty()
    }

    /// Whether the intersection is the empty set; if so, no version is in
    /// both.
    pub fn is_disjoint(&self, other: &VersionSet) -> (r: bool)
        ensures
            r == (self@.intersection(other@) == VersionSetView::empty()),
            r ==> self@.disjoint_from(other@),
    {
        let both = self.intersection(other);
        proof {
            assert forall|x: Seq<char>| is_version(x) && both@.holds_nothing() implies !(#[trigger] self@.contains(x)
                && other@.contains(x)) by {
                assert(!both@.contains(x));
            }
        }
        both.is_empty()
    }
}

/// De Morgan: the complement of a union holds the versions of the
/// intersection of the complements.
pub proof fn lemma_de_morgan_union(a: VersionSetView, b: VersionSetView)
    requires
        a.wf(),
        b.wf(),
    ensures
        a.union(b).complement().same_versions(a.complement().intersection(b.complement())),
{
    lemma_union(a, b);
    lemma_intersection(a.complement(), b.complement());
    assert forall|x: Seq<char>| is_version(x) implies (#[trigger] a.union(b).complement().contains(x)
        <==> a.complement().intersection(b.complement()).contains(x)) by {
        lemma_complement_contains(a.union(b), x);
        lemma_complement_contains(a, x);
        lemma_complement_contains(b, x);
        assert(a.union(b).contains(x) <==> a.contains(x) || b.contains(x));
    }
}

/// De Morgan: the complement of an intersection holds the versions of the
/// union of the complements.
pub proof fn lemma_de_morgan_intersection(a: VersionSetView, b: VersionSetView)
    requires
        a.wf(),
        b.wf(),
    ensures
        a.intersection(b).complement().same_versions(a.complement().union(b.complement())),
{
    lemma_intersection(a, b);
    lemma_union(a.complement(), b.complement());
    assert forall|x: Seq<char>| is_version(x) implies (#[trigger] a.intersection(b).complement().contains(x)
        <==> a.complement().union(b.complement()).contains(x)) by {
        lemma_complement_contains(a.intersection(b), x);
        lemma_complement_contains(a, x);
        lemma_complement_contains(b, x);
        assert(a.intersection(b).contains(x) <==> a.contains(x) && b.contains(x));
    }
}

/// Idempotence: a set united or intersected with itself holds its own
/// versions, and the complement of its complement is the set itself.
pub proof fn lemma_idempotence(a: VersionSetView)
    requires
        a.wf(),
    ensures
        a.union(a).same_versions(a),
        a.intersection(a).same_versions(a),
        a.complement().complement() == a,
{
    lemma_union(a, a);
    lemma_intersection(a, a);
}

/// Union and intersection do not depend on the order of their arguments.
pub proof fn lemma_commutativity(a: VersionSetView, b: VersionSetView)
    requires
        a.wf(),
        b.wf(),
    ensures
        a.union(b).same_versions(b.union(a)),
        a.intersection(b).same_versions(b.intersection(a)),
{
    lemma_union(a, b);
    lemma_union(b, a);
    lemma_intersection(a, b);
    lemma_intersection(b, a);
}

/// Associativity of union and of intersection.
pub proof fn lemma_associativity(a: VersionSetView, b: VersionSetView, c: VersionSetView)
    requires
        a.wf(),
        b.wf(),
        c.wf(),
    ensures
        a.union(b).union(c).same_versions(a.union(b.union(c))),
        a.intersection(b).intersection(c).same_versions(a.intersection(b.intersection(c))),
{
    lemma_union(a, b);
    lemma_union(b, c);
    lemma_union(a.union(b), c);
    lemma_union(a, b.union(c));
    lemma_intersection(a, b);
    lemma_intersection(b, c);
    lemma_intersection(a.intersection(b), c);
    lemma_intersection(a, b.intersection(c));
}


/// Whether a version lies above the boundary `c` and not above `d`.
pub open spec fn version_between(c: CutView, d: CutView) -> bool {
    exists|x: Seq<char>| is_version(x) && cut_below(c, x) && !cut_below(d, x)
}

/// Whether there is room between the boundaries: a version lies between
/// any two of them that are not at the same place, one below all of them
/// and one above all of them.
pub open spec fn roomy(cuts: Seq<CutView>) -> bool {
    &&& forall|i: int, j: int|
        0 <= i < cuts.len() && 0 <= j < cuts.len() && cut_lt(#[trigger] cuts[i], #[trigger] cuts[j])
            ==> version_between(cuts[i], cuts[j])
    &&& exists|x: Seq<char>| is_version(x) && forall|i: int| 0 <= i < cuts.len() ==> !cut_below(#[trigger] cuts[i], x)
    &&& exists|x: Seq<char>| is_version(x) && forall|i: int| 0 <= i < cuts.len() ==> cut_below(#[trigger] cuts[i], x)
}

/// The first `n` boundaries of both sets lie at the same places.
spec fn same_upto(a: Seq<CutView>, b: Seq<CutView>, n: int) -> bool {
    forall|i: int| 0 <= i < n ==> cut_same(#[trigger] a[i], b[i])
}

/// Where two sets hold the same versions and their boundaries agree up to
/// `n`, neither has a boundary of number `n` that lies below that of the
/// other, or that the other lacks.
proof fn lemma_no_early_cut(a: VersionSetView, b: VersionSetView, n: int)
    requires
        a.wf(),
        b.wf(),
        a.initial == b.initial,
        a.same_versions(b),
        roomy(a.cuts + b.cuts),
        0 <= n < a.cuts.len(),
        n <= b.cuts.len(),
        same_upto(a.cuts, b.cuts, n),
    ensures
        n < b.cuts.len(),
        !cut_lt(a.cuts[n], b.cuts[n]),
{
    let all = a.cuts + b.cuts;
    let la = a.cuts.len() as int;
    let c = a.cuts[n];
    assert(all[n] == c);
    assert(is_version(c.version));
    // A version above `c` that lies in the stretch of `a` after `c`, and
    // below the boundary of number `n` of `b`, if there is one above `c`.
    let early = n >= b.cuts.len() || cut_lt(c, b.cuts[n]);
    if early {
        let x = if n < b.cuts.len() {
            let stop = if n + 1 < la && cut_lt(a.cuts[n + 1], b.cuts[n]) {
                a.cuts[n + 1]
            } else {
                b.cuts[n]
            };
            let at = if n + 1 < la && cut_lt(a.cuts[n + 1], b.cuts[n]) {
                n + 1
            } else {
                la + n
            };
            assert(all[at] == stop);
            assert(cut_lt(c, stop));
            assert(version_between(all[n], all[at]));
            choose|x: Seq<char>| is_version(x) && cut_below(c, x) && !cut_below(stop, x)
        } else if n + 1 < la {
            assert(all[n + 1] == a.cuts[n + 1]);
            assert(cut_lt(c, a.cuts[n + 1]));
            assert(version_between(all[n], all[n + 1]));
            choose|x: Seq<char>| is_version(x) && cut_below(c, x) && !cut_below(a.cuts[n + 1], x)
        } else {
            let x = choose|x: Seq<char>|
                is_version(x) && forall|i: int| 0 <= i < all.len() ==> cut_below(#[trigger] all[i], x);
            assert(cut_below(all[n], x));
            x
        };
        assert(is_version(x) && cut_below(c, x));
        // In `a`, `x` has exactly n + 1 boundaries below it.
        if n + 1 < la {
            assert(is_version(a.cuts[n + 1].version));
            if n < b.cuts.len() && !cut_lt(a.cuts[n + 1], b.cuts[n]) {
                assert(is_version(b.cuts[n].version));
                lemma_cut_total(a.cuts[n + 1], b.cuts[n]);
                if cut_below(a.cuts[n + 1], x) {
                    lemma_cut_below_mono(b.cuts[n], a.cuts[n + 1], x);
                }
            }
            assert(!cut_below(a.cuts[n + 1], x));
        }
        lemma_contains_at(a.initial, a.cuts, x, n + 1);
        // In `b`, `x` has exactly n boundaries below it.
        if n < b.cuts.len() {
            assert(is_version(b.cuts[n].version));
            if n + 1 < la && cut_lt(a.cuts[n + 1], b.cuts[n]) {
                if cut_below(b.cuts[n], x) {
                    lemma_cut_below_mono(a.cuts[n + 1], b.cuts[n], x);
                }
            }
            assert(!cut_below(b.cuts[n], x));
        }
        if n > 0 {
            assert(cut_same(a.cuts[n - 1], b.cuts[n - 1]));
            assert(is_version(a.cuts[n - 1].version) && is_version(b.cuts[n - 1].version));
            assert(cut_lt(a.cuts[n - 1], c));
            lemma_cut_below_mono(a.cuts[n - 1], c, x);
            lemma_cut_same_below(a.cuts[n - 1], b.cuts[n - 1], x);
        }
        lemma_contains_at(b.initial, b.cuts, x, n);
        assert(a.contains(x) == b.contains(x));
        assert(false);
    }
}

/// Sets that hold the same versions have the same shape, where there is
/// room between their boundaries. With `lemma_same_shape_same_versions`:
/// where there is room, two sets hold the same versions exactly when they
/// have the same first membership and boundaries at the same places,
/// however they were made.
pub proof fn lemma_same_versions_same_shape(a: VersionSetView, b: VersionSetView)
    requires
        a.wf(),
        b.wf(),
        a.same_versions(b),
        roomy(a.cuts + b.cuts),
        roomy(b.cuts + a.cuts),
    ensures
        a.same_shape(b),
{
    let all = a.cuts + b.cuts;
    let x0 = choose|x: Seq<char>| is_version(x) && forall|i: int| 0 <= i < all.len() ==> !cut_below(#[trigger] all[i], x);
    if a.cuts.len() > 0 {
        assert(all[0] == a.cuts[0]);
    }
    if b.cuts.len() > 0 {
        assert(all[a.cuts.len() as int] == b.cuts[0]);
    }
    lemma_contains_at(a.initial, a.cuts, x0, 0);
    lemma_contains_at(b.initial, b.cuts, x0, 0);
    assert(a.contains(x0) == b.contains(x0));
    assert(a.initial == b.initial);
    assert forall|x: Seq<char>| is_version(x) implies (#[trigger] b.contains(x) <==> a.contains(x)) by {
        assert(a.contains(x) <==> b.contains(x));
    }
    lemma_same_cuts(a, b, 0);
}

/// From agreement up to `n`, agreement throughout.
proof fn lemma_same_cuts(a: VersionSetView, b: VersionSetView, n: int)
    requires
        a.wf(),
        b.wf(),
        a.initial == b.initial,
        a.same_versions(b),
        b.same_versions(a),
        roomy(a.cuts + b.cuts),
        roomy(b.cuts + a.cuts),
        0 <= n <= a.cuts.len(),
        n <= b.cuts.len(),
        same_upto(a.cuts, b.cuts, n),
    ensures
        a.cuts.len() == b.cuts.len(),
        same_upto(a.cuts, b.cuts, a.cuts.len() as int),
    decreases a.cuts.len() - n,
{
    assert(same_upto(b.cuts, a.cuts, n)) by {
        assert forall|i: int| 0 <= i < n implies cut_same(#[trigger] b.cuts[i], a.cuts[i]) by {
            assert(cut_same(a.cuts[i], b.cuts[i]));
        }
    }
    if n < a.cuts.len() {
        lemma_no_early_cut(a, b, n);
        lemma_no_early_cut(b, a, n);
        assert(is_version(a.cuts[n].version) && is_version(b.cuts[n].version));
        lemma_cut_total(a.cuts[n], b.cuts[n]);
        assert(cut_same(a.cuts[n], b.cuts[n]));
        assert(same_upto(a.cuts, b.cuts, n + 1));
        lemma_same_cuts(a, b, n + 1);
    } else if n < b.cuts.len() {
        lemma_no_early_cut(b, a, n);
    }
}

} // verus!
