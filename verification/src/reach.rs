//! Reachability in a directed graph given as a list of links.

use vstd::prelude::*;

verus! {

/// Whether a link leads from node `a` to node `b`, both among the first `n`
/// nodes. Links that name other nodes count for nothing.
pub open spec fn linked(n: int, links: Seq<(usize, usize)>, a: int, b: int) -> bool {
    &&& 0 <= a < n
    &&& 0 <= b < n
    &&& exists|e: int| 0 <= e < links.len() && (#[trigger] links[e]).0 == a && links[e].1 == b
}

/// Whether each node of `w` is linked to the next.
pub open spec fn is_walk(n: int, links: Seq<(usize, usize)>, w: Seq<int>) -> bool {
    &&& w.len() >= 1
    &&& 0 <= w[0] < n
    &&& forall|i: int| 0 <= i < w.len() - 1 ==> linked(n, links, #[trigger] w[i], w[i + 1])
}

/// Whether a walk leads from `a` to `b`. Every node reaches itself.
pub open spec fn reaches(n: int, links: Seq<(usize, usize)>, a: int, b: int) -> bool {
    exists|w: Seq<int>| is_walk(n, links, w) && w.first() == a && w.last() == b
}

/// Whether a walk leads from one of the starts to `x`.
pub open spec fn reached_from(n: int, links: Seq<(usize, usize)>, starts: Seq<usize>, x: int) -> bool {
    exists|s: int| 0 <= s < starts.len() && reaches(n, links, #[trigger] starts[s] as int, x)
}

/// A walk can be carried on along one more link.
pub proof fn lemma_walk_on(n: int, links: Seq<(usize, usize)>, a: int, b: int, c: int)
    requires
        reaches(n, links, a, b),
        linked(n, links, b, c),
    ensures
        reaches(n, links, a, c),
{
    let w = choose|w: Seq<int>| is_walk(n, links, w) && w.first() == a && w.last() == b;
    let longer = w.push(c);
    assert forall|i: int| 0 <= i < longer.len() - 1 implies linked(n, links, #[trigger] longer[i], longer[i + 1]) by {
        if i < w.len() - 1 {
            assert(longer[i] == w[i] && longer[i + 1] == w[i + 1]);
        }
    }
    assert(is_walk(n, links, longer) && longer.first() == a && longer.last() == c);
}

/// Every node reaches itself.
pub proof fn lemma_reaches_itself(n: int, links: Seq<(usize, usize)>, a: int)
    requires
        0 <= a < n,
    ensures
        reaches(n, links, a, a),
{
    let w = seq![a];
    assert(is_walk(n, links, w) && w.first() == a && w.last() == a);
}

/// Distinct numbers from 0 up to `n`, without it, are at most `n` numbers.
pub proof fn lemma_distinct_bound(s: Seq<int>, n: int)
    requires
        n >= 0,
        forall|i: int| 0 <= i < s.len() ==> 0 <= #[trigger] s[i] < n,
        forall|i: int, j: int| 0 <= i < j < s.len() ==> #[trigger] s[i] != #[trigger] s[j],
    ensures
        s.len() <= n,
    decreases n,
{
    if s.len() == 0 {
    } else if n <= 0 {
        assert(0 <= s[0] < n);
    } else if exists|k: int| 0 <= k < s.len() && #[trigger] s[k] == n - 1 {
        let k = choose|k: int| 0 <= k < s.len() && #[trigger] s[k] == n - 1;
        let rest = s.remove(k);
        assert forall|i: int| 0 <= i < rest.len() implies 0 <= #[trigger] rest[i] < n - 1 by {
            if i < k {
                assert(rest[i] == s[i]);
            } else {
                assert(rest[i] == s[i + 1]);
            }
        }
        assert forall|i: int, j: int| 0 <= i < j < rest.len() implies #[trigger] rest[i] != #[trigger] rest[j] by {
            let a = if i < k { i } else { i + 1 };
            let b = if j < k { j } else { j + 1 };
            assert(rest[i] == s[a] && rest[j] == s[b]);
        }
        lemma_distinct_bound(rest, n - 1);
        assert(rest.len() == s.len() - 1);
    } else {
        assert forall|i: int| 0 <= i < s.len() implies 0 <= #[trigger] s[i] < n - 1 by {}
        lemma_distinct_bound(s, n - 1);
    }
}


/// What a search from some starts has found: which nodes a walk leads to,
/// and for each of them the node before it on one such walk.
pub struct Search {
    marked: Vec<bool>,
    parent: Vec<usize>,
    rank: Vec<usize>,
    order: Vec<usize>,
    links: Ghost<Seq<(usize, usize)>>,
    starts: Ghost<Seq<usize>>,
}

/// Whether `x` is one of the starts.
pub open spec fn is_start(starts: Seq<usize>, x: int) -> bool {
    exists|s: int| 0 <= s < starts.len() && #[trigger] starts[s] == x
}

/// What holds while a search runs: the first `begun` starts are found, the
/// nodes found are numbered in the order they were found, each is a start
/// or was found over a link from a node found before it, and every link
/// from one of the first `head` nodes found leads to a node that is found.
spec fn search_ok(
    n: int,
    links: Seq<(usize, usize)>,
    starts: Seq<usize>,
    marked: Seq<bool>,
    parent: Seq<usize>,
    rank: Seq<usize>,
    order: Seq<usize>,
    head: int,
    begun: int,
) -> bool {
    &&& marked.len() == n
    &&& forall|s: int| 0 <= s < begun && s < starts.len() && (#[trigger] starts[s]) < n ==> marked[starts[s] as int]
    &&& parent.len() == n
    &&& rank.len() == n
    &&& 0 <= head <= order.len()
    &&& forall|k: int| 0 <= k < order.len() ==> (#[trigger] order[k]) < n && marked[order[k] as int] && rank[order[k] as int] == k
    &&& forall|x: int| 0 <= x < n && #[trigger] marked[x] ==> rank[x] < order.len() && order[rank[x] as int] == x
    &&& forall|x: int|
        0 <= x < n && #[trigger] marked[x] ==> (parent[x] == x && is_start(starts, x)) || (parent[x] < n
            && marked[parent[x] as int] && rank[parent[x] as int] < rank[x] && linked(n, links, parent[x] as int, x))
    &&& forall|k: int, e: int|
        0 <= k < head && 0 <= e < links.len() && (#[trigger] links[e]).0 == #[trigger] order[k] && links[e].1 < n
            ==> marked[links[e].1 as int]
}

/// A node that is found is reached from a start.
proof fn lemma_found_is_reached(
    n: int,
    links: Seq<(usize, usize)>,
    starts: Seq<usize>,
    marked: Seq<bool>,
    parent: Seq<usize>,
    rank: Seq<usize>,
    order: Seq<usize>,
    head: int,
    x: int,
)
    requires
        search_ok(n, links, starts, marked, parent, rank, order, head, 0),
        0 <= x < n,
        marked[x],
    ensures
        reached_from(n, links, starts, x),
    decreases rank[x],
{
    if parent[x] == x && is_start(starts, x) {
        let s = choose|s: int| 0 <= s < starts.len() && #[trigger] starts[s] == x;
        lemma_reaches_itself(n, links, x);
        assert(reaches(n, links, starts[s] as int, x));
    } else {
        let p = parent[x] as int;
        lemma_found_is_reached(n, links, starts, marked, parent, rank, order, head, p);
        let s = choose|s: int| 0 <= s < starts.len() && reaches(n, links, #[trigger] starts[s] as int, p);
        lemma_walk_on(n, links, starts[s] as int, p, x);
        assert(reaches(n, links, starts[s] as int, x));
    }
}

/// Once every found node has been gone through, each node of a walk that
/// begins at a found node is found.
proof fn lemma_walk_is_found(
    n: int,
    links: Seq<(usize, usize)>,
    starts: Seq<usize>,
    marked: Seq<bool>,
    parent: Seq<usize>,
    rank: Seq<usize>,
    order: Seq<usize>,
    w: Seq<int>,
    i: int,
)
    requires
        search_ok(n, links, starts, marked, parent, rank, order, order.len() as int, 0),
        is_walk(n, links, w),
        marked[w[0]],
        0 <= i < w.len(),
    ensures
        0 <= w[i] < n,
        marked[w[i]],
    decreases i,
{
    if i > 0 {
        lemma_walk_is_found(n, links, starts, marked, parent, rank, order, w, i - 1);
        let a = w[i - 1];
        let b = w[i];
        assert(linked(n, links, a, b));
        let e = choose|e: int| 0 <= e < links.len() && (#[trigger] links[e]).0 == a && links[e].1 == b;
        let k = rank[a] as int;
        assert(order[k] == a);
        assert(links[e].0 == order[k]);
    }
}

/// The nodes found are at most all the nodes.
proof fn lemma_order_bound(
    n: int,
    links: Seq<(usize, usize)>,
    starts: Seq<usize>,
    marked: Seq<bool>,
    parent: Seq<usize>,
    rank: Seq<usize>,
    order: Seq<usize>,
    head: int,
    begun: int,
)
    requires
        n >= 0,
        search_ok(n, links, starts, marked, parent, rank, order, head, begun),
    ensures
        order.len() <= n,
{
    let ints = Seq::new(order.len(), |k: int| order[k] as int);
    assert forall|i: int, j: int| 0 <= i < j < ints.len() implies #[trigger] ints[i] != #[trigger] ints[j] by {
        assert(rank[order[i] as int] == i);
        assert(rank[order[j] as int] == j);
    }
    assert forall|i: int| 0 <= i < ints.len() implies 0 <= #[trigger] ints[i] < n by {
        assert(order[i] < n);
    }
    lemma_distinct_bound(ints, n);
}

/// Finding one more node, as a start or over a link from a found node,
/// keeps the search in order.
proof fn lemma_mark(
    n: int,
    links: Seq<(usize, usize)>,
    starts: Seq<usize>,
    marked: Seq<bool>,
    parent: Seq<usize>,
    rank: Seq<usize>,
    order: Seq<usize>,
    head: int,
    begun: int,
    x: usize,
    p: usize,
)
    requires
        search_ok(n, links, starts, marked, parent, rank, order, head, begun),
        x < n,
        !marked[x as int],
        order.len() <= usize::MAX,
        (p == x && is_start(starts, x as int)) || (p < n && marked[p as int] && linked(n, links, p as int, x as int)),
    ensures
        search_ok(
            n,
            links,
            starts,
            marked.update(x as int, true),
            parent.update(x as int, p),
            rank.update(x as int, order.len() as usize),
            order.push(x),
            head,
            begun,
        ),
{
    let marked2 = marked.update(x as int, true);
    let parent2 = parent.update(x as int, p);
    let rank2 = rank.update(x as int, order.len() as usize);
    let order2 = order.push(x);
    assert forall|k: int| 0 <= k < order2.len() implies (#[trigger] order2[k]) < n && marked2[order2[k] as int]
        && rank2[order2[k] as int] == k by {
        if k < order.len() {
            assert(order2[k] == order[k]);
            assert(marked[order[k] as int]);
        }
    }
    assert forall|y: int| 0 <= y < n && #[trigger] marked2[y] implies rank2[y] < order2.len() && order2[rank2[y] as int]
        == y by {
        if y != x {
            assert(marked[y]);
        }
    }
    assert forall|y: int| 0 <= y < n && #[trigger] marked2[y] implies (parent2[y] == y && is_start(starts, y)) || (
    parent2[y] < n && marked2[parent2[y] as int] && rank2[parent2[y] as int] < rank2[y] && linked(
        n,
        links,
        parent2[y] as int,
        y,
    )) by {
        if y != x {
            assert(marked[y]);
            if !(parent[y] == y && is_start(starts, y)) {
                assert(marked[parent[y] as int]);
            }
        } else {
            if !(p == x && is_start(starts, x as int)) {
                assert(marked[p as int]);
            }
        }
    }
    assert forall|k: int, e: int|
        0 <= k < head && 0 <= e < links.len() && (#[trigger] links[e]).0 == #[trigger] order2[k] && links[e].1
            < n implies marked2[links[e].1 as int] by {
        assert(order2[k] == order[k]);
        assert(marked[links[e].1 as int]);
    }
    assert forall|s: int| 0 <= s < begun && s < starts.len() && (#[trigger] starts[s]) < n implies marked2[starts[s] as int] by {
        assert(marked[starts[s] as int]);
    }
}

/// The nodes of a list, as numbers.
pub open spec fn as_ints(v: Seq<usize>) -> Seq<int> {
    Seq::new(v.len(), |i: int| v[i] as int)
}

impl Search {
    /// A finished search of a graph of `n` nodes.
    pub closed spec fn done(&self, n: int) -> bool {
        search_ok(
            n,
            self.links@,
            self.starts@,
            self.marked@,
            self.parent@,
            self.rank@,
            self.order@,
            self.order.len() as int,
            self.starts@.len() as int,
        )
    }

    /// The links of the graph that was searched.
    pub closed spec fn links(&self) -> Seq<(usize, usize)> {
        self.links@
    }

    /// The starts of the search.
    pub closed spec fn starts(&self) -> Seq<usize> {
        self.starts@
    }

    /// Which nodes were found.
    pub closed spec fn found(&self) -> Seq<bool> {
        self.marked@
    }

    /// The nodes that were found are the nodes that a walk from a start
    /// leads to.
    pub proof fn lemma_found_exactly(&self, n: int, x: int)
        requires
            self.done(n),
            0 <= x < n,
        ensures
            self.found()[x] <==> reached_from(n, self.links(), self.starts(), x),
    {
        let links = self.links@;
        let starts = self.starts@;
        if self.marked@[x] {
            lemma_found_is_reached(
                n,
                links,
                starts,
                self.marked@,
                self.parent@,
                self.rank@,
                self.order@,
                self.order.len() as int,
                x,
            );
        }
        if reached_from(n, links, starts, x) {
            let s = choose|s: int| 0 <= s < starts.len() && reaches(n, links, #[trigger] starts[s] as int, x);
            let w = choose|w: Seq<int>| is_walk(n, links, w) && w.first() == starts[s] as int && w.last() == x;
            assert(self.marked@[w[0]]);
            lemma_walk_is_found(
                n,
                links,
                starts,
                self.marked@,
                self.parent@,
                self.rank@,
                self.order@,
                w,
                w.len() - 1,
            );
        }
    }

    /// Whether a walk from a start leads to node `x`.
    pub fn is_found(&self, x: usize) -> (r: bool)
        ensures
            r == (x < self.found().len() && self.found()[x as int]),
    {
        x < self.marked.len() && self.marked[x]
    }

    /// A walk from a start to the found node `x`.
    pub fn walk_to(&self, x: usize) -> (r: Vec<usize>)
        requires
            self.done(self.found().len() as int),
            x < self.found().len(),
            self.found()[x as int],
        ensures
            is_walk(self.found().len() as int, self.links(), as_ints(r@)),
            is_start(self.starts(), r[0] as int),
            r[r.len() - 1] == x,
    {
        let n = self.marked.len();
        let mut back: Vec<usize> = Vec::new();
        back.push(x);
        let mut cur = x;
        while self.parent[cur] != cur
            invariant
                n == self.marked.len(),
                self.done(n as int),
                cur < n,
                self.marked[cur as int],
                back.len() >= 1,
                back[0] == x,
                back[back.len() - 1] == cur,
                forall|i: int| 0 <= i < back.len() ==> (#[trigger] back[i]) < n,
                forall|i: int|
                    0 <= i < back.len() - 1 ==> linked(n as int, self.links@, (#[trigger] back[i + 1]) as int, back[i] as int),
            decreases self.rank[cur as int],
        {
            let p = self.parent[cur];
            back.push(p);
            cur = p;
        }
        let mut out: Vec<usize> = Vec::new();
        let mut k: usize = back.len();
        while k > 0
            invariant
                k <= back.len(),
                out.len() == back.len() - k,
                forall|i: int| 0 <= i < out.len() ==> #[trigger] out[i] == back[back.len() - 1 - i],
            decreases k,
        {
            k -= 1;
            out.push(back[k]);
        }
        proof {
            let w = as_ints(out@);
            assert forall|i: int| 0 <= i < w.len() - 1 implies linked(n as int, self.links@, #[trigger] w[i], w[i + 1]) by {
                let j = back.len() - 2 - i;
                assert(out[i] == back[j + 1]);
                assert(out[i + 1] == back[j]);
                assert(linked(n as int, self.links@, back[j + 1] as int, back[j] as int));
            }
            assert(out[0] == back[back.len() - 1]);
            assert(w[0] == cur);
        }
        out
    }
}

/// Searches a graph of `n` nodes from the starts given: finds the nodes
/// that a walk from a start leads to. Starts and links that name no node of
/// the graph count for nothing.
pub fn search(n: usize, links: &Vec<(usize, usize)>, starts: &Vec<usize>) -> (r: Search)
    ensures
        r.done(n as int),
        r.links() == links@,
        r.starts() == starts@,
        r.found().len() == n,
        forall|x: int| 0 <= x < n ==> (#[trigger] r.found()[x] <==> reached_from(n as int, links@, starts@, x)),
{
    let mut marked: Vec<bool> = Vec::new();
    let mut parent: Vec<usize> = Vec::new();
    let mut rank: Vec<usize> = Vec::new();
    let mut i: usize = 0;
    while i < n
        invariant
            i <= n,
            marked.len() == i,
            parent.len() == i,
            rank.len() == i,
            forall|x: int| 0 <= x < i ==> !#[trigger] marked[x],
        decreases n - i,
    {
        marked.push(false);
        parent.push(0);
        rank.push(0);
        i += 1;
    }
    let mut order: Vec<usize> = Vec::new();
    let mut s: usize = 0;
    while s < starts.len()
        invariant
            s <= starts.len(),
            search_ok(n as int, links@, starts@, marked@, parent@, rank@, order@, 0, s as int),
        decreases starts.len() - s,
    {
        let x = starts[s];
        if x < n && !marked[x] {
            proof {
                lemma_order_bound(n as int, links@, starts@, marked@, parent@, rank@, order@, 0, s as int);
                lemma_mark(n as int, links@, starts@, marked@, parent@, rank@, order@, 0, s as int, x, x);
            }
            marked[x] = true;
            parent[x] = x;
            rank[x] = order.len();
            order.push(x);
        }
        s += 1;
    }
    let mut head: usize = 0;
    while head < order.len()
        invariant
            search_ok(n as int, links@, starts@, marked@, parent@, rank@, order@, head as int, starts.len() as int),
        decreases n - head,
    {
        proof {
            lemma_order_bound(n as int, links@, starts@, marked@, parent@, rank@, order@, head as int, starts.len() as int);
        }
        let u = order[head];
        let mut e: usize = 0;
        while e < links.len()
            invariant
                e <= links.len(),
                head < order.len(),
                u == order[head as int],
                search_ok(n as int, links@, starts@, marked@, parent@, rank@, order@, head as int, starts.len() as int),
                forall|d: int|
                    0 <= d < e && (#[trigger] links[d]).0 == u && links[d].1 < n ==> marked[links[d].1 as int],
            decreases links.len() - e,
        {
            let a = links[e].0;
            let b = links[e].1;
            if a == u && b < n && !marked[b] {
                proof {
                    assert(marked[u as int]);
                    assert(linked(n as int, links@, u as int, b as int));
                    lemma_mark(
                        n as int,
                        links@,
                        starts@,
                        marked@,
                        parent@,
                        rank@,
                        order@,
                        head as int,
                        starts.len() as int,
                        b,
                        u,
                    );
                }
                marked[b] = true;
                parent[b] = u;
                rank[b] = order.len();
                order.push(b);
            }
            e += 1;
        }
        head += 1;
    }
    let r = Search { marked, parent, rank, order, links: Ghost(links@), starts: Ghost(starts@) };
    proof {
        assert forall|x: int| 0 <= x < n implies (#[trigger] r.found()[x] <==> reached_from(
            n as int,
            links@,
            starts@,
            x,
        )) by {
            r.lemma_found_exactly(n as int, x);
        }
    }
    r
}

} // verus!
