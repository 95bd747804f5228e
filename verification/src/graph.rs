use vstd::prelude::*;
use std::collections::VecDeque;

use crate::gpu::GpuAvailability;


verus! {

// ─────────────────────────────────────────────────────────────────────────
// Reachability model
// ─────────────────────────────────────────────────────────────────────────

/// `v` is listed among the neighbours of `u`.
pub open spec fn has_edge(adj: Seq<Seq<usize>>, u: usize, v: usize) -> bool {
    (u as int) < adj.len() && adj[u as int].contains(v)
}

/// `v` can be reached from `start` along at most `k` edges.
pub open spec fn within(adj: Seq<Seq<usize>>, start: usize, k: nat, v: usize) -> bool
    decreases k,
{
    if k == 0 {
        v == start
    } else {
        within(adj, start, (k - 1) as nat, v) || exists|u: usize|
            within(adj, start, (k - 1) as nat, u) && #[trigger] has_edge(adj, u, v)
    }
}

/// `v` can be reached from `start` at all.
pub open spec fn reachable(adj: Seq<Seq<usize>>, start: usize, v: usize) -> bool {
    exists|k: nat| #[trigger] within(adj, start, k, v)
}

/// `d` is the length of a shortest path from `start` to `v`.
pub open spec fn is_dist(adj: Seq<Seq<usize>>, start: usize, v: usize, d: nat) -> bool {
    &&& within(adj, start, d, v)
    &&& forall|j: nat| j < d ==> !#[trigger] within(adj, start, j, v)
}

/// Reaching `v` within `j` steps means reaching it within any larger bound.
pub proof fn lemma_within_monotone(adj: Seq<Seq<usize>>, start: usize, j: nat, k: nat, v: usize)
    requires
        j <= k,
        within(adj, start, j, v),
    ensures
        within(adj, start, k, v),
    decreases k - j,
{
    if j < k {
        lemma_within_monotone(adj, start, j, (k - 1) as nat, v);
    }
}

/// A node other than `start` that is reached within `k` steps has a
/// predecessor that is reached in fewer steps.
pub proof fn lemma_predecessor(adj: Seq<Seq<usize>>, start: usize, k: nat, v: usize) -> (p: (
    usize,
    nat,
))
    requires
        within(adj, start, k, v),
        v != start,
    ensures
        p.1 < k,
        within(adj, start, p.1, p.0),
        has_edge(adj, p.0, v),
    decreases k,
{
    if within(adj, start, (k - 1) as nat, v) {
        let q = lemma_predecessor(adj, start, (k - 1) as nat, v);
        q
    } else {
        let u = choose|u: usize| within(adj, start, (k - 1) as nat, u) && #[trigger] has_edge(adj, u, v);
        (u, (k - 1) as nat)
    }
}

/// A set that holds `start` and is closed under edges holds every node
/// reachable from `start`.
pub proof fn lemma_closed_set_holds_reachable(
    adj: Seq<Seq<usize>>,
    start: usize,
    s: Seq<usize>,
    k: nat,
    v: usize,
)
    requires
        s.contains(start),
        forall|u: usize, w: usize| s.contains(u) && #[trigger] has_edge(adj, u, w) ==> s.contains(w),
        within(adj, start, k, v),
    ensures
        s.contains(v),
    decreases k,
{
    if v != start {
        let p = lemma_predecessor(adj, start, k, v);
        lemma_closed_set_holds_reachable(adj, start, s, p.1, p.0);
    }
}

/// A node has at most one shortest distance.
pub proof fn lemma_dist_unique(adj: Seq<Seq<usize>>, start: usize, v: usize, d1: nat, d2: nat)
    requires
        is_dist(adj, start, v, d1),
        is_dist(adj, start, v, d2),
    ensures
        d1 == d2,
{
    if d1 < d2 {
        assert(!within(adj, start, d1, v));
    } else if d2 < d1 {
        assert(!within(adj, start, d2, v));
    }
}

/// A duplicate-free list of nodes below `n` has at most `n` entries.
proof fn lemma_distinct_nodes_bounded(s: Seq<usize>, n: usize)
    requires
        s.no_duplicates(),
        forall|i: int| 0 <= i < s.len() ==> (#[trigger] s[i]) < n,
    ensures
        s.len() <= n,
{
    let t = s.map_values(|x: usize| x as int);
    assert forall|i: int, j: int| 0 <= i < t.len() && 0 <= j < t.len() && i != j implies t[i] != t[j] by {
        assert(s[i] != s[j]);
    }
    assert(t.no_duplicates());
    t.unique_seq_to_set();
    vstd::set_lib::lemma_int_range(0, n as int);
    assert forall|x: int| t.to_set().contains(x) implies vstd::set_lib::set_int_range(0, n as int).contains(x) by {
        let i = choose|i: int| 0 <= i < t.len() && t[i] == x;
        assert(s[i] < n);
    }
    vstd::set_lib::lemma_len_subset(t.to_set(), vstd::set_lib::set_int_range(0, n as int));
}

/// A first lister and its first listing position are the ones recorded
/// when the node was discovered.
proof fn lemma_first_lister_is_recorded(
    adj: Seq<Seq<usize>>,
    seen: Seq<usize>,
    par: Seq<int>,
    pos: Seq<int>,
    i: int,
    p: int,
    kp: int,
)
    requires
        1 <= p < seen.len(),
        par.len() == seen.len(),
        pos.len() == seen.len(),
        listed_at(adj, seen, par[p], p, pos[p]),
        forall|i2: int| 0 <= i2 < par[p] ==> !#[trigger] adj[seen[i2] as int].contains(seen[p]),
        first_lister(adj, seen, i, p),
        listed_at(adj, seen, i, p, kp),
    ensures
        i == par[p],
        kp == pos[p],
{
    if i < par[p] {
        assert(!adj[seen[i] as int].contains(seen[p]));
    }
    if par[p] < i {
        assert(adj[seen[par[p]] as int][pos[p]] == seen[p]);
        assert(!adj[seen[par[p]] as int].contains(seen[p]));
    }
    if kp < pos[p] {
        assert(adj[seen[i] as int][kp] != seen[p]);
    }
    if pos[p] < kp {
        assert(adj[seen[i] as int][pos[p]] != seen[p]);
    }
}

/// The level recorded for `v` in a distance table (zero where none is).
spec fn level(dist: Seq<Option<usize>>, v: usize) -> int {
    match dist[v as int] {
        Some(d) => d as int,
        None => 0,
    }
}

/// Every node reachable from `start` has a shortest distance.
pub proof fn lemma_reachable_has_dist(adj: Seq<Seq<usize>>, start: usize, k: nat, v: usize)
    requires
        within(adj, start, k, v),
    ensures
        exists|d: nat| d <= k && #[trigger] is_dist(adj, start, v, d),
    decreases k,
{
    if k == 0 {
        assert(is_dist(adj, start, v, 0));
    } else if within(adj, start, (k - 1) as nat, v) {
        lemma_reachable_has_dist(adj, start, (k - 1) as nat, v);
    } else {
        assert forall|j: nat| j < k implies !#[trigger] within(adj, start, j, v) by {
            if within(adj, start, j, v) {
                lemma_within_monotone(adj, start, j, (k - 1) as nat, v);
            }
        }
        assert(is_dist(adj, start, v, k));
    }
}

/// A node is reachable exactly when it has a shortest distance.
pub proof fn law_reachable_iff_has_dist(adj: Seq<Seq<usize>>, start: usize, v: usize)
    ensures
        reachable(adj, start, v) <==> exists|d: nat| #[trigger] is_dist(adj, start, v, d),
{
    if reachable(adj, start, v) {
        let k = choose|k: nat| #[trigger] within(adj, start, k, v);
        lemma_reachable_has_dist(adj, start, k, v);
    }
    if exists|d: nat| #[trigger] is_dist(adj, start, v, d) {
        let d = choose|d: nat| #[trigger] is_dist(adj, start, v, d);
        assert(within(adj, start, d, v));
    }
}

/// Along an edge the shortest distance grows by at most one.
pub proof fn law_dist_edge_step(
    adj: Seq<Seq<usize>>,
    start: usize,
    u: usize,
    v: usize,
    du: nat,
    dv: nat,
)
    requires
        is_dist(adj, start, u, du),
        is_dist(adj, start, v, dv),
        has_edge(adj, u, v),
    ensures
        dv <= du + 1,
{
    assert(within(adj, start, du + 1, v));
    if dv > du + 1 {
        assert(!within(adj, start, du + 1, v));
    }
}

/// The neighbour lists after `v` is appended to the list of `u`.
pub open spec fn with_arc(adj: Seq<Seq<usize>>, u: usize, v: usize) -> Seq<Seq<usize>> {
    adj.update(u as int, adj[u as int].push(v))
}

/// The number of entries over all neighbour lists.
pub open spec fn total_degree(adj: Seq<Seq<usize>>) -> nat
    decreases adj.len(),
{
    if adj.len() == 0 {
        0
    } else {
        total_degree(adj.drop_last()) + adj.last().len()
    }
}

/// The total degree counts every entry of every list: adding a list adds
/// its length, and no lists have total degree zero.
pub proof fn law_total_degree_push(adj: Seq<Seq<usize>>, l: Seq<usize>)
    ensures
        total_degree(Seq::<Seq<usize>>::empty()) == 0,
        total_degree(adj.push(l)) == total_degree(adj) + l.len(),
{
    assert(adj.push(l).drop_last() =~= adj);
}

/// Appending one neighbour adds one to the total degree.
pub proof fn law_with_arc_degree(adj: Seq<Seq<usize>>, u: usize, v: usize)
    requires
        (u as int) < adj.len(),
    ensures
        total_degree(with_arc(adj, u, v)) == total_degree(adj) + 1,
    decreases adj.len(),
{
    let b = with_arc(adj, u, v);
    if u as int == adj.len() - 1 {
        assert(b.drop_last() =~= adj.drop_last());
    } else {
        assert(b.drop_last() =~= with_arc(adj.drop_last(), u, v));
        law_with_arc_degree(adj.drop_last(), u, v);
    }
}

/// After appending `v` to the list of `u`, `v` is a neighbour of `u`, and
/// every other list is unchanged.
pub proof fn law_with_arc_adds_edge(adj: Seq<Seq<usize>>, u: usize, v: usize)
    requires
        (u as int) < adj.len(),
    ensures
        has_edge(with_arc(adj, u, v), u, v),
        forall|x: usize, y: usize| #[trigger] has_edge(adj, x, y) ==> has_edge(with_arc(adj, u, v), x, y),
        forall|x: usize, y: usize|
            x != u ==> (#[trigger] has_edge(with_arc(adj, u, v), x, y) <==> has_edge(adj, x, y)),
{
    let b = with_arc(adj, u, v);
    assert(b[u as int][adj[u as int].len() as int] == v);
    assert forall|x: usize, y: usize| #[trigger] has_edge(adj, x, y) implies has_edge(b, x, y) by {
        let k = choose|k: int| 0 <= k < adj[x as int].len() && adj[x as int][k] == y;
        assert(b[x as int][k] == y);
    }
}

/// Position `k` of the neighbour list of `s[i]` is the first that names `s[p]`.
pub open spec fn listed_at(adj: Seq<Seq<usize>>, s: Seq<usize>, i: int, p: int, k: int) -> bool {
    &&& 0 <= i < s.len()
    &&& 0 <= p < s.len()
    &&& 0 <= k < adj[s[i] as int].len()
    &&& adj[s[i] as int][k] == s[p]
    &&& forall|k2: int| 0 <= k2 < k ==> adj[s[i] as int][k2] != s[p]
}

/// `s[i]` is the earliest entry of `s` whose neighbour list names `s[p]`.
pub open spec fn first_lister(adj: Seq<Seq<usize>>, s: Seq<usize>, i: int, p: int) -> bool {
    &&& 0 <= i < s.len()
    &&& 0 <= p < s.len()
    &&& adj[s[i] as int].contains(s[p])
    &&& forall|i2: int| 0 <= i2 < i ==> !adj[s[i2] as int].contains(s[p])
}

/// Some entry before `s[p]` names it in its neighbour list.
pub open spec fn named_earlier(adj: Seq<Seq<usize>>, s: Seq<usize>, p: int) -> bool {
    exists|i: int| i < p && #[trigger] first_lister(adj, s, i, p)
}

/// Every entry after the first is named by an earlier entry's neighbour
/// list, and entries come in the order in which they are first named: by
/// the index of their first lister, then by their position in its list.
pub open spec fn in_discovery_order(adj: Seq<Seq<usize>>, s: Seq<usize>) -> bool {
    &&& forall|p: int| 1 <= p < s.len() ==> #[trigger] named_earlier(adj, s, p)
    &&& forall|p: int, q: int, i: int, j: int, kp: int, kq: int|
        #![trigger first_lister(adj, s, i, p), first_lister(adj, s, j, q), listed_at(adj, s, i, p, kp), listed_at(adj, s, j, q, kq)]
        1 <= p < q < s.len() && first_lister(adj, s, i, p) && first_lister(adj, s, j, q)
            && listed_at(adj, s, i, p, kp) && listed_at(adj, s, j, q, kq) ==> i < j || (i == j
            && kp < kq)
}

/// The order in which a breadth-first search from `start` visits nodes:
/// it begins at `start`, lists every reachable node exactly once and
/// nothing else, lists the nodes in the order in which they are discovered,
/// and (as follows) never lists a node before a nearer one.
pub open spec fn is_bfs_order(adj: Seq<Seq<usize>>, start: usize, order: Seq<usize>) -> bool {
    &&& order.len() > 0
    &&& order[0] == start
    &&& order.no_duplicates()
    &&& forall|v: usize| order.contains(v) <==> #[trigger] reachable(adj, start, v)
    &&& in_discovery_order(adj, order)
    &&& forall|i: int, j: int, di: nat, dj: nat|
        0 <= i < j < order.len() && #[trigger] is_dist(adj, start, order[i], di) && #[trigger] is_dist(
            adj,
            start,
            order[j],
            dj,
        ) ==> di <= dj
}

/// A table of shortest distances from `start` over the nodes `0 .. n`:
/// `None` exactly for the unreachable nodes.
pub open spec fn is_distance_table(
    adj: Seq<Seq<usize>>,
    n: usize,
    start: usize,
    dist: Seq<Option<usize>>,
) -> bool {
    &&& dist.len() == n
    &&& forall|v: usize| v < n ==> ((#[trigger] dist[v as int] is None) <==> !reachable(adj, start, v))
    &&& forall|v: usize|
        v < n && (#[trigger] dist[v as int]) is Some ==> is_dist(
            adj,
            start,
            v,
            dist[v as int]->0 as nat,
        )
}

/// The first position of `x` in a sequence that holds it.
proof fn lemma_first_position(s: Seq<usize>, x: usize, from: int) -> (k: int)
    requires
        0 <= from <= s.len(),
        forall|k2: int| 0 <= k2 < from ==> s[k2] != x,
        exists|k3: int| from <= k3 < s.len() && s[k3] == x,
    ensures
        0 <= k < s.len(),
        s[k] == x,
        forall|k2: int| 0 <= k2 < k ==> s[k2] != x,
    decreases s.len() - from,
{
    if s[from] == x {
        from
    } else {
        lemma_first_position(s, x, from + 1)
    }
}

/// The first index below `bound` at which two sequences that agree before
/// `from` differ, if any.
proof fn lemma_first_difference(a: Seq<usize>, b: Seq<usize>, from: int, bound: int) -> (m: int)
    requires
        0 <= from <= bound,
        bound <= a.len(),
        bound <= b.len(),
        forall|k: int| 0 <= k < from ==> a[k] == b[k],
    ensures
        from <= m <= bound,
        forall|k: int| 0 <= k < m ==> a[k] == b[k],
        m < bound ==> a[m] != b[m],
    decreases bound - from,
{
    if from == bound || a[from] != b[from] {
        from
    } else {
        lemma_first_difference(a, b, from + 1, bound)
    }
}

/// The breadth-first order from a node is unique: two sequences that both
/// meet `is_bfs_order` for the same graph and start are equal.
pub proof fn law_bfs_order_unique(adj: Seq<Seq<usize>>, start: usize, o1: Seq<usize>, o2: Seq<usize>)
    requires
        is_bfs_order(adj, start, o1),
        is_bfs_order(adj, start, o2),
    ensures
        o1 == o2,
{
    let bound = if o1.len() <= o2.len() { o1.len() as int } else { o2.len() as int };
    let m = lemma_first_difference(o1, o2, 0, bound);
    if m == bound {
        if o1.len() != o2.len() {
            if o1.len() > o2.len() {
                let x = o1[bound];
                assert(o1.contains(x));
                assert(reachable(adj, start, x));
                assert(o2.contains(x));
                let px = choose|px: int| 0 <= px < o2.len() && o2[px] == x;
                assert(o1[px] == x);
            } else {
                let y = o2[bound];
                assert(o2.contains(y));
                assert(reachable(adj, start, y));
                assert(o1.contains(y));
                let py = choose|py: int| 0 <= py < o1.len() && o1[py] == y;
                assert(o2[py] == y);
            }
        }
        assert(o1 =~= o2);
    } else {
        let x = o1[m];
        let y = o2[m];
        assert(m >= 1);
        assert(o1.contains(x) && o2.contains(y));
        assert(reachable(adj, start, x) && reachable(adj, start, y));
        assert(o2.contains(x) && o1.contains(y));
        let px = choose|px: int| 0 <= px < o2.len() && o2[px] == x;
        let py = choose|py: int| 0 <= py < o1.len() && o1[py] == y;
        if px < m {
            assert(o1[px] == x);
        }
        if py < m {
            assert(o2[py] == y);
        }
        assert(px > m && py > m);
        assert(named_earlier(adj, o1, m));
        let i1 = choose|i: int| i < m && #[trigger] first_lister(adj, o1, i, m);
        assert(named_earlier(adj, o2, m));
        let i2 = choose|i: int| i < m && #[trigger] first_lister(adj, o2, i, m);
        assert(named_earlier(adj, o1, py));
        let j1 = choose|i: int| i < py && #[trigger] first_lister(adj, o1, i, py);
        assert(named_earlier(adj, o2, px));
        let j2 = choose|i: int| i < px && #[trigger] first_lister(adj, o2, i, px);
        // the first lister of x is the same node in both orders
        if j2 < i1 {
            assert(o1[j2] == o2[j2]);
            assert(adj[o1[j2] as int].contains(x));
        }
        if i1 < j2 {
            assert(o2[i1] == o1[i1]);
            assert(adj[o2[i1] as int].contains(x));
        }
        assert(j2 == i1);
        if j1 < i2 {
            assert(o2[j1] == o1[j1]);
            assert(adj[o2[j1] as int].contains(y));
        }
        if i2 < j1 {
            assert(o1[i2] == o2[i2]);
            assert(adj[o1[i2] as int].contains(y));
        }
        assert(j1 == i2);
        let lx = adj[o1[i1] as int];
        let ly = adj[o2[i2] as int];
        assert(o2[i1] == o1[i1]);
        assert(o1[i2] == o2[i2]);
        let kx = lemma_first_position(lx, x, 0);
        let ky = lemma_first_position(ly, y, 0);
        assert(listed_at(adj, o1, i1, m, kx));
        assert(listed_at(adj, o2, i1, px, kx));
        assert(listed_at(adj, o2, i2, m, ky));
        assert(listed_at(adj, o1, i2, py, ky));
        assert(i1 < i2 || (i1 == i2 && kx < ky));
        assert(i2 < i1 || (i2 == i1 && ky < kx));
    }
}

/// A distance table from a node is unique.
pub proof fn law_distance_table_unique(
    adj: Seq<Seq<usize>>,
    n: usize,
    start: usize,
    d1: Seq<Option<usize>>,
    d2: Seq<Option<usize>>,
)
    requires
        is_distance_table(adj, n, start, d1),
        is_distance_table(adj, n, start, d2),
    ensures
        d1 == d2,
{
    assert forall|i: int| 0 <= i < d1.len() implies d1[i] == d2[i] by {
        let v = i as usize;
        assert(v < n && v as int == i);
        if d1[i] is Some {
            assert(d2[v as int] is Some);
            lemma_dist_unique(adj, start, v, d1[v as int]->0 as nat, d2[v as int]->0 as nat);
        }
    }
    assert(d1 =~= d2);
}

/// The breadth-first order and the distance table from the same node agree
/// on which nodes are reached: a node is listed exactly when it has a
/// distance.
pub proof fn law_bfs_agrees_with_distances(
    adj: Seq<Seq<usize>>,
    n: usize,
    start: usize,
    order: Seq<usize>,
    dist: Seq<Option<usize>>,
)
    requires
        is_bfs_order(adj, start, order),
        is_distance_table(adj, n, start, dist),
    ensures
        forall|v: usize| v < n ==> (order.contains(v) <==> (#[trigger] dist[v as int]) is Some),
{
    assert forall|v: usize| v < n implies (order.contains(v) <==> (#[trigger] dist[v as int]) is Some) by {
        assert(order.contains(v) <==> reachable(adj, start, v));
    }
}

/// Adding an undirected edge links both of its ends and adds two to the
/// total degree.
pub proof fn law_undirected_edge(adj: Seq<Seq<usize>>, a: usize, b: usize)
    requires
        (a as int) < adj.len(),
        (b as int) < adj.len(),
    ensures
        has_edge(with_arc(with_arc(adj, a, b), b, a), a, b),
        has_edge(with_arc(with_arc(adj, a, b), b, a), b, a),
        total_degree(with_arc(with_arc(adj, a, b), b, a)) == total_degree(adj) + 2,
{
    let mid = with_arc(adj, a, b);
    law_with_arc_adds_edge(adj, a, b);
    law_with_arc_adds_edge(mid, b, a);
    law_with_arc_degree(adj, a, b);
    law_with_arc_degree(mid, b, a);
}

// ─────────────────────────────────────────────────────────────────────────
// Graph
// ─────────────────────────────────────────────────────────────────────────

/// Sparse adjacency list representation for parallel traversal.
pub struct Graph {
    pub node_count: usize,
    /// adjacency[i] = list of neighbours of node i
    pub adjacency: Vec<Vec<usize>>,
}

impl Graph {
    /// The neighbour lists, as sequences.
    pub open spec fn adj(&self) -> Seq<Seq<usize>> {
        self.adjacency@.map_values(|l: Vec<usize>| l@)
    }

    /// Every node reachable from `start` is a node of the graph and has a
    /// neighbour list: what a traversal from `start` needs.
    pub open spec fn closed_from(&self, start: usize) -> bool {
        forall|v: usize|
            #[trigger] reachable(self.adj(), start, v) ==> v < self.node_count && (v as int)
                < self.adjacency@.len()
    }

    /// Every node has a neighbour list and every listed neighbour is a node.
    pub open spec fn well_formed(&self) -> bool {
        &&& self.adjacency@.len() >= self.node_count
        &&& forall|u: int, i: int|
            0 <= u < self.node_count && 0 <= i < self.adjacency@[u]@.len() ==> (
            #[trigger] self.adjacency@[u]@[i]) < self.node_count
    }

    /// Shared breadth-first search: the order in which nodes leave the
    /// queue, and the level at which each node was first reached.
    fn search(&self, start: usize) -> (res: (Vec<usize>, Vec<Option<usize>>))
        requires
            start < self.node_count,
            self.closed_from(start),
        ensures
            res.1@.len() == self.node_count,
            res.0@.len() > 0,
            res.0@[0] == start,
            res.0@.no_duplicates(),
            forall|i: int| 0 <= i < res.0@.len() ==> (#[trigger] res.0@[i]) < self.node_count,
            forall|v: usize|
                v < self.node_count ==> ((#[trigger] res.1@[v as int] is Some) <==> res.0@.contains(
                    v,
                )),
            forall|v: usize|
                v < self.node_count ==> (res.0@.contains(v) <==> #[trigger] reachable(
                    self.adj(),
                    start,
                    v,
                )),
            forall|v: usize|
                v < self.node_count && (#[trigger] res.1@[v as int] is Some) ==> is_dist(
                    self.adj(),
                    start,
                    v,
                    level(res.1@, v) as nat,
                ),
            forall|i: int, j: int|
                0 <= i < j < res.0@.len() ==> level(res.1@, #[trigger] res.0@[i]) <= level(
                    res.1@,
                    #[trigger] res.0@[j],
                ),
            in_discovery_order(self.adj(), res.0@),
    {
        let n = self.node_count;
        let ghost adj = self.adj();
        let mut dist: Vec<Option<usize>> = Vec::new();
        let mut f: usize = 0;
        while f < n
            invariant
                f <= n,
                dist@.len() == f,
                forall|v: int| 0 <= v < f ==> dist@[v] is None,
            decreases n - f,
        {
            dist.push(None);
            f = f + 1;
        }
        let mut order: Vec<usize> = Vec::new();
        dist.set(start, Some(0));
        let mut queue: VecDeque<usize> = VecDeque::new();
        queue.push_back(start);
        let ghost mut seen: Seq<usize> = seq![start];
        let ghost mut par: Seq<int> = seq![-1int];
        let ghost mut pos: Seq<int> = seq![-1int];
        assert(within(adj, start, 0, start));
        assert forall|v: usize| v < n implies ((#[trigger] dist@[v as int] is Some) <==> seen.contains(v)) by {
            if v == start {
                assert(seen[0] == v);
            }
        }
        while queue.len() > 0
            invariant
                n == self.node_count,
                self.closed_from(start),
                adj == self.adj(),
                start < n,
                dist@.len() == n,
                seen == order@ + queue@,
                seen.len() > 0,
                seen.len() <= n,
                seen[0] == start,
                seen.no_duplicates(),
                forall|i: int| 0 <= i < seen.len() ==> (#[trigger] seen[i]) < n,
                forall|v: usize| v < n ==> ((#[trigger] dist@[v as int] is Some) <==> seen.contains(v)),
                par.len() == seen.len(),
                pos.len() == seen.len(),
                forall|p: int| 1 <= p < seen.len() ==> 0 <= #[trigger] par[p] < order@.len() && par[p] < p,
                forall|p: int| 1 <= p < seen.len() ==> listed_at(adj, seen, par[p], p, #[trigger] pos[p]),
                forall|p: int, i2: int|
                    1 <= p < seen.len() && 0 <= i2 < par[p] ==> !#[trigger] adj[seen[i2] as int].contains(seen[p]),
                forall|p: int, q: int|
                    #![trigger par[p], par[q]]
                    1 <= p < q < seen.len() ==> par[p] < par[q] || (par[p] == par[q] && pos[p] < pos[q]),

                forall|i: int|
                    0 <= i < seen.len() ==> (dist@[#[trigger] seen[i] as int] is Some && is_dist(
                        adj,
                        start,
                        seen[i],
                        level(dist@, seen[i]) as nat,
                    ) && level(dist@, seen[i]) <= i),
                forall|i: int, j: int|
                    0 <= i < j < seen.len() ==> level(dist@, #[trigger] seen[i]) <= level(
                        dist@,
                        #[trigger] seen[j],
                    ),
                queue@.len() > 0 ==> forall|j: int|
                    order@.len() <= j < seen.len() ==> level(dist@, #[trigger] seen[j]) <= level(
                        dist@,
                        seen[order@.len() as int],
                    ) + 1,
                forall|i: int, w: usize|
                    0 <= i < order@.len() && #[trigger] has_edge(adj, seen[i], w) ==> seen.contains(
                        w,
                    ),
                queue@.len() > 0 ==> forall|w: usize, j: nat|
                    j < level(dist@, seen[order@.len() as int]) && #[trigger] within(
                        adj,
                        start,
                        j,
                        w,
                    ) ==> seen.contains(w),
            decreases n - order@.len(),
        {
            let ghost h = order@.len() as int;
            let node = queue.pop_front().unwrap();
            assert(node == seen[h]);
            order.push(node);
            assert(seen == order@ + queue@);
            let d = dist[node].unwrap();
            assert(reachable(adj, start, node)) by {
                assert(within(adj, start, d as nat, node));
            }
            assert(d == level(dist@, node));
            assert(d <= h);
            assert((node as int) < self.adjacency@.len());
            let nbrs = &self.adjacency[node];
            assert(adj[node as int] == nbrs@);
            let mut k: usize = 0;
            while k < nbrs.len()
                invariant
                    n == self.node_count,
                    self.closed_from(start),
                    adj == self.adj(),
                    start < n,
                    node < n,
                    (node as int) < self.adjacency@.len(),
                    nbrs@ == self.adjacency@[node as int]@,
                    adj[node as int] == nbrs@,
                    h == order@.len() - 1,
                    0 <= h,
                    seen[h] == node,
                    d == level(dist@, node),
                    d <= h,
                    k <= nbrs@.len(),
                    dist@.len() == n,
                    seen == order@ + queue@,
                    seen.len() > h,
                    seen.len() <= n,
                    seen[0] == start,
                    seen.no_duplicates(),
                    forall|i: int| 0 <= i < seen.len() ==> (#[trigger] seen[i]) < n,
                    forall|v: usize|
                        v < n ==> ((#[trigger] dist@[v as int] is Some) <==> seen.contains(v)),
                    par.len() == seen.len(),
                    pos.len() == seen.len(),
                    forall|p: int| 1 <= p < seen.len() ==> 0 <= #[trigger] par[p] < order@.len() && par[p] < p,
                    forall|p: int| 1 <= p < seen.len() ==> listed_at(adj, seen, par[p], p, #[trigger] pos[p]),
                    forall|p: int, i2: int|
                        1 <= p < seen.len() && 0 <= i2 < par[p] ==> !#[trigger] adj[seen[i2] as int].contains(seen[p]),
                    forall|p: int, q: int|
                        #![trigger par[p], par[q]]
                        1 <= p < q < seen.len() ==> par[p] < par[q] || (par[p] == par[q] && pos[p] < pos[q]),
                    forall|q: int| 1 <= q < seen.len() && #[trigger] par[q] == h ==> pos[q] < k,

                    forall|i: int|
                        0 <= i < seen.len() ==> (dist@[#[trigger] seen[i] as int] is Some
                            && is_dist(adj, start, seen[i], level(dist@, seen[i]) as nat) && level(
                            dist@,
                            seen[i],
                        ) <= i),
                    forall|i: int, j: int|
                        0 <= i < j < seen.len() ==> level(dist@, #[trigger] seen[i]) <= level(
                            dist@,
                            #[trigger] seen[j],
                        ),
                    forall|j: int| h <= j < seen.len() ==> level(dist@, #[trigger] seen[j]) <= d + 1,
                    forall|i: int, w: usize|
                        0 <= i < h && #[trigger] has_edge(adj, seen[i], w) ==> seen.contains(w),
                    forall|m: int| 0 <= m < k ==> seen.contains(#[trigger] nbrs@[m]),
                    forall|w: usize, j: nat|
                        j < d && #[trigger] within(adj, start, j, w) ==> seen.contains(w),
                decreases nbrs@.len() - k,
            {
                let nbr = nbrs[k];
                assert(nbr < n) by {
                    assert(nbrs@[k as int] == nbr);
                    assert(has_edge(adj, node, nbr));
                    assert(within(adj, start, (d + 1) as nat, nbr)) by {
                        assert(within(adj, start, d as nat, node));
                    }
                    assert(reachable(adj, start, nbr));
                }
                if dist[nbr].is_none() {
                    proof {
                        lemma_distinct_nodes_bounded(seen.push(nbr), n);
                        assert(!seen.contains(nbr));
                        assert(has_edge(adj, node, nbr));
                        assert(within(adj, start, (d + 1) as nat, nbr)) by {
                            assert(within(adj, start, d as nat, node));
                        }
                        assert forall|j: nat| j < d + 1 implies !#[trigger] within(
                            adj,
                            start,
                            j,
                            nbr,
                        ) by {
                            if within(adj, start, j, nbr) {
                                if nbr == start {
                                    assert(seen[0] == start);
                                } else {
                                    let p = lemma_predecessor(adj, start, j, nbr);
                                    assert(seen.contains(p.0));
                                    let q = choose|q: int| 0 <= q < seen.len() && seen[q] == p.0;
                                    assert(level(dist@, seen[q]) <= p.1) by {
                                        if level(dist@, seen[q]) > p.1 {
                                            assert(!within(adj, start, p.1, seen[q]));
                                        }
                                    }
                                    if q >= h {
                                        assert(level(dist@, seen[h]) <= level(dist@, seen[q]));
                                    }
                                    assert(has_edge(adj, seen[q], nbr));
                                }
                            }
                        }
                    }
                    let ghost old_dist = dist@;
                    dist.set(nbr, Some(d + 1));
                    queue.push_back(nbr);
                    proof {
                        let old_seen = seen;
                        let old_par = par;
                        let old_pos = pos;
                        seen = seen.push(nbr);
                        par = par.push(h);
                        pos = pos.push(k as int);
                        assert forall|x: int| 0 <= x < old_seen.len() implies #[trigger] seen[x] == old_seen[x] && par[x] == old_par[x] && pos[x] == old_pos[x] by {}
                        let np = old_seen.len() as int;
                        assert(adj[seen[h] as int] == nbrs@);
                        assert forall|k2: int| 0 <= k2 < k implies nbrs@[k2] != nbr by {
                            assert(old_seen.contains(nbrs@[k2]));
                        }
                        assert(listed_at(adj, seen, par[np], np, pos[np]));
                        assert forall|i2: int| 0 <= i2 < h implies !(#[trigger] adj[seen[i2] as int]).contains(nbr) by {
                            if adj[seen[i2] as int].contains(nbr) {
                                assert(reachable(adj, start, seen[i2])) by {
                                    assert(within(adj, start, level(old_dist, old_seen[i2]) as nat, old_seen[i2]));
                                }
                                assert(has_edge(adj, old_seen[i2], nbr));
                            }
                        }
                        assert forall|p: int| 1 <= p < seen.len() implies listed_at(adj, seen, par[p], p, #[trigger] pos[p]) by {
                            if p < np {
                                assert(listed_at(adj, old_seen, old_par[p], p, old_pos[p]));
                            }
                        }
                        assert forall|p: int, i2: int|
                            1 <= p < seen.len() && 0 <= i2 < par[p] implies !#[trigger] adj[seen[i2] as int].contains(seen[p]) by {
                            if p < np {
                                assert(!adj[old_seen[i2] as int].contains(old_seen[p]));
                            }
                        }
                        assert(level(dist@, nbr) == d + 1);
                        assert forall|v: usize| v < n implies ((#[trigger] dist@[v as int] is Some) <==> seen.contains(v)) by {
                            if v != nbr {
                                assert(dist@[v as int] == old_dist[v as int]);
                                if old_seen.contains(v) {
                                    let q = choose|q: int| 0 <= q < old_seen.len() && old_seen[q] == v;
                                    assert(seen[q] == v);
                                }
                                if seen.contains(v) {
                                    let q = choose|q: int| 0 <= q < seen.len() && seen[q] == v;
                                    assert(old_seen[q] == v);
                                }
                            } else {
                                assert(seen[old_seen.len() as int] == nbr);
                            }
                        }
                        lemma_distinct_nodes_bounded(seen, n);
                        assert forall|x: usize| old_seen.contains(x) implies seen.contains(x) by {
                            let q = choose|q: int| 0 <= q < old_seen.len() && old_seen[q] == x;
                            assert(seen[q] == x);
                        }
                        assert(seen[old_seen.len() as int] == nbr);
                        assert forall|i: int| 0 <= i < old_seen.len() implies level(
                            dist@,
                            #[trigger] seen[i],
                        ) == level(old_dist, seen[i]) by {
                            assert(seen[i] == old_seen[i]);
                            assert(seen[i] != nbr);
                        }
                    }
                }
                assert(seen.contains(nbrs@[k as int]));
                k = k + 1;
            }
            proof {
                assert forall|i: int, w: usize|
                    0 <= i < order@.len() && #[trigger] has_edge(adj, seen[i], w) implies seen.contains(
                    w,
                ) by {
                    if i == h {
                        let m = choose|m: int| 0 <= m < nbrs@.len() && nbrs@[m] == w;
                        assert(seen.contains(nbrs@[m]));
                    }
                }
                if queue@.len() > 0 {
                    let h2 = order@.len() as int;
                    assert(level(dist@, seen[h]) <= level(dist@, seen[h2]));
                    assert forall|w: usize, j: nat|
                        j < level(dist@, seen[h2]) && #[trigger] within(
                            adj,
                            start,
                            j,
                            w,
                        ) implies seen.contains(w) by {
                        if j >= d {
                            if w != start {
                                let p = lemma_predecessor(adj, start, j, w);
                                assert(seen.contains(p.0));
                                let q = choose|q: int| 0 <= q < seen.len() && seen[q] == p.0;
                                assert(level(dist@, seen[q]) <= p.1) by {
                                    if level(dist@, seen[q]) > p.1 {
                                        assert(!within(adj, start, p.1, seen[q]));
                                    }
                                }
                                if q > h {
                                    assert(level(dist@, seen[h2]) <= level(dist@, seen[q]));
                                }
                                assert(has_edge(adj, seen[q], w));
                            }
                        }
                    }
                }
            }
        }
        proof {
            assert(seen == order@);
            assert forall|p: int| 1 <= p < seen.len() implies #[trigger] named_earlier(adj, seen, p) by {
                let i = par[p];
                assert(listed_at(adj, seen, i, p, pos[p]));
                assert(adj[seen[i] as int][pos[p]] == seen[p]);
                assert(first_lister(adj, seen, i, p));
            }
            assert forall|p: int, q: int, i: int, j: int, kp: int, kq: int|
                1 <= p < q < seen.len() && first_lister(adj, seen, i, p) && first_lister(
                    adj,
                    seen,
                    j,
                    q,
                ) && listed_at(adj, seen, i, p, kp) && listed_at(adj, seen, j, q, kq) implies i < j
                || (i == j && kp < kq) by {
                lemma_first_lister_is_recorded(adj, seen, par, pos, i, p, kp);
                lemma_first_lister_is_recorded(adj, seen, par, pos, j, q, kq);
                assert(par[p] < par[q] || (par[p] == par[q] && pos[p] < pos[q]));
            }
            assert(in_discovery_order(adj, seen));
            assert forall|v: usize| v < n implies (order@.contains(v) <==> #[trigger] reachable(
                adj,
                start,
                v,
            )) by {
                if order@.contains(v) {
                    let q = choose|q: int| 0 <= q < seen.len() && seen[q] == v;
                    assert(within(adj, start, level(dist@, seen[q]) as nat, v));
                }
                if reachable(adj, start, v) {
                    let k = choose|k: nat| within(adj, start, k, v);
                    assert forall|u: usize, w: usize|
                        seen.contains(u) && #[trigger] has_edge(adj, u, w) implies seen.contains(w) by {
                        let q = choose|q: int| 0 <= q < seen.len() && seen[q] == u;
                        assert(has_edge(adj, seen[q], w));
                    }
                    lemma_closed_set_holds_reachable(adj, start, seen, k, v);
                }
            }
            assert forall|v: usize|
                v < n && (#[trigger] dist@[v as int] is Some) implies is_dist(
                adj,
                start,
                v,
                level(dist@, v) as nat,
            ) by {
                let q = choose|q: int| 0 <= q < seen.len() && seen[q] == v;
                assert(dist@[seen[q] as int] is Some);
            }
        }
        (order, dist)
    }
}

impl Graph {
    /// A graph of `node_count` nodes and no edges.
    pub fn new(node_count: usize) -> (g: Self)
        ensures
            g.node_count == node_count,
            g.adjacency@.len() == node_count,
            forall|i: int| 0 <= i < node_count ==> (#[trigger] g.adjacency@[i])@.len() == 0,
            g.well_formed(),
            total_degree(g.adj()) == 0,
    {
        let mut adjacency: Vec<Vec<usize>> = Vec::new();
        let mut i: usize = 0;
        while i < node_count
            invariant
                i <= node_count,
                adjacency@.len() == i,
                forall|j: int| 0 <= j < i ==> (#[trigger] adjacency@[j])@.len() == 0,
            decreases node_count - i,
        {
            adjacency.push(Vec::new());
            i = i + 1;
        }
        let g = Graph { node_count, adjacency };
        proof {
            lemma_total_degree_empty_lists(g.adj());
        }
        g
    }

    /// Adds the undirected edge `a`–`b` when both are nodes; does nothing
    /// otherwise.
    pub fn add_edge(&mut self, a: usize, b: usize)
        requires
            a < old(self).node_count && b < old(self).node_count ==> (a as int) < old(
                self,
            ).adjacency@.len() && (b as int) < old(self).adjacency@.len(),
        ensures
            final(self).node_count == old(self).node_count,
            final(self).adjacency@.len() == old(self).adjacency@.len(),
            a < old(self).node_count && b < old(self).node_count ==> final(self).adj() == with_arc(
                with_arc(old(self).adj(), a, b),
                b,
                a,
            ),
            !(a < old(self).node_count && b < old(self).node_count) ==> final(self).adj() == old(
                self,
            ).adj(),
            old(self).well_formed() ==> final(self).well_formed(),
    {
        if a < self.node_count && b < self.node_count {
            let ghost before = self.adj();
            self.adjacency[a].push(b);
            assert(self.adj() =~= with_arc(before, a, b));
            let ghost middle = self.adj();
            self.adjacency[b].push(a);
            assert(self.adj() =~= with_arc(middle, b, a));
            proof {
                if old(self).well_formed() {
                    assert forall|u: int, i: int|
                        0 <= u < self.node_count && 0 <= i < self.adjacency@[u]@.len() implies (
                        #[trigger] self.adjacency@[u]@[i]) < self.node_count by {
                        if u == b && i == self.adjacency@[u]@.len() - 1 {
                        } else if u == a && i == middle[u].len() - 1 {
                            assert(self.adjacency@[u]@[i] == middle[u][i]);
                        } else if u == a || u == b {
                            assert(self.adjacency@[u]@[i] == before[u][i]);
                        } else {
                            assert(self.adjacency@[u]@[i] == before[u][i]);
                        }
                    }
                }
            }
        }
    }

    /// Adds the directed edge `from` → `to` when both are nodes; does
    /// nothing otherwise.
    pub fn add_directed_edge(&mut self, from: usize, to: usize)
        requires
            from < old(self).node_count && to < old(self).node_count ==> (from as int) < old(
                self,
            ).adjacency@.len(),
        ensures
            final(self).node_count == old(self).node_count,
            final(self).adjacency@.len() == old(self).adjacency@.len(),
            from < old(self).node_count && to < old(self).node_count ==> final(self).adj()
                == with_arc(old(self).adj(), from, to),
            !(from < old(self).node_count && to < old(self).node_count) ==> final(self).adj()
                == old(self).adj(),
            old(self).well_formed() ==> final(self).well_formed(),
    {
        if from < self.node_count && to < self.node_count {
            let ghost before = self.adj();
            self.adjacency[from].push(to);
            assert(self.adj() =~= with_arc(before, from, to));
            proof {
                if old(self).well_formed() {
                    assert forall|u: int, i: int|
                        0 <= u < self.node_count && 0 <= i < self.adjacency@[u]@.len() implies (
                        #[trigger] self.adjacency@[u]@[i]) < self.node_count by {
                        if u == from && i == self.adjacency@[u]@.len() - 1 {
                        } else {
                            assert(self.adjacency@[u]@[i] == before[u][i]);
                        }
                    }
                }
            }
        }
    }

    /// Whether every node has a neighbour list and every listed neighbour
    /// is a node.
    pub fn is_well_formed(&self) -> (r: bool)
        ensures
            r == self.well_formed(),
    {
        if self.adjacency.len() < self.node_count {
            return false;
        }
        let mut u: usize = 0;
        while u < self.node_count
            invariant
                self.adjacency@.len() >= self.node_count,
                u <= self.node_count,
                forall|u2: int, i: int|
                    0 <= u2 < u && 0 <= i < self.adjacency@[u2]@.len() ==> (
                    #[trigger] self.adjacency@[u2]@[i]) < self.node_count,
            decreases self.node_count - u,
        {
            let list = &self.adjacency[u];
            let mut i: usize = 0;
            while i < list.len()
                invariant
                    self.adjacency@.len() >= self.node_count,
                    u < self.node_count,
                    list@ == self.adjacency@[u as int]@,
                    i <= list@.len(),
                    forall|u2: int, i2: int|
                        0 <= u2 < u && 0 <= i2 < self.adjacency@[u2]@.len() ==> (
                        #[trigger] self.adjacency@[u2]@[i2]) < self.node_count,
                    forall|i2: int| 0 <= i2 < i ==> (#[trigger] list@[i2]) < self.node_count,
                decreases list@.len() - i,
            {
                if list[i] >= self.node_count {
                    return false;
                }
                i = i + 1;
            }
            u = u + 1;
        }
        true
    }

    /// BFS from `start`, returning visitation order.
    pub fn bfs(&self, start: usize) -> (order: Vec<usize>)
        requires
            start < self.node_count ==> self.closed_from(start),
        ensures
            start >= self.node_count ==> order@.len() == 0,
            start < self.node_count ==> is_bfs_order(self.adj(), start, order@),
    {
        if start >= self.node_count {
            return Vec::new();
        }
        let (order, dist) = self.search(start);
        proof {
            let adj = self.adj();
            assert forall|v: usize| order@.contains(v) <==> #[trigger] reachable(adj, start, v) by {
                if order@.contains(v) {
                    let q = choose|q: int| 0 <= q < order@.len() && order@[q] == v;
                    assert(order@[q] < self.node_count);
                }
            }
            assert forall|i: int, j: int, di: nat, dj: nat|
                0 <= i < j < order@.len() && #[trigger] is_dist(adj, start, order@[i], di)
                    && #[trigger] is_dist(adj, start, order@[j], dj) implies di <= dj by {
                let vi = order@[i];
                let vj = order@[j];
                assert(vi < self.node_count && vj < self.node_count);
                assert(order@.contains(vi) && order@.contains(vj));
                assert(dist@[vi as int] is Some && dist@[vj as int] is Some);
                lemma_dist_unique(adj, start, vi, di, level(dist@, vi) as nat);
                lemma_dist_unique(adj, start, vj, dj, level(dist@, vj) as nat);
            }
        }
        order
    }

    /// Single-source shortest paths (unweighted).
    pub fn shortest_paths(&self, start: usize) -> (dist: Vec<Option<usize>>)
        requires
            start < self.node_count ==> self.closed_from(start),
        ensures
            dist@.len() == self.node_count,
            start >= self.node_count ==> forall|i: int| 0 <= i < dist@.len() ==> #[trigger] dist@[i] is None,
            start < self.node_count ==> is_distance_table(self.adj(), self.node_count, start, dist@),
    {
        if start >= self.node_count {
            let mut dist: Vec<Option<usize>> = Vec::new();
            let mut i: usize = 0;
            while i < self.node_count
                invariant
                    i <= self.node_count,
                    dist@.len() == i,
                    forall|j: int| 0 <= j < i ==> #[trigger] dist@[j] is None,
                decreases self.node_count - i,
            {
                dist.push(None);
                i = i + 1;
            }
            return dist;
        }
        let (order, dist) = self.search(start);
        proof {
            let adj = self.adj();
            assert forall|v: usize|
                v < self.node_count && (#[trigger] dist@[v as int]) is Some implies is_dist(
                adj,
                start,
                v,
                dist@[v as int]->0 as nat,
            ) by {
                assert(level(dist@, v) == dist@[v as int]->0);
            }
        }
        dist
    }

    /// Count edges (entries over all neighbour lists).
    pub fn edge_count(&self) -> (r: usize)
        requires
            total_degree(self.adj()) <= usize::MAX,
        ensures
            r == total_degree(self.adj()),
    {
        let mut sum: usize = 0;
        let mut i: usize = 0;
        while i < self.adjacency.len()
            invariant
                i <= self.adjacency@.len(),
                total_degree(self.adj()) <= usize::MAX,
                sum == total_degree(self.adj().take(i as int)),
            decreases self.adjacency@.len() - i,
        {
            proof {
                let t = self.adj().take(i + 1);
                assert(t.drop_last() =~= self.adj().take(i as int));
                lemma_total_degree_prefix(self.adj(), i + 1);
            }
            sum = sum + self.adjacency[i].len();
            i = i + 1;
        }
        assert(self.adj().take(i as int) =~= self.adj());
        sum
    }
}

/// The total degree of a prefix never exceeds that of the whole.
proof fn lemma_total_degree_prefix(adj: Seq<Seq<usize>>, k: int)
    requires
        0 <= k <= adj.len(),
    ensures
        total_degree(adj.take(k)) <= total_degree(adj),
    decreases adj.len() - k,
{
    if k < adj.len() {
        lemma_total_degree_prefix(adj, k + 1);
        assert(adj.take(k + 1).drop_last() =~= adj.take(k));
    } else {
        assert(adj.take(k) =~= adj);
    }
}

/// Lists that are all empty have total degree zero.
proof fn lemma_total_degree_empty_lists(adj: Seq<Seq<usize>>)
    requires
        forall|i: int| 0 <= i < adj.len() ==> (#[trigger] adj[i]).len() == 0,
    ensures
        total_degree(adj) == 0,
    decreases adj.len(),
{
    if adj.len() > 0 {
        lemma_total_degree_empty_lists(adj.drop_last());
    }
}

/// In a well-formed graph a traversal from any node stays inside the graph.
pub proof fn law_well_formed_closed(g: Graph, start: usize)
    requires
        g.well_formed(),
        start < g.node_count,
    ensures
        g.closed_from(start),
{
    assert forall|v: usize| #[trigger] reachable(g.adj(), start, v) implies v < g.node_count && (
    v as int) < g.adjacency@.len() by {
        let k = choose|k: nat| #[trigger] within(g.adj(), start, k, v);
        lemma_within_inside(g, start, k, v);
    }
}

proof fn lemma_within_inside(g: Graph, start: usize, k: nat, v: usize)
    requires
        g.well_formed(),
        start < g.node_count,
        within(g.adj(), start, k, v),
    ensures
        v < g.node_count,
    decreases k,
{
    if v != start {
        let p = lemma_predecessor(g.adj(), start, k, v);
        lemma_within_inside(g, start, p.1, p.0);
        let i = choose|i: int| 0 <= i < g.adj()[p.0 as int].len() && g.adj()[p.0 as int][i] == v;
        assert(g.adjacency@[p.0 as int]@[i] == v);
    }
}

/// Graph bridge dispatching adjacency operations.
pub struct GraphBridge {
    gpu_avail: bool,
}

impl GraphBridge {
    pub fn new(avail: &GpuAvailability) -> (r: Self)
        ensures
            r.uses_gpu() == avail.gpu_available,
    {
        GraphBridge { gpu_avail: avail.gpu_available }
    }

    /// Whether the probe that made this bridge found a GPU.
    pub closed spec fn uses_gpu(&self) -> bool {
        self.gpu_avail
    }

    pub fn dispatch_bfs(&self, graph: &Graph, start: usize) -> (order: Vec<usize>)
        requires
            start < graph.node_count ==> graph.closed_from(start),
        ensures
            start >= graph.node_count ==> order@.len() == 0,
            start < graph.node_count ==> is_bfs_order(graph.adj(), start, order@),
    {
        graph.bfs(start)
    }

    pub fn dispatch_shortest_paths(&self, graph: &Graph, start: usize) -> (dist: Vec<
        Option<usize>,
    >)
        requires
            start < graph.node_count ==> graph.closed_from(start),
        ensures
            dist@.len() == graph.node_count,
            start >= graph.node_count ==> forall|i: int| 0 <= i < dist@.len() ==> #[trigger] dist@[i] is None,
            start < graph.node_count ==> is_distance_table(
                graph.adj(),
                graph.node_count,
                start,
                dist@,
            ),
    {
        graph.shortest_paths(start)
    }
}

} // verus!
