use vstd::prelude::*;
use crate::graph::{
    components, dfs_neighbors, dfs_visit, forest_from, has_node, in_some, lemma_components_partition, lemma_components_within, lemma_dfs_neighbors_list, lemma_dfs_neighbors_within,
    lemma_dfs_visit_list, lemma_dfs_visit_within, lemma_forest_list, lemma_unvisited_insert, lemma_unvisited_mono,
    unvisited,
};

verus! {

/// There is an edge from `p[i]` to `p[i + 1]`.
pub open spec fn step(adj: Map<u32, Seq<u32>>, p: Seq<u32>, i: int) -> bool {
    adj[p[i]].contains(p[i + 1])
}

/// `p` is a path: nodes of the graph, each joined to the next by an edge.
pub open spec fn is_path(adj: Map<u32, Seq<u32>>, p: Seq<u32>) -> bool {
    &&& p.len() >= 1
    &&& forall|i: int| 0 <= i < p.len() ==> adj.contains_key(#[trigger] p[i])
    &&& forall|i: int| 0 <= i < p.len() - 1 ==> #[trigger] step(adj, p, i)
}

/// No node of `p` is in `vis`.
pub open spec fn avoids(p: Seq<u32>, vis: Set<u32>) -> bool {
    forall|i: int| 0 <= i < p.len() ==> !vis.contains(#[trigger] p[i])
}

/// A path leads from `x` to `y` through nodes outside `vis`.
pub open spec fn reaches(adj: Map<u32, Seq<u32>>, vis: Set<u32>, x: u32, y: u32) -> bool {
    exists|p: Seq<u32>| #[trigger] is_path(adj, p) && p[0] == x && p.last() == y && avoids(p, vis)
}

pub proof fn lemma_reaches_refl(adj: Map<u32, Seq<u32>>, vis: Set<u32>, x: u32)
    requires
        adj.contains_key(x),
        !vis.contains(x),
    ensures
        reaches(adj, vis, x, x),
{
    let p = seq![x];
    assert(is_path(adj, p));
}

pub proof fn lemma_reaches_trans(adj: Map<u32, Seq<u32>>, vis: Set<u32>, x: u32, y: u32, z: u32)
    requires
        reaches(adj, vis, x, y),
        reaches(adj, vis, y, z),
    ensures
        reaches(adj, vis, x, z),
{
    let p = choose|p: Seq<u32>| #[trigger] is_path(adj, p) && p[0] == x && p.last() == y && avoids(p, vis);
    let q = choose|q: Seq<u32>| #[trigger] is_path(adj, q) && q[0] == y && q.last() == z && avoids(q, vis);
    let r = p + q.drop_first();
    assert forall|i: int| 0 <= i < r.len() implies adj.contains_key(#[trigger] r[i]) && !vis.contains(r[i]) by {
        if i >= p.len() {
            assert(r[i] == q[i - p.len() + 1]);
        }
    }
    assert forall|i: int| 0 <= i < r.len() - 1 implies #[trigger] step(adj, r, i) by {
        if i < p.len() - 1 {
            assert(step(adj, p, i));
        } else if i == p.len() - 1 {
            assert(step(adj, q, 0));
            if q.len() > 1 {
                assert(r[i + 1] == q[1]);
            }
        } else {
            assert(step(adj, q, i - p.len() + 1));
            assert(r[i] == q[i - p.len() + 1] && r[i + 1] == q[i - p.len() + 2]);
        }
    }
    if q.len() == 1 {
        assert(r =~= p);
    } else {
        assert(r.last() == q.last());
    }
    assert(is_path(adj, r) && r[0] == x && r.last() == z && avoids(r, vis));
}

pub proof fn lemma_reaches_edge(adj: Map<u32, Seq<u32>>, vis: Set<u32>, x: u32, y: u32)
    requires
        adj.contains_key(x),
        adj.contains_key(y),
        adj[x].contains(y),
        !vis.contains(x),
        !vis.contains(y),
    ensures
        reaches(adj, vis, x, y),
{
    let p = seq![x, y];
    assert(step(adj, p, 0));
    assert(is_path(adj, p));
}

pub proof fn lemma_reaches_mono(adj: Map<u32, Seq<u32>>, v1: Set<u32>, v2: Set<u32>, x: u32, y: u32)
    requires
        reaches(adj, v1, x, y),
        v2.subset_of(v1),
    ensures
        reaches(adj, v2, x, y),
{
    let p = choose|p: Seq<u32>| #[trigger] is_path(adj, p) && p[0] == x && p.last() == y && avoids(p, v1);
    assert(avoids(p, v2));
}

/// A search keeps the newly reached nodes closed under edges, and reaches its start.
pub proof fn lemma_dfs_visit_closed(adj: Map<u32, Seq<u32>>, vis: Set<u32>, n: u32, fuel: nat)
    requires
        adj.dom().finite(),
        fuel >= unvisited(adj, vis),
    ensures
        forall|z: u32, w: u32|
            #![trigger dfs_visit(adj, vis, n, fuel).0.contains(z), adj[z].contains(w)]
            dfs_visit(adj, vis, n, fuel).0.contains(z) && !vis.contains(z) && adj.contains_key(z) && adj[z].contains(w)
                && adj.contains_key(w) ==> dfs_visit(adj, vis, n, fuel).0.contains(w),
        adj.contains_key(n) ==> dfs_visit(adj, vis, n, fuel).0.contains(n),
    decreases fuel, 0nat, 0int,
{
    lemma_dfs_visit_within(adj, vis, n, fuel);
    if fuel == 0 || !adj.contains_key(n) || vis.contains(n) {
        if fuel == 0 && adj.contains_key(n) && !vis.contains(n) {
            assert(adj.dom().difference(vis).contains(n));
        }
    } else {
        let v1 = vis.insert(n);
        lemma_unvisited_insert(adj, vis, n);
        lemma_dfs_neighbors_closed(adj, v1, adj[n], 0, (fuel - 1) as nat);
        let r = dfs_neighbors(adj, v1, adj[n], 0, (fuel - 1) as nat);
        assert forall|z: u32, w: u32|
            #![trigger dfs_visit(adj, vis, n, fuel).0.contains(z), adj[z].contains(w)]
            dfs_visit(adj, vis, n, fuel).0.contains(z) && !vis.contains(z) && adj.contains_key(z) && adj[z].contains(w)
                && adj.contains_key(w) implies dfs_visit(adj, vis, n, fuel).0.contains(w) by {
            if z == n {
                let j = choose|j: int| 0 <= j < adj[n].len() && adj[n][j] == w;
                assert(adj.contains_key(adj[n][j]));
            } else {
                assert(r.0.contains(z) && !v1.contains(z));
            }
        }
    }
}

/// Searches from a list of edges keep the newly reached nodes closed under edges, and reach
/// every listed node of the graph.
pub proof fn lemma_dfs_neighbors_closed(adj: Map<u32, Seq<u32>>, vis: Set<u32>, nbrs: Seq<u32>, k: int, fuel: nat)
    requires
        adj.dom().finite(),
        fuel >= unvisited(adj, vis),
    ensures
        forall|z: u32, w: u32|
            #![trigger dfs_neighbors(adj, vis, nbrs, k, fuel).0.contains(z), adj[z].contains(w)]
            dfs_neighbors(adj, vis, nbrs, k, fuel).0.contains(z) && !vis.contains(z) && adj.contains_key(z)
                && adj[z].contains(w) && adj.contains_key(w) ==> dfs_neighbors(adj, vis, nbrs, k, fuel).0.contains(w),
        forall|j: int|
            0 <= k <= j < nbrs.len() && adj.contains_key(#[trigger] nbrs[j]) ==> dfs_neighbors(adj, vis, nbrs, k, fuel).0.contains(
                nbrs[j],
            ),
    decreases fuel, 1nat, nbrs.len() - k,
{
    lemma_dfs_neighbors_within(adj, vis, nbrs, k, fuel);
    if k < 0 || k >= nbrs.len() {
    } else {
        lemma_dfs_visit_closed(adj, vis, nbrs[k], fuel);
        lemma_dfs_visit_within(adj, vis, nbrs[k], fuel);
        let a = dfs_visit(adj, vis, nbrs[k], fuel);
        lemma_unvisited_mono(adj, vis, a.0);
        lemma_dfs_neighbors_closed(adj, a.0, nbrs, k + 1, fuel);
        lemma_dfs_neighbors_within(adj, a.0, nbrs, k + 1, fuel);
        let b = dfs_neighbors(adj, a.0, nbrs, k + 1, fuel);
        assert forall|z: u32, w: u32|
            #![trigger dfs_neighbors(adj, vis, nbrs, k, fuel).0.contains(z), adj[z].contains(w)]
            dfs_neighbors(adj, vis, nbrs, k, fuel).0.contains(z) && !vis.contains(z) && adj.contains_key(z)
                && adj[z].contains(w) && adj.contains_key(w) implies dfs_neighbors(adj, vis, nbrs, k, fuel).0.contains(w) by {
            if a.0.contains(z) {
                assert(a.0.contains(w));
            } else {
                assert(b.0.contains(z) && !a.0.contains(z));
            }
        }
        assert forall|j: int|
            0 <= k <= j < nbrs.len() && adj.contains_key(#[trigger] nbrs[j]) implies dfs_neighbors(adj, vis, nbrs, k, fuel).0.contains(
            nbrs[j],
        ) by {
            if j == k {
                assert(a.0.contains(nbrs[k]));
            }
        }
    }
}

/// Every node newly reached by a search from `n` is reached from `n` through nodes outside
/// `vis`.
pub proof fn lemma_dfs_visit_reach(adj: Map<u32, Seq<u32>>, vis: Set<u32>, n: u32, fuel: nat)
    ensures
        forall|y: u32|
            #[trigger] dfs_visit(adj, vis, n, fuel).0.contains(y) && !vis.contains(y) ==> reaches(adj, vis, n, y),
    decreases fuel, 0nat, 0int,
{
    if fuel == 0 || !adj.contains_key(n) || vis.contains(n) {
    } else {
        let v1 = vis.insert(n);
        lemma_dfs_neighbors_reach(adj, v1, adj[n], 0, (fuel - 1) as nat);
        assert forall|y: u32| #[trigger] dfs_visit(adj, vis, n, fuel).0.contains(y) && !vis.contains(y) implies reaches(
            adj,
            vis,
            n,
            y,
        ) by {
            if y == n {
                lemma_reaches_refl(adj, vis, n);
            } else {
                let r = dfs_neighbors(adj, v1, adj[n], 0, (fuel - 1) as nat);
                assert(dfs_visit(adj, vis, n, fuel).0 == r.0);
                assert(r.0.contains(y) && !v1.contains(y));
                assert(reached_from_some(adj, v1, adj[n], 0, y));
                let j = choose|j: int| 0 <= j < adj[n].len() && #[trigger] reaches(adj, v1, adj[n][j], y);
                let m = adj[n][j];
                let p = choose|p: Seq<u32>| #[trigger] is_path(adj, p) && p[0] == m && p.last() == y && avoids(p, v1);
                assert(adj.contains_key(p[0]));
                lemma_reaches_edge(adj, vis, n, m);
                lemma_reaches_mono(adj, v1, vis, m, y);
                lemma_reaches_trans(adj, vis, n, m, y);
            }
        }
    }
}

/// Some listed node from position `k` on reaches `y` through nodes outside `vis`.
pub open spec fn reached_from_some(adj: Map<u32, Seq<u32>>, vis: Set<u32>, nbrs: Seq<u32>, k: int, y: u32) -> bool {
    exists|j: int| k <= j < nbrs.len() && #[trigger] reaches(adj, vis, nbrs[j], y)
}

pub proof fn lemma_dfs_neighbors_reach(adj: Map<u32, Seq<u32>>, vis: Set<u32>, nbrs: Seq<u32>, k: int, fuel: nat)
    ensures
        forall|y: u32|
            #[trigger] dfs_neighbors(adj, vis, nbrs, k, fuel).0.contains(y) && !vis.contains(y) ==> reached_from_some(
                adj,
                vis,
                nbrs,
                k,
                y,
            ),
    decreases fuel, 1nat, nbrs.len() - k,
{
    if k < 0 || k >= nbrs.len() {
    } else {
        lemma_dfs_visit_reach(adj, vis, nbrs[k], fuel);
        lemma_dfs_visit_within(adj, vis, nbrs[k], fuel);
        let a = dfs_visit(adj, vis, nbrs[k], fuel);
        lemma_dfs_neighbors_reach(adj, a.0, nbrs, k + 1, fuel);
        assert forall|y: u32| #[trigger] dfs_neighbors(adj, vis, nbrs, k, fuel).0.contains(y) && !vis.contains(y) implies reached_from_some(
            adj,
            vis,
            nbrs,
            k,
            y,
        ) by {
            if a.0.contains(y) {
                assert(reaches(adj, vis, nbrs[k], y));
            } else {
                let b = dfs_neighbors(adj, a.0, nbrs, k + 1, fuel);
                assert(dfs_neighbors(adj, vis, nbrs, k, fuel).0 == b.0);
                assert(b.0.contains(y));
                assert(reached_from_some(adj, a.0, nbrs, k + 1, y));
                let j = choose|j: int| k + 1 <= j < nbrs.len() && #[trigger] reaches(adj, a.0, nbrs[j], y);
                lemma_reaches_mono(adj, a.0, vis, nbrs[j], y);
            }
        }
    }
}

/// With enough fuel, a search from `n` reaches every node that a path from `n` through nodes
/// outside `vis` leads to.
pub proof fn lemma_dfs_visit_white(adj: Map<u32, Seq<u32>>, vis: Set<u32>, n: u32, fuel: nat, y: u32)
    requires
        adj.dom().finite(),
        fuel >= unvisited(adj, vis),
        reaches(adj, vis, n, y),
    ensures
        dfs_visit(adj, vis, n, fuel).0.contains(y),
{
    lemma_dfs_visit_closed(adj, vis, n, fuel);
    let v = dfs_visit(adj, vis, n, fuel).0;
    let p = choose|p: Seq<u32>| #[trigger] is_path(adj, p) && p[0] == n && p.last() == y && avoids(p, vis);
    lemma_path_inside(adj, vis, v, p, 0);
}

proof fn lemma_path_inside(adj: Map<u32, Seq<u32>>, vis: Set<u32>, v: Set<u32>, p: Seq<u32>, i: int)
    requires
        is_path(adj, p),
        avoids(p, vis),
        v.contains(p[0]),
        0 <= i < p.len(),
        forall|z: u32, w: u32|
            #![trigger v.contains(z), adj[z].contains(w)]
            v.contains(z) && !vis.contains(z) && adj.contains_key(z) && adj[z].contains(w) && adj.contains_key(w) ==> v.contains(w),
    ensures
        v.contains(p[i]),
        v.contains(p.last()),
    decreases p.len() - i,
{
    lemma_path_prefix_inside(adj, vis, v, p, p.len() - 1);
}

proof fn lemma_path_prefix_inside(adj: Map<u32, Seq<u32>>, vis: Set<u32>, v: Set<u32>, p: Seq<u32>, i: int)
    requires
        is_path(adj, p),
        avoids(p, vis),
        v.contains(p[0]),
        0 <= i < p.len(),
        forall|z: u32, w: u32|
            #![trigger v.contains(z), adj[z].contains(w)]
            v.contains(z) && !vis.contains(z) && adj.contains_key(z) && adj[z].contains(w) && adj.contains_key(w) ==> v.contains(w),
    ensures
        forall|j: int| 0 <= j <= i ==> v.contains(#[trigger] p[j]),
    decreases i,
{
    if i > 0 {
        lemma_path_prefix_inside(adj, vis, v, p, i - 1);
        assert(step(adj, p, i - 1));
        assert(v.contains(p[i - 1]) && !vis.contains(p[i - 1]) && adj.contains_key(p[i - 1]) && adj.contains_key(p[i]));
        assert(v.contains(p[i]));
    }
}

/// The nodes not in `c`.
pub open spec fn outside(c: Set<u32>) -> Set<u32> {
    Set::new(|z: u32| !c.contains(z))
}

/// Every two nodes of `c` are joined by a path that stays in `c`.
pub open spec fn connected_within(adj: Map<u32, Seq<u32>>, c: Set<u32>) -> bool {
    forall|a: u32, b: u32| #![trigger c.contains(a), c.contains(b)] c.contains(a) && c.contains(b) ==> reaches(adj, outside(c), a, b)
}

/// `c` and `c2` are strongly connected sets of nodes, apart, with an edge from `c` to `c2` and
/// no path back.
pub open spec fn edge_pair(adj: Map<u32, Seq<u32>>, c: Set<u32>, c2: Set<u32>) -> bool {
    &&& connected_within(adj, c)
    &&& connected_within(adj, c2)
    &&& forall|x: u32| c.contains(x) ==> adj.contains_key(x) && !c2.contains(x)
    &&& forall|x: u32| c2.contains(x) ==> adj.contains_key(x)
    &&& exists|u: u32, v: u32| #![trigger c.contains(u), c2.contains(v)] c.contains(u) && c2.contains(v) && adj[u].contains(v)
    &&& forall|a: u32, b: u32|
        #![trigger c2.contains(a), c.contains(b)]
        c2.contains(a) && c.contains(b) ==> !reaches(adj, Set::empty(), a, b)
}

/// Some node of `c` comes in `l` after every node of `c2`.
pub open spec fn later(l: Seq<u32>, c: Set<u32>, c2: Set<u32>) -> bool {
    exists|i: int|
        0 <= i < l.len() && #[trigger] c.contains(l[i]) && forall|j: int| 0 <= j < l.len() && c2.contains(#[trigger] l[j]) ==> j < i
}

/// After a search that reached the nodes `v` and finished them in the order `l`: either it
/// reached none of `c` and `c2`, or it reached all of `c2`, and either none of `c` or all of
/// `c` with a node of `c` finished after every node of `c2`.
pub open spec fn pair_order(c: Set<u32>, c2: Set<u32>, v: Set<u32>, l: Seq<u32>) -> bool {
    ||| forall|x: u32| (c.contains(x) || c2.contains(x)) ==> !v.contains(x)
    ||| c2.subset_of(v) && ((forall|x: u32| c.contains(x) ==> !v.contains(x)) || (c.subset_of(v) && later(l, c, c2)))
}

proof fn lemma_within_to_vis(adj: Map<u32, Seq<u32>>, c: Set<u32>, vis: Set<u32>, a: u32, b: u32)
    requires
        connected_within(adj, c),
        c.contains(a),
        c.contains(b),
        forall|x: u32| c.contains(x) ==> !vis.contains(x),
    ensures
        reaches(adj, vis, a, b),
{
    assert(reaches(adj, outside(c), a, b));
    lemma_reaches_mono(adj, outside(c), vis, a, b);
}

/// A strongly connected set apart from `vis` is reached whole or not at all by a search whose
/// newly reached nodes are closed under edges.
proof fn lemma_whole_or_none(adj: Map<u32, Seq<u32>>, vis: Set<u32>, v: Set<u32>, c: Set<u32>)
    requires
        connected_within(adj, c),
        forall|x: u32| c.contains(x) ==> !vis.contains(x),
        forall|z: u32, w: u32|
            #![trigger v.contains(z), adj[z].contains(w)]
            v.contains(z) && !vis.contains(z) && adj.contains_key(z) && adj[z].contains(w) && adj.contains_key(w) ==> v.contains(w),
    ensures
        (forall|x: u32| c.contains(x) ==> !v.contains(x)) || c.subset_of(v),
{
    if exists|x: u32| c.contains(x) && v.contains(x) {
        let x = choose|x: u32| c.contains(x) && v.contains(x);
        assert forall|b: u32| c.contains(b) implies v.contains(b) by {
            lemma_within_to_vis(adj, c, vis, x, b);
            let p = choose|p: Seq<u32>| #[trigger] is_path(adj, p) && p[0] == x && p.last() == b && avoids(p, vis);
            lemma_path_inside(adj, vis, v, p, 0);
        }
    }
}

proof fn lemma_later_push(l: Seq<u32>, c: Set<u32>, c2: Set<u32>, n: u32)
    requires
        later(l, c, c2),
        !c2.contains(n),
    ensures
        later(l.push(n), c, c2),
{
    let i = choose|i: int|
        0 <= i < l.len() && #[trigger] c.contains(l[i]) && forall|j: int| 0 <= j < l.len() && c2.contains(#[trigger] l[j]) ==> j < i;
    assert(c.contains(l.push(n)[i]));
    assert forall|j: int| 0 <= j < l.push(n).len() && c2.contains(#[trigger] l.push(n)[j]) implies j < i by {
        if j < l.len() {
            assert(l.push(n)[j] == l[j]);
        }
    }
}

proof fn lemma_later_prefix(a: Seq<u32>, b: Seq<u32>, c: Set<u32>, c2: Set<u32>)
    requires
        later(a, c, c2),
        forall|j: int| 0 <= j < b.len() ==> !c2.contains(#[trigger] b[j]),
    ensures
        later(a + b, c, c2),
{
    let i = choose|i: int|
        0 <= i < a.len() && #[trigger] c.contains(a[i]) && forall|j: int| 0 <= j < a.len() && c2.contains(#[trigger] a[j]) ==> j < i;
    assert(c.contains((a + b)[i]));
    assert forall|j: int| 0 <= j < (a + b).len() && c2.contains(#[trigger] (a + b)[j]) implies j < i by {
        if j < a.len() {
            assert((a + b)[j] == a[j]);
        } else {
            assert((a + b)[j] == b[j - a.len()]);
        }
    }
}

proof fn lemma_later_suffix(a: Seq<u32>, b: Seq<u32>, c: Set<u32>, c2: Set<u32>)
    requires
        later(b, c, c2),
    ensures
        later(a + b, c, c2),
{
    let i = choose|i: int|
        0 <= i < b.len() && #[trigger] c.contains(b[i]) && forall|j: int| 0 <= j < b.len() && c2.contains(#[trigger] b[j]) ==> j < i;
    assert(c.contains((a + b)[a.len() + i]));
    assert forall|j: int| 0 <= j < (a + b).len() && c2.contains(#[trigger] (a + b)[j]) implies j < a.len() + i by {
        if j >= a.len() {
            assert((a + b)[j] == b[j - a.len()]);
        }
    }
}

proof fn lemma_later_split(a: Seq<u32>, b: Seq<u32>, c: Set<u32>, c2: Set<u32>)
    requires
        exists|i: int| 0 <= i < b.len() && #[trigger] c.contains(b[i]),
        forall|j: int| 0 <= j < b.len() ==> !c2.contains(#[trigger] b[j]),
    ensures
        later(a + b, c, c2),
{
    let i = choose|i: int| 0 <= i < b.len() && #[trigger] c.contains(b[i]);
    assert(c.contains((a + b)[a.len() + i]));
    assert forall|j: int| 0 <= j < (a + b).len() && c2.contains(#[trigger] (a + b)[j]) implies j < a.len() + i by {
        if j >= a.len() {
            assert((a + b)[j] == b[j - a.len()]);
        }
    }
}

/// The order of a search from `n` on an edge pair apart from `vis`.
pub proof fn lemma_order_visit(adj: Map<u32, Seq<u32>>, vis: Set<u32>, n: u32, fuel: nat, c: Set<u32>, c2: Set<u32>)
    requires
        adj.dom().finite(),
        fuel >= unvisited(adj, vis),
        edge_pair(adj, c, c2),
        forall|x: u32| (c.contains(x) || c2.contains(x)) ==> !vis.contains(x),
    ensures
        pair_order(c, c2, dfs_visit(adj, vis, n, fuel).0, dfs_visit(adj, vis, n, fuel).1),
    decreases fuel, 0nat, 0int,
{
    let res = dfs_visit(adj, vis, n, fuel);
    if fuel == 0 || !adj.contains_key(n) || vis.contains(n) {
    } else {
        let v1 = vis.insert(n);
        lemma_unvisited_insert(adj, vis, n);
        lemma_dfs_visit_list(adj, vis, n, fuel);
        lemma_dfs_visit_within(adj, vis, n, fuel);
        let r = dfs_neighbors(adj, v1, adj[n], 0, (fuel - 1) as nat);
        assert(res.0 == r.0 && res.1 == r.1.push(n));
        if c.contains(n) {
            assert forall|b: u32| c.contains(b) implies res.0.contains(b) by {
                lemma_within_to_vis(adj, c, vis, n, b);
                lemma_dfs_visit_white(adj, vis, n, fuel, b);
            }
            let (u, v) = choose|u: u32, v: u32| #![trigger c.contains(u), c2.contains(v)] c.contains(u) && c2.contains(v) && adj[u].contains(v);
            assert forall|w: u32| c2.contains(w) implies res.0.contains(w) by {
                lemma_within_to_vis(adj, c, vis, n, u);
                lemma_reaches_edge(adj, vis, u, v);
                lemma_within_to_vis(adj, c2, vis, v, w);
                lemma_reaches_trans(adj, vis, n, u, v);
                lemma_reaches_trans(adj, vis, n, v, w);
                lemma_dfs_visit_white(adj, vis, n, fuel, w);
            }
            let l = res.1;
            assert(c.contains(l[l.len() - 1]));
            assert forall|j: int| 0 <= j < l.len() && c2.contains(#[trigger] l[j]) implies j < l.len() - 1 by {
                if j == l.len() - 1 {
                    assert(l[j] == n);
                }
            }
            assert(later(l, c, c2));
        } else if c2.contains(n) {
            assert forall|b: u32| c2.contains(b) implies res.0.contains(b) by {
                lemma_within_to_vis(adj, c2, vis, n, b);
                lemma_dfs_visit_white(adj, vis, n, fuel, b);
            }
            lemma_dfs_visit_reach(adj, vis, n, fuel);
            assert forall|x: u32| c.contains(x) implies !res.0.contains(x) by {
                if res.0.contains(x) {
                    assert(reaches(adj, vis, n, x));
                    lemma_reaches_mono(adj, vis, Set::empty(), n, x);
                }
            }
        } else {
            lemma_order_neighbors(adj, v1, adj[n], 0, (fuel - 1) as nat, c, c2);
            if later(r.1, c, c2) {
                lemma_later_push(r.1, c, c2, n);
            }
        }
    }
}

/// The order of searches from a list of edges on an edge pair apart from `vis`.
pub proof fn lemma_order_neighbors(
    adj: Map<u32, Seq<u32>>,
    vis: Set<u32>,
    nbrs: Seq<u32>,
    k: int,
    fuel: nat,
    c: Set<u32>,
    c2: Set<u32>,
)
    requires
        adj.dom().finite(),
        fuel >= unvisited(adj, vis),
        edge_pair(adj, c, c2),
        forall|x: u32| (c.contains(x) || c2.contains(x)) ==> !vis.contains(x),
    ensures
        pair_order(c, c2, dfs_neighbors(adj, vis, nbrs, k, fuel).0, dfs_neighbors(adj, vis, nbrs, k, fuel).1),
    decreases fuel, 1nat, nbrs.len() - k,
{
    let res = dfs_neighbors(adj, vis, nbrs, k, fuel);
    if k < 0 || k >= nbrs.len() {
    } else {
        lemma_order_visit(adj, vis, nbrs[k], fuel, c, c2);
        lemma_dfs_visit_within(adj, vis, nbrs[k], fuel);
        lemma_dfs_visit_list(adj, vis, nbrs[k], fuel);
        let a = dfs_visit(adj, vis, nbrs[k], fuel);
        lemma_unvisited_mono(adj, vis, a.0);
        lemma_dfs_neighbors_within(adj, a.0, nbrs, k + 1, fuel);
        lemma_dfs_neighbors_list(adj, a.0, nbrs, k + 1, fuel);
        lemma_dfs_neighbors_closed(adj, a.0, nbrs, k + 1, fuel);
        let b = dfs_neighbors(adj, a.0, nbrs, k + 1, fuel);
        assert(res.0 == b.0 && res.1 == a.1 + b.1);
        lemma_order_step(adj, vis, a.0, a.1, b.0, b.1, c, c2);
        if forall|x: u32| (c.contains(x) || c2.contains(x)) ==> !a.0.contains(x) {
            lemma_order_neighbors(adj, a.0, nbrs, k + 1, fuel, c, c2);
            assert forall|j: int| 0 <= j < a.1.len() implies a.0.contains(#[trigger] a.1[j]) by {
                assert(a.1.to_set().contains(a.1[j]));
            }
            lemma_order_after(a.0, a.1, b.0, b.1, c, c2);
        }
    }
}

proof fn lemma_order_after(av: Set<u32>, al: Seq<u32>, bv: Set<u32>, bl: Seq<u32>, c: Set<u32>, c2: Set<u32>)
    requires
        forall|x: u32| (c.contains(x) || c2.contains(x)) ==> !av.contains(x),
        pair_order(c, c2, bv, bl),
        forall|j: int| 0 <= j < al.len() ==> av.contains(#[trigger] al[j]),
    ensures
        pair_order(c, c2, bv, al + bl),
{
    if c2.subset_of(bv) && c.subset_of(bv) && later(bl, c, c2) {
        lemma_later_suffix(al, bl, c, c2);
    }
}

/// One step of a sequence of searches: the first reached `av` (finishing `al`), the rest then
/// reached `bv` (finishing `bl`).
proof fn lemma_order_step(
    adj: Map<u32, Seq<u32>>,
    vis: Set<u32>,
    av: Set<u32>,
    al: Seq<u32>,
    bv: Set<u32>,
    bl: Seq<u32>,
    c: Set<u32>,
    c2: Set<u32>,
)
    requires
        edge_pair(adj, c, c2),
        forall|x: u32| (c.contains(x) || c2.contains(x)) ==> !vis.contains(x),
        pair_order(c, c2, av, al),
        av.subset_of(bv),
        al.to_set() == av.difference(vis),
        bl.to_set() == bv.difference(av),
        forall|z: u32, w: u32|
            #![trigger bv.contains(z), adj[z].contains(w)]
            bv.contains(z) && !av.contains(z) && adj.contains_key(z) && adj[z].contains(w) && adj.contains_key(w) ==> bv.contains(w),
    ensures
        (forall|x: u32| (c.contains(x) || c2.contains(x)) ==> !av.contains(x)) || pair_order(c, c2, bv, al + bl),
{
    if !(forall|x: u32| (c.contains(x) || c2.contains(x)) ==> !av.contains(x)) {
        assert(c2.subset_of(av));
        if c.subset_of(av) && later(al, c, c2) {
            assert forall|j: int| 0 <= j < bl.len() implies !c2.contains(#[trigger] bl[j]) by {
                assert(bl.to_set().contains(bl[j]));
            }
            lemma_later_prefix(al, bl, c, c2);
        } else {
            assert(forall|x: u32| c.contains(x) ==> !av.contains(x));
            lemma_whole_or_none(adj, av, bv, c);
            if c.subset_of(bv) {
                let (u, v) = choose|u: u32, v: u32| #![trigger c.contains(u), c2.contains(v)] c.contains(u) && c2.contains(v) && adj[u].contains(v);
                assert(bl.to_set().contains(u));
                let i = choose|i: int| 0 <= i < bl.len() && bl[i] == u;
                assert(c.contains(bl[i]));
                assert forall|j: int| 0 <= j < bl.len() implies !c2.contains(#[trigger] bl[j]) by {
                    assert(bl.to_set().contains(bl[j]));
                }
                lemma_later_split(al, bl, c, c2);
            }
        }
    }
}

/// The nodes newly reached by the searches of a forest are closed under edges.
pub proof fn lemma_forest_closed(adj: Map<u32, Seq<u32>>, ids: Seq<u32>, k: int, vis: Set<u32>)
    requires
        adj.dom().finite(),
        0 <= k,
    ensures
        forall|z: u32, w: u32|
            #![trigger forest_from(adj, ids, k, vis).0.contains(z), adj[z].contains(w)]
            forest_from(adj, ids, k, vis).0.contains(z) && !vis.contains(z) && adj.contains_key(z) && adj[z].contains(w)
                && adj.contains_key(w) ==> forest_from(adj, ids, k, vis).0.contains(w),
    decreases ids.len() - k,
{
    if k < ids.len() {
        let fuel = unvisited(adj, vis);
        lemma_dfs_visit_closed(adj, vis, ids[k], fuel);
        lemma_dfs_visit_within(adj, vis, ids[k], fuel);
        let a = dfs_visit(adj, vis, ids[k], fuel);
        lemma_forest_closed(adj, ids, k + 1, a.0);
        lemma_forest_list(adj, ids, k + 1, a.0);
        let b = forest_from(adj, ids, k + 1, a.0);
        assert forall|z: u32, w: u32|
            #![trigger forest_from(adj, ids, k, vis).0.contains(z), adj[z].contains(w)]
            forest_from(adj, ids, k, vis).0.contains(z) && !vis.contains(z) && adj.contains_key(z) && adj[z].contains(w)
                && adj.contains_key(w) implies forest_from(adj, ids, k, vis).0.contains(w) by {
            if a.0.contains(z) {
                assert(a.0.contains(w));
            } else {
                assert(b.0.contains(z) && !a.0.contains(z));
            }
        }
    }
}

/// The order of the searches of a forest on an edge pair apart from `vis`.
pub proof fn lemma_order_forest(adj: Map<u32, Seq<u32>>, ids: Seq<u32>, k: int, vis: Set<u32>, c: Set<u32>, c2: Set<u32>)
    requires
        adj.dom().finite(),
        0 <= k,
        edge_pair(adj, c, c2),
        forall|x: u32| (c.contains(x) || c2.contains(x)) ==> !vis.contains(x),
    ensures
        pair_order(c, c2, forest_from(adj, ids, k, vis).0, forest_from(adj, ids, k, vis).1),
    decreases ids.len() - k,
{
    let res = forest_from(adj, ids, k, vis);
    if k < ids.len() {
        let fuel = unvisited(adj, vis);
        lemma_order_visit(adj, vis, ids[k], fuel, c, c2);
        lemma_dfs_visit_within(adj, vis, ids[k], fuel);
        lemma_dfs_visit_list(adj, vis, ids[k], fuel);
        let a = dfs_visit(adj, vis, ids[k], fuel);
        lemma_forest_list(adj, ids, k + 1, a.0);
        lemma_forest_closed(adj, ids, k + 1, a.0);
        let b = forest_from(adj, ids, k + 1, a.0);
        assert(res.0 == b.0 && res.1 == a.1 + b.1);
        lemma_order_step(adj, vis, a.0, a.1, b.0, b.1, c, c2);
        if forall|x: u32| (c.contains(x) || c2.contains(x)) ==> !a.0.contains(x) {
            lemma_order_forest(adj, ids, k + 1, a.0, c, c2);
            assert forall|j: int| 0 <= j < a.1.len() implies a.0.contains(#[trigger] a.1[j]) by {
                assert(a.1.to_set().contains(a.1[j]));
            }
            lemma_order_after(a.0, a.1, b.0, b.1, c, c2);
        }
    }
}

/// The nodes joined to `x` by paths both ways: its strongly connected component.
pub open spec fn scc_of(adj: Map<u32, Seq<u32>>, x: u32) -> Set<u32> {
    Set::new(|y: u32| reaches(adj, Set::empty(), x, y) && reaches(adj, Set::empty(), y, x))
}

proof fn lemma_path_split(adj: Map<u32, Seq<u32>>, p: Seq<u32>, i: int)
    requires
        is_path(adj, p),
        0 <= i < p.len(),
    ensures
        reaches(adj, Set::empty(), p[0], p[i]),
        reaches(adj, Set::empty(), p[i], p.last()),
{
    let a = p.take(i + 1);
    let b = p.skip(i);
    assert forall|j: int| 0 <= j < a.len() - 1 implies #[trigger] step(adj, a, j) by {
        assert(step(adj, p, j));
    }
    assert forall|j: int| 0 <= j < b.len() - 1 implies #[trigger] step(adj, b, j) by {
        assert(step(adj, p, j + i));
    }
    assert(is_path(adj, a) && a[0] == p[0] && a.last() == p[i] && avoids(a, Set::empty()));
    assert(is_path(adj, b) && b[0] == p[i] && b.last() == p.last() && avoids(b, Set::empty()));
}

/// A component holds its node, is strongly connected, and is the component of each of its
/// nodes.
pub proof fn lemma_scc(adj: Map<u32, Seq<u32>>, x: u32)
    requires
        adj.contains_key(x),
    ensures
        scc_of(adj, x).contains(x),
        connected_within(adj, scc_of(adj, x)),
        forall|y: u32| #[trigger] scc_of(adj, x).contains(y) ==> adj.contains_key(y) && scc_of(adj, y) == scc_of(adj, x),
{
    let c = scc_of(adj, x);
    let e = Set::<u32>::empty();
    lemma_reaches_refl(adj, e, x);
    assert forall|y: u32| #[trigger] c.contains(y) implies adj.contains_key(y) && scc_of(adj, y) == c by {
        let p = choose|p: Seq<u32>| #[trigger] is_path(adj, p) && p[0] == x && p.last() == y && avoids(p, e);
        assert(adj.contains_key(p[p.len() - 1]));
        assert forall|z: u32| scc_of(adj, y).contains(z) <==> c.contains(z) by {
            if scc_of(adj, y).contains(z) {
                lemma_reaches_trans(adj, e, x, y, z);
                lemma_reaches_trans(adj, e, z, y, x);
            }
            if c.contains(z) {
                lemma_reaches_trans(adj, e, y, x, z);
                lemma_reaches_trans(adj, e, z, x, y);
            }
        }
        assert(scc_of(adj, y) =~= c);
    }
    assert forall|a: u32, b: u32| #![trigger c.contains(a), c.contains(b)] c.contains(a) && c.contains(b) implies reaches(
        adj,
        outside(c),
        a,
        b,
    ) by {
        lemma_reaches_trans(adj, e, a, x, b);
        let p = choose|p: Seq<u32>| #[trigger] is_path(adj, p) && p[0] == a && p.last() == b && avoids(p, e);
        assert forall|i: int| 0 <= i < p.len() implies !outside(c).contains(#[trigger] p[i]) by {
            lemma_path_split(adj, p, i);
            lemma_reaches_trans(adj, e, x, a, p[i]);
            lemma_reaches_trans(adj, e, p[i], b, x);
        }
    }
}

/// An edge between two different components makes an edge pair of them.
pub proof fn lemma_edge_pair(adj: Map<u32, Seq<u32>>, u: u32, v: u32)
    requires
        adj.contains_key(u),
        adj.contains_key(v),
        adj[u].contains(v),
        !reaches(adj, Set::empty(), v, u),
    ensures
        edge_pair(adj, scc_of(adj, u), scc_of(adj, v)),
{
    let e = Set::<u32>::empty();
    let c = scc_of(adj, u);
    let c2 = scc_of(adj, v);
    lemma_scc(adj, u);
    lemma_scc(adj, v);
    lemma_reaches_edge(adj, e, u, v);
    assert forall|x: u32| c.contains(x) implies adj.contains_key(x) && !c2.contains(x) by {
        if c2.contains(x) {
            lemma_reaches_trans(adj, e, v, x, u);
        }
    }
    assert(c.contains(u) && c2.contains(v) && adj[u].contains(v));
    assert forall|a: u32, b: u32| #![trigger c2.contains(a), c.contains(b)] c2.contains(a) && c.contains(b) implies !reaches(
        adj,
        e,
        a,
        b,
    ) by {
        if reaches(adj, e, a, b) {
            lemma_reaches_trans(adj, e, v, a, b);
            lemma_reaches_trans(adj, e, v, b, u);
        }
    }
}

proof fn lemma_later_trans(l: Seq<u32>, a: Set<u32>, b: Set<u32>, c: Set<u32>)
    requires
        later(l, a, b),
        later(l, b, c),
    ensures
        later(l, a, c),
{
    let i = choose|i: int|
        0 <= i < l.len() && #[trigger] a.contains(l[i]) && forall|j: int| 0 <= j < l.len() && b.contains(#[trigger] l[j]) ==> j < i;
    let k = choose|k: int|
        0 <= k < l.len() && #[trigger] b.contains(l[k]) && forall|j: int| 0 <= j < l.len() && c.contains(#[trigger] l[j]) ==> j < k;
    assert(k < i);
    assert(a.contains(l[i]));
}

/// Two sets cannot each have a node after every node of the other.
pub proof fn lemma_later_antisym(l: Seq<u32>, a: Set<u32>, b: Set<u32>)
    requires
        later(l, a, b),
    ensures
        !later(l, b, a),
{
    let i = choose|i: int|
        0 <= i < l.len() && #[trigger] a.contains(l[i]) && forall|j: int| 0 <= j < l.len() && b.contains(#[trigger] l[j]) ==> j < i;
    if later(l, b, a) {
        let k = choose|k: int|
            0 <= k < l.len() && #[trigger] b.contains(l[k]) && forall|j: int| 0 <= j < l.len() && a.contains(#[trigger] l[j]) ==> j < k;
        assert(k < i);
        assert(i < k);
    }
}

/// Over a forest that reaches every node, when a path leads from `y` to `x` and none leads
/// back, some node of the component of `y` finishes after every node of the component of `x`.
pub proof fn lemma_forest_orders(adj: Map<u32, Seq<u32>>, ids: Seq<u32>, y: u32, x: u32)
    requires
        adj.dom().finite(),
        forall|n: u32| adj.contains_key(n) ==> ids.contains(n),
        reaches(adj, Set::empty(), y, x),
        !reaches(adj, Set::empty(), x, y),
    ensures
        later(forest_from(adj, ids, 0, Set::empty()).1, scc_of(adj, y), scc_of(adj, x)),
{
    let e = Set::<u32>::empty();
    let p = choose|p: Seq<u32>| #[trigger] is_path(adj, p) && p[0] == y && p.last() == x && avoids(p, e);
    lemma_path_order(adj, ids, p, 0);
    lemma_scc(adj, y);
    if scc_of(adj, y) == scc_of(adj, x) {
        assert(adj.contains_key(p[p.len() - 1]));
        lemma_scc(adj, x);
        assert(scc_of(adj, y).contains(x));
    }
}

proof fn lemma_path_order(adj: Map<u32, Seq<u32>>, ids: Seq<u32>, p: Seq<u32>, i: int)
    requires
        adj.dom().finite(),
        forall|n: u32| adj.contains_key(n) ==> ids.contains(n),
        is_path(adj, p),
        0 <= i < p.len(),
    ensures
        scc_of(adj, p[i]) == scc_of(adj, p.last()) || later(
            forest_from(adj, ids, 0, Set::empty()).1,
            scc_of(adj, p[i]),
            scc_of(adj, p.last()),
        ),
    decreases p.len() - i,
{
    let e = Set::<u32>::empty();
    let l = forest_from(adj, ids, 0, e).1;
    if i < p.len() - 1 {
        lemma_path_order(adj, ids, p, i + 1);
        let a = p[i];
        let b = p[i + 1];
        assert(step(adj, p, i));
        assert(adj.contains_key(a) && adj.contains_key(b));
        if reaches(adj, e, b, a) {
            lemma_reaches_edge(adj, e, a, b);
            lemma_scc(adj, a);
            assert(scc_of(adj, a).contains(b));
        } else {
            lemma_edge_pair(adj, a, b);
            let c = scc_of(adj, a);
            let c2 = scc_of(adj, b);
            lemma_order_forest(adj, ids, 0, e, c, c2);
            lemma_forest_list(adj, ids, 0, e);
            let v = forest_from(adj, ids, 0, e).0;
            assert forall|z: u32| adj.contains_key(z) implies v.contains(z) by {
                assert(ids.contains(z));
                let j = choose|j: int| 0 <= j < ids.len() && ids[j] == z;
                assert(adj.contains_key(ids[j]));
            }
            lemma_scc(adj, a);
            lemma_scc(adj, b);
            assert(v.contains(a) && c.contains(a));
            assert(c.subset_of(v) && later(l, c, c2));
            if scc_of(adj, b) != scc_of(adj, p.last()) {
                lemma_later_trans(l, c, c2, scc_of(adj, p.last()));
            }
        }
    }
}

/// `g` and `r` have the same nodes and opposite edges.
pub open spec fn reversed(g: Map<u32, Seq<u32>>, r: Map<u32, Seq<u32>>) -> bool {
    &&& g.dom() == r.dom()
    &&& forall|a: u32, b: u32|
        #![trigger g[a].contains(b)]
        #![trigger r[b].contains(a)]
        g.contains_key(a) && g.contains_key(b) ==> (g[a].contains(b) <==> r[b].contains(a))
}

/// A path in `g` read backwards is a path in the reversed graph.
pub proof fn lemma_reverse_reach(g: Map<u32, Seq<u32>>, r: Map<u32, Seq<u32>>, x: u32, y: u32)
    requires
        reversed(g, r),
        reaches(g, Set::empty(), x, y),
    ensures
        reaches(r, Set::empty(), y, x),
{
    let e = Set::<u32>::empty();
    let p = choose|p: Seq<u32>| #[trigger] is_path(g, p) && p[0] == x && p.last() == y && avoids(p, e);
    let q = p.reverse();
    let n = p.len() as int;
    assert forall|i: int| 0 <= i < q.len() implies r.contains_key(#[trigger] q[i]) by {
        assert(q[i] == p[n - 1 - i]);
        assert(g.contains_key(p[n - 1 - i]));
    }
    assert forall|i: int| 0 <= i < q.len() - 1 implies #[trigger] step(r, q, i) by {
        assert(step(g, p, n - 2 - i));
        assert(q[i] == p[n - 1 - i] && q[i + 1] == p[n - 2 - i]);
        assert(g.contains_key(p[n - 2 - i]) && g.contains_key(p[n - 1 - i]));
        assert(g[p[n - 2 - i]].contains(p[n - 1 - i]));
    }
    assert(is_path(r, q) && q[0] == y && q.last() == x && avoids(q, e));
}

/// Reversing the edges keeps the components.
pub proof fn lemma_reversed_scc(g: Map<u32, Seq<u32>>, r: Map<u32, Seq<u32>>, x: u32)
    requires
        reversed(g, r),
    ensures
        reversed(r, g),
        scc_of(g, x) == scc_of(r, x),
{
    assert forall|a: u32, b: u32| r.contains_key(a) && r.contains_key(b) implies (r[a].contains(b) <==> g[b].contains(a)) by {
        assert(g.contains_key(a) && g.contains_key(b));
    }
    assert(reversed(r, g));
    assert forall|y: u32| scc_of(g, x).contains(y) <==> scc_of(r, x).contains(y) by {
        if scc_of(g, x).contains(y) {
            lemma_reverse_reach(g, r, x, y);
            lemma_reverse_reach(g, r, y, x);
        }
        if scc_of(r, x).contains(y) {
            lemma_reverse_reach(r, g, x, y);
            lemma_reverse_reach(r, g, y, x);
        }
    }
    assert(scc_of(g, x) =~= scc_of(r, x));
}

/// The second pass: taking the nodes of `l` from position `m - 1` down, searches in `g` from
/// each node not reached yet gather exactly its component, and each component gathered has a
/// node after every node of the components gathered after it. Here `l` lists nodes so that,
/// of two components of the reversed graph `r` with a path from the first to the second and
/// none back, some node of the first comes after every node of the second; and the nodes
/// reached before (`vis`) make whole components and include every node from position `m` on.
pub proof fn lemma_components_scc(g: Map<u32, Seq<u32>>, r: Map<u32, Seq<u32>>, l: Seq<u32>, m: int, vis: Set<u32>)
    requires
        g.dom().finite(),
        reversed(g, r),
        0 <= m <= l.len(),
        forall|j: int| 0 <= j < l.len() ==> g.contains_key(#[trigger] l[j]),
        forall|y: u32, x: u32|
            #![trigger scc_of(r, y), scc_of(r, x)]
            reaches(r, Set::empty(), y, x) && !reaches(r, Set::empty(), x, y) ==> later(l, scc_of(r, y), scc_of(r, x)),
        forall|y: u32| #[trigger] vis.contains(y) ==> g.contains_key(y) && scc_of(g, y).subset_of(vis),
        forall|j: int| m <= j < l.len() ==> vis.contains(#[trigger] l[j]),
    ensures
        forall|i: int, x: u32|
            0 <= i < components(g, l.take(m), vis, Set::empty()).1.len() && #[trigger] components(g, l.take(m), vis, Set::empty()).1[i].contains(x)
                ==> components(g, l.take(m), vis, Set::empty()).1[i] == scc_of(g, x),
        forall|i: int, j: int|
            0 <= i < j < components(g, l.take(m), vis, Set::empty()).1.len() ==> later(
                l,
                #[trigger] components(g, l.take(m), vis, Set::empty()).1[i],
                #[trigger] components(g, l.take(m), vis, Set::empty()).1[j],
            ),
    decreases m,
{
    let e = Set::<u32>::empty();
    let order = l.take(m);
    let cs = components(g, order, vis, e).1;
    if m > 0 {
        let x = l[m - 1];
        let rest = l.take(m - 1);
        assert(order.drop_last() =~= rest);
        assert(order.last() == x);
        assert(g.contains_key(x));
        if !vis.contains(x) {
            let fuel = unvisited(g, vis);
            assert(g.dom().difference(vis).contains(x));
            lemma_dfs_visit_within(g, vis, x, fuel);
            lemma_dfs_visit_reach(g, vis, x, fuel);
            let v2 = dfs_visit(g, vis, x, fuel).0;
            let c = e.union(v2.difference(vis));
            lemma_scc(g, x);
            let sx = scc_of(g, x);
            assert forall|z: u32| sx.contains(z) implies !vis.contains(z) by {
                if vis.contains(z) {
                    assert(scc_of(g, z) == sx);
                    assert(vis.contains(x));
                }
            }
            assert forall|y: u32| c.contains(y) <==> sx.contains(y) by {
                if sx.contains(y) {
                    lemma_within_to_vis(g, sx, vis, x, y);
                    lemma_dfs_visit_white(g, vis, x, fuel, y);
                }
                if c.contains(y) {
                    assert(reaches(g, vis, x, y));
                    lemma_reaches_mono(g, vis, e, x, y);
                    if !reaches(g, e, y, x) {
                        lemma_reverse_reach(g, r, x, y);
                        if reaches(r, e, x, y) {
                            lemma_reversed_scc(g, r, x);
                            lemma_reverse_reach(r, g, x, y);
                        }
                        assert(later(l, scc_of(r, y), scc_of(r, x)));
                        lemma_reversed_scc(g, r, x);
                        lemma_reversed_scc(g, r, y);
                        let i = choose|i: int|
                            0 <= i < l.len() && #[trigger] scc_of(r, y).contains(l[i]) && forall|j: int|
                                0 <= j < l.len() && scc_of(r, x).contains(#[trigger] l[j]) ==> j < i;
                        assert(sx.contains(l[m - 1]));
                        assert(i >= m);
                        assert(vis.contains(l[i]));
                        assert(g.contains_key(y));
                        lemma_scc(g, y);
                        assert(scc_of(g, y).contains(l[i]));
                        assert(scc_of(g, l[i]) == scc_of(g, y));
                        assert(scc_of(g, y).contains(y));
                    }
                }
            }
            assert(c =~= sx);
            assert forall|y: u32| #[trigger] v2.contains(y) implies g.contains_key(y) && scc_of(g, y).subset_of(v2) by {
                if !vis.contains(y) {
                    assert(c.contains(y));
                    assert(scc_of(g, y) == sx);
                }
            }
            assert forall|j: int| m - 1 <= j < l.len() implies v2.contains(#[trigger] l[j]) by {
                if j >= m {
                    assert(vis.contains(l[j]));
                }
            }
            lemma_components_scc(g, r, l, m - 1, v2);
            lemma_components_partition(g, rest, v2);
            let rc = components(g, rest, v2, e).1;
            assert(cs == seq![c] + rc);
            assert forall|i: int, y: u32| 0 <= i < cs.len() && #[trigger] cs[i].contains(y) implies cs[i] == scc_of(g, y) by {
                if i == 0 {
                    lemma_scc(g, x);
                } else {
                    assert(cs[i] == rc[i - 1]);
                }
            }
            assert forall|i: int, j: int| 0 <= i < j < cs.len() implies later(l, #[trigger] cs[i], #[trigger] cs[j]) by {
                assert(cs[j] == rc[j - 1]);
                if i == 0 {
                    assert(c.contains(l[m - 1]));
                    assert forall|k: int| 0 <= k < l.len() && rc[j - 1].contains(#[trigger] l[k]) implies k < m - 1 by {
                        if k >= m - 1 {
                            assert(v2.contains(l[k]));
                        }
                    }
                    assert(cs[0].contains(l[m - 1]));
                } else {
                    assert(cs[i] == rc[i - 1]);
                }
            }
        } else {
            lemma_components_scc(g, r, l, m - 1, vis);
            assert(cs == components(g, rest, vis, e).1);
        }
    }
}

/// The searches of a forest reach only nodes of the graph, besides those reached before.
pub proof fn lemma_forest_within(adj: Map<u32, Seq<u32>>, ids: Seq<u32>, k: int, vis: Set<u32>)
    requires
        0 <= k,
    ensures
        forall|x: u32| #[trigger] forest_from(adj, ids, k, vis).0.contains(x) ==> vis.contains(x) || adj.contains_key(x),
    decreases ids.len() - k,
{
    if k < ids.len() {
        let fuel = unvisited(adj, vis);
        lemma_dfs_visit_within(adj, vis, ids[k], fuel);
        let a = dfs_visit(adj, vis, ids[k], fuel);
        lemma_forest_within(adj, ids, k + 1, a.0);
        assert(forest_from(adj, ids, k, vis).0 == forest_from(adj, ids, k + 1, a.0).0);
        assert forall|x: u32| #[trigger] forest_from(adj, ids, k, vis).0.contains(x) implies vis.contains(x) || adj.contains_key(x) by {
            if a.0.contains(x) {
                assert(a.0.contains(x));
            }
        }
    }
}

/// Law: the two searches find the strongly connected components of any graph. Take the
/// finishing order of a depth-first forest over the reversed graph `r` (visiting roots in the
/// order `ids`, which lists every node), and gather components of `g` from its end: the
/// components are not empty, are disjoint, cover every node, each is the strongly connected
/// component of each of its nodes, and for every edge from one component to another, the
/// component it leads to comes first.
pub proof fn law_two_pass_components(g: Map<u32, Seq<u32>>, r: Map<u32, Seq<u32>>, ids: Seq<u32>)
    requires
        g.dom().finite(),
        reversed(g, r),
        forall|n: u32| r.contains_key(n) ==> ids.contains(n),
    ensures
        ({
            let cs = components(g, forest_from(r, ids, 0, Set::empty()).1, Set::empty(), Set::empty()).1;
            &&& forall|i: int| 0 <= i < cs.len() ==> has_node(#[trigger] cs[i])
            &&& forall|i: int, x: u32| 0 <= i < cs.len() && #[trigger] cs[i].contains(x) ==> g.contains_key(x)
            &&& forall|i: int, j: int, x: u32|
                0 <= i < j < cs.len() && #[trigger] cs[i].contains(x) ==> !#[trigger] cs[j].contains(x)
            &&& forall|x: u32| g.contains_key(x) ==> #[trigger] in_some(cs, x)
            &&& forall|i: int, x: u32| 0 <= i < cs.len() && #[trigger] cs[i].contains(x) ==> cs[i] == scc_of(g, x)
            &&& forall|i: int, j: int, a: u32, b: u32|
                0 <= i < cs.len() && 0 <= j < cs.len() && i != j && #[trigger] cs[i].contains(a)
                    && #[trigger] cs[j].contains(b) && g[a].contains(b) ==> j < i
        }),
{
    let e = Set::<u32>::empty();
    assert(r.dom() == g.dom());
    lemma_forest_list(r, ids, 0, e);
    lemma_forest_within(r, ids, 0, e);
    let l = forest_from(r, ids, 0, e).1;
    assert forall|j: int| 0 <= j < l.len() implies g.contains_key(#[trigger] l[j]) by {
        assert(l.to_set().contains(l[j]));
    }
    assert forall|y: u32, x: u32|
        #![trigger scc_of(r, y), scc_of(r, x)]
        reaches(r, e, y, x) && !reaches(r, e, x, y) implies later(l, scc_of(r, y), scc_of(r, x)) by {
        lemma_forest_orders(r, ids, y, x);
    }
    assert(l.take(l.len() as int) =~= l);
    lemma_components_scc(g, r, l, l.len() as int, e);
    lemma_components_partition(g, l, e);
    lemma_components_within(g, l, e, e);
    let cs = components(g, l, e, e).1;
    assert forall|x: u32| g.contains_key(x) implies #[trigger] in_some(cs, x) by {
        assert(r.contains_key(x));
        assert(ids.contains(x));
        let m = choose|m: int| 0 <= m < ids.len() && ids[m] == x;
        assert(r.contains_key(ids[m]));
        assert(forest_from(r, ids, 0, e).0.contains(ids[m]));
        assert(forest_from(r, ids, 0, e).0.difference(e).contains(x));
        assert(l.to_set().contains(x));
        assert(l.contains(x));
    }
    assert forall|i: int, j: int, a: u32, b: u32|
        0 <= i < cs.len() && 0 <= j < cs.len() && i != j && #[trigger] cs[i].contains(a) && #[trigger] cs[j].contains(b)
            && g[a].contains(b) implies j < i by {
        assert(g.contains_key(a) && g.contains_key(b));
        assert(cs[i] == scc_of(g, a) && cs[j] == scc_of(g, b));
        lemma_scc(g, a);
        lemma_scc(g, b);
        if reaches(g, e, b, a) {
            lemma_reaches_edge(g, e, a, b);
            assert(scc_of(g, a).contains(b));
            if i < j {
                assert(!cs[j].contains(b));
            } else {
                assert(!cs[i].contains(a));
            }
        } else {
            assert(r[b].contains(a));
            lemma_reaches_edge(r, e, b, a);
            if reaches(r, e, a, b) {
                lemma_reversed_scc(g, r, a);
                lemma_reverse_reach(r, g, a, b);
            }
            lemma_forest_orders(r, ids, b, a);
            lemma_reversed_scc(g, r, a);
            lemma_reversed_scc(g, r, b);
            assert(later(l, cs[j], cs[i]));
            if i < j {
                assert(later(l, cs[i], cs[j]));
                lemma_later_antisym(l, cs[i], cs[j]);
            }
        }
    }
}

} // verus!
