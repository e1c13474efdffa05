use vstd::prelude::*;

use crate::geometry::{dist, lemma_dist_symmetric, Point};
use crate::paths::{
    adjacency_wf, bfs, climb, climb_length, lemma_distinct_below, path_entry, visit, BfsState,
};

verus! {

/// `w` is a walk in the graph: a nonempty sequence of nodes, each one a
/// neighbour of the one before.
pub open spec fn is_walk(adj: Seq<Vec<usize>>, w: Seq<usize>) -> bool {
    &&& w.len() >= 1
    &&& forall|k: int| 0 <= k < w.len() - 1 ==> adj[w[k] as int]@.contains(#[trigger] w[k + 1])
}

/// Some walk leads from `s` to `g`.
pub open spec fn reachable(adj: Seq<Vec<usize>>, s: usize, g: usize) -> bool {
    exists|w: Seq<usize>| is_walk(adj, w) && w[0] == s && w.last() == g
}

/// The summed edge length of the walk `w`.
pub open spec fn walk_length(nodes: Seq<Point>, w: Seq<usize>) -> nat
    decreases w.len(),
{
    if w.len() < 2 {
        0
    } else {
        walk_length(nodes, w.drop_last()) + dist(
            nodes[w[w.len() - 2] as int],
            nodes[w[w.len() - 1] as int],
        )
    }
}

/// The shape of a search state: the start comes first, nodes are distinct
/// and in range, and every other discovered node was reached from an earlier
/// discovered node that sees it.
spec fn tree_wf(adj: Seq<Vec<usize>>, s: usize, st: BfsState) -> bool {
    let n = adj.len();
    let order = st.0;
    let parent = st.1;
    &&& order.len() >= 1
    &&& order[0] == s
    &&& order.no_duplicates()
    &&& forall|i: int| 0 <= i < order.len() ==> #[trigger] order[i] < n
    &&& parent.len() == n
    &&& forall|w: int| 0 <= w < n ==> #[trigger] parent[w] < n
    &&& forall|i: int| 1 <= i < order.len() ==> order.contains(#[trigger] parent[order[i] as int])
    &&& forall|i: int, j: int|
        1 <= i < order.len() && 0 <= j < order.len() && #[trigger] order[j] == #[trigger] parent[order[i] as int]
            ==> j < i
    &&& forall|i: int|
        1 <= i < order.len() ==> adj[parent[order[i] as int] as int]@.contains(#[trigger] order[i])
}

/// Every neighbour of the first `k` discovered nodes has been discovered.
spec fn explored_closed(adj: Seq<Vec<usize>>, order: Seq<usize>, k: int) -> bool {
    forall|i: int, m: int|
        0 <= i < k && i < order.len() && 0 <= m < adj[order[i] as int]@.len() ==> order.contains(
            #[trigger] adj[order[i] as int]@[m],
        )
}

proof fn lemma_visit(adj: Seq<Vec<usize>>, s: usize, st: BfsState, h: int, k: int)
    requires
        adjacency_wf(adj, adj.len()),
        tree_wf(adj, s, st),
        0 <= h < st.0.len(),
        0 <= k <= adj[st.0[h] as int]@.len(),
    ensures
        ({
            let v = st.0[h];
            let next = visit(adj[v as int]@, v, k, st);
            &&& tree_wf(adj, s, next)
            &&& next.0.len() >= st.0.len()
            &&& forall|i: int| 0 <= i < st.0.len() ==> #[trigger] next.0[i] == st.0[i]
            &&& forall|m: int| 0 <= m < k ==> next.0.contains(#[trigger] adj[v as int]@[m])
        }),
    decreases k,
{
    let v = st.0[h];
    let nbrs = adj[v as int]@;
    if k > 0 {
        lemma_visit(adj, s, st, h, k - 1);
        let prev = visit(nbrs, v, k - 1, st);
        let w = nbrs[k - 1];
        let next = visit(nbrs, v, k, st);
        assert(w < adj.len());
        if prev.0.contains(w) {
            assert(next == prev);
        } else {
            let len = prev.0.len() as int;
            assert(next == (prev.0.push(w), prev.1.update(w as int, v)));
            let order = next.0;
            let parent = next.1;
            assert(prev.0[h] == v);
            assert(order.no_duplicates()) by {
                assert forall|a: int, b: int| 0 <= a < b < order.len() implies order[a] != order[b] by {
                    if b == len {
                        assert(prev.0[a] == order[a]);
                    } else {
                        assert(prev.0[a] == order[a] && prev.0[b] == order[b]);
                    }
                }
            }
            assert forall|i: int| 1 <= i < order.len() implies order.contains(
                #[trigger] parent[order[i] as int],
            ) by {
                if i == len {
                    assert(parent[w as int] == v);
                    assert(order[h] == v);
                } else {
                    assert(order[i] == prev.0[i]);
                    assert(order[i] != w);
                    assert(parent[order[i] as int] == prev.1[prev.0[i] as int]);
                    let j = choose|j: int| 0 <= j < len && prev.0[j] == prev.1[prev.0[i] as int];
                    assert(order[j] == prev.0[j]);
                }
            }
            assert forall|i: int, j: int|
                1 <= i < order.len() && 0 <= j < order.len() && #[trigger] order[j]
                    == #[trigger] parent[order[i] as int] implies j < i by {
                if i == len {
                    assert(parent[w as int] == v);
                    if j != h {
                        if j == len {
                            assert(order[j] == w);
                        } else {
                            assert(prev.0[j] == prev.0[h]);
                        }
                    }
                } else {
                    assert(order[i] == prev.0[i]);
                    assert(order[i] != w);
                    let p = prev.1[prev.0[i] as int];
                    assert(parent[order[i] as int] == p);
                    if j == len {
                        assert(prev.0.contains(p));
                        assert(order[j] == w);
                    } else {
                        assert(prev.0[j] == p);
                    }
                }
            }
            assert forall|i: int| 1 <= i < order.len() implies adj[parent[order[i] as int] as int]@.contains(
                #[trigger] order[i],
            ) by {
                if i == len {
                    assert(parent[w as int] == v);
                    assert(nbrs[k - 1] == w);
                } else {
                    assert(order[i] == prev.0[i]);
                    assert(order[i] != w);
                }
            }
            assert forall|m: int| 0 <= m < k implies next.0.contains(#[trigger] nbrs[m]) by {
                if m < k - 1 {
                    let j = choose|j: int| 0 <= j < len && prev.0[j] == nbrs[m];
                    assert(order[j] == nbrs[m]);
                } else {
                    assert(order[len] == w);
                }
            }
            assert forall|i: int| 0 <= i < order.len() implies #[trigger] order[i] < adj.len() by {
                if i < len {
                    assert(order[i] == prev.0[i]);
                }
            }
        }
    }
}

proof fn lemma_bfs_tree(adj: Seq<Vec<usize>>, s: usize, k: nat)
    requires
        adjacency_wf(adj, adj.len()),
        s < adj.len(),
    ensures
        tree_wf(adj, s, bfs(adj, s, k)),
        explored_closed(adj, bfs(adj, s, k).0, k as int),
    decreases k,
{
    if k > 0 {
        lemma_bfs_tree(adj, s, (k - 1) as nat);
        let prev = bfs(adj, s, (k - 1) as nat);
        let h = k - 1;
        let st = bfs(adj, s, k);
        if h < prev.0.len() {
            let v = prev.0[h];
            lemma_visit(adj, s, prev, h, adj[v as int]@.len() as int);
            assert forall|i: int, m: int|
                0 <= i < k && i < st.0.len() && 0 <= m < adj[st.0[i] as int]@.len() implies st.0.contains(
                #[trigger] adj[st.0[i] as int]@[m],
            ) by {
                assert(st.0[i] == prev.0[i]);
                if i < h {
                    let x = adj[prev.0[i] as int]@[m];
                    let j = choose|j: int| 0 <= j < prev.0.len() && prev.0[j] == x;
                    assert(st.0[j] == x);
                }
            }
        }
    } else {
        let st = bfs(adj, s, 0);
        assert(st.0 == seq![s]);
    }
}

proof fn lemma_climb(adj: Seq<Vec<usize>>, s: usize, st: BfsState, i: int, fuel: nat)
    requires
        tree_wf(adj, s, st),
        0 <= i < st.0.len(),
        fuel >= i,
    ensures
        ({
            let c = climb(st.1, s, st.0[i], fuel);
            &&& c[0] == st.0[i]
            &&& c.len() >= 1
            &&& c.last() == s
            &&& forall|k: int| 0 <= k < c.len() - 1 ==> adj[c[k + 1] as int]@.contains(#[trigger] c[k])
        }),
    decreases i,
{
    let order = st.0;
    let parent = st.1;
    let g = order[i];
    let c = climb(parent, s, g, fuel);
    if i == 0 {
        assert(c == seq![g]);
    } else {
        assert(g != s) by {
            assert(order[0] == s);
        }
        let p = parent[g as int];
        let j = choose|j: int| 0 <= j < order.len() && order[j] == p;
        assert(j < i);
        lemma_climb(adj, s, st, j, (fuel - 1) as nat);
        let rest = climb(parent, s, p, (fuel - 1) as nat);
        assert(c == seq![g] + rest);
        assert forall|k: int| 0 <= k < c.len() - 1 implies adj[c[k + 1] as int]@.contains(#[trigger] c[k]) by {
            if k > 0 {
                assert(c[k] == rest[k - 1]);
                assert(c[k + 1] == rest[k]);
            }
        }
    }
}

proof fn lemma_climb_length(nodes: Seq<Point>, parent: Seq<usize>, s: usize, g: usize, fuel: nat)
    ensures
        climb_length(nodes, parent, s, g, fuel) == walk_length(nodes, climb(parent, s, g, fuel).reverse()),
    decreases fuel,
{
    let c = climb(parent, s, g, fuel);
    if g == s || fuel == 0 {
        assert(c.reverse() =~= seq![g]);
    } else {
        let p = parent[g as int];
        lemma_climb_length(nodes, parent, s, p, (fuel - 1) as nat);
        let rest = climb(parent, s, p, (fuel - 1) as nat);
        assert(c == seq![g] + rest);
        let r = c.reverse();
        assert(r.drop_last() =~= rest.reverse());
        assert(r[r.len() - 1] == g);
        assert(r[r.len() - 2] == rest[0]);
        lemma_dist_symmetric(nodes[g as int], nodes[p as int]);
    }
}

proof fn lemma_walk_discovered(
    adj: Seq<Vec<usize>>,
    order: Seq<usize>,
    w: Seq<usize>,
    k: int,
)
    requires
        adjacency_wf(adj, adj.len()),
        explored_closed(adj, order, order.len() as int),
        forall|i: int| 0 <= i < order.len() ==> #[trigger] order[i] < adj.len(),
        is_walk(adj, w),
        order.contains(w[0]),
        0 <= k < w.len(),
    ensures
        order.contains(w[k]),
    decreases k,
{
    if k > 0 {
        lemma_walk_discovered(adj, order, w, k - 1);
        let i = choose|i: int| 0 <= i < order.len() && order[i] == w[k - 1];
        let j = k - 1;
        assert(adj[w[j] as int]@.contains(w[j + 1]));
        let nbrs = adj[w[k - 1] as int]@;
        assert(nbrs.contains(w[k]));
        let m = choose|m: int| 0 <= m < nbrs.len() && nbrs[m] == w[k];
        assert(adj[order[i] as int]@[m] == w[k]);
    }
}

proof fn lemma_discovered_route(nodes: Seq<Point>, adj: Seq<Vec<usize>>, s: usize, g: usize)
    requires
        adjacency_wf(adj, nodes.len()),
        nodes.len() <= usize::MAX,
        s < nodes.len(),
        bfs(adj, s, adj.len()).0.contains(g),
    ensures
        ({
            let st = bfs(adj, s, adj.len());
            let path = climb(st.1, s, g, adj.len()).reverse();
            &&& is_walk(adj, path)
            &&& path[0] == s
            &&& path.last() == g
            &&& climb_length(nodes, st.1, s, g, adj.len()) == walk_length(nodes, path)
            &&& reachable(adj, s, g)
        }),
{
    let n = adj.len();
    let st = bfs(adj, s, n);
    lemma_bfs_tree(adj, s, n);
    let i = choose|i: int| 0 <= i < st.0.len() && st.0[i] == g;
    assert(st.0.len() <= n) by {
        lemma_distinct_below(st.0, n as usize);
    }
    lemma_climb(adj, s, st, i, n);
    lemma_climb_length(nodes, st.1, s, g, n);
    let c = climb(st.1, s, g, n);
    let path = c.reverse();
    assert forall|k: int| 0 <= k < path.len() - 1 implies adj[path[k] as int]@.contains(
        #[trigger] path[k + 1],
    ) by {
        let q = c.len() - 2 - k;
        assert(path[k] == c[q + 1]);
        assert(path[k + 1] == c[q]);
    }
    assert(path[0] == c[c.len() - 1]);
    assert(path[path.len() - 1] == c[0]);
    assert(is_walk(adj, path));
}

/// A search state with the depth of each node in the search tree.
type LeveledState = (Seq<usize>, Seq<usize>, Seq<nat>);

/// `visit`, also recording that each newly discovered node lies one level
/// below `v`.
spec fn visit_leveled(nbrs: Seq<usize>, v: usize, k: int, st: LeveledState) -> LeveledState
    decreases k,
{
    if k <= 0 {
        st
    } else {
        let prev = visit_leveled(nbrs, v, k - 1, st);
        let w = nbrs[k - 1];
        if prev.0.contains(w) {
            prev
        } else {
            (prev.0.push(w), prev.1.update(w as int, v), prev.2.update(w as int, prev.2[v as int] + 1))
        }
    }
}

/// `bfs`, also recording depths.
spec fn bfs_leveled(adj: Seq<Vec<usize>>, s: usize, steps: nat) -> LeveledState
    decreases steps,
{
    if steps == 0 {
        (seq![s], Seq::new(adj.len(), |i: int| s), Seq::new(adj.len(), |i: int| 0nat))
    } else {
        let prev = bfs_leveled(adj, s, (steps - 1) as nat);
        let h = steps - 1;
        if h < prev.0.len() {
            let v = prev.0[h];
            visit_leveled(adj[v as int]@, v, adj[v as int]@.len() as int, prev)
        } else {
            prev
        }
    }
}

proof fn lemma_visit_leveled_projects(nbrs: Seq<usize>, v: usize, k: int, st: LeveledState)
    ensures
        ({
            let a = visit_leveled(nbrs, v, k, st);
            let b = visit(nbrs, v, k, (st.0, st.1));
            a.0 == b.0 && a.1 == b.1
        }),
    decreases k,
{
    if k > 0 {
        lemma_visit_leveled_projects(nbrs, v, k - 1, st);
    }
}

proof fn lemma_bfs_leveled_projects(adj: Seq<Vec<usize>>, s: usize, k: nat)
    ensures
        bfs_leveled(adj, s, k).0 == bfs(adj, s, k).0,
        bfs_leveled(adj, s, k).1 == bfs(adj, s, k).1,
    decreases k,
{
    if k > 0 {
        lemma_bfs_leveled_projects(adj, s, (k - 1) as nat);
        let prev = bfs_leveled(adj, s, (k - 1) as nat);
        let h = k - 1;
        if h < prev.0.len() {
            let v = prev.0[h];
            lemma_visit_leveled_projects(adj[v as int]@, v, adj[v as int]@.len() as int, prev);
        }
    }
}

/// The level structure of a search that has taken `h` nodes off the queue:
/// each discovered node lies one level below its parent, levels never
/// decrease along the queue and span at most two levels from the head on,
/// and each neighbour of a node already taken off the queue is discovered,
/// at most one level below that node.
#[verifier::opaque]
spec fn levels_wf(adj: Seq<Vec<usize>>, s: usize, st: LeveledState, h: int) -> bool {
    let order = st.0;
    let parent = st.1;
    let depth = st.2;
    &&& depth.len() == adj.len()
    &&& depth[s as int] == 0
    &&& forall|i: int|
        1 <= i < order.len() ==> #[trigger] depth[order[i] as int] == depth[parent[order[i] as int] as int] + 1
    &&& forall|i: int, j: int|
        0 <= i <= j < order.len() ==> depth[#[trigger] order[i] as int] <= depth[#[trigger] order[j] as int]
    &&& (h < order.len() ==> depth[order[order.len() - 1] as int] <= depth[order[h] as int] + 1)
    &&& forall|i: int, m: int|
        0 <= i < h && i < order.len() && 0 <= m < adj[order[i] as int]@.len() ==> {
            let y = #[trigger] adj[order[i] as int]@[m];
            order.contains(y) && depth[y as int] <= depth[order[i] as int] + 1
        }
}

proof fn lemma_visit_leveled(adj: Seq<Vec<usize>>, s: usize, st: LeveledState, h: int, k: int)
    requires
        adjacency_wf(adj, adj.len()),
        tree_wf(adj, s, (st.0, st.1)),
        levels_wf(adj, s, st, h),
        0 <= h < st.0.len(),
        0 <= k <= adj[st.0[h] as int]@.len(),
    ensures
        ({
            let v = st.0[h];
            let next = visit_leveled(adj[v as int]@, v, k, st);
            &&& tree_wf(adj, s, (next.0, next.1))
            &&& levels_wf(adj, s, next, h)
            &&& next.0.len() >= st.0.len()
            &&& next.2[v as int] == st.2[v as int]
            &&& forall|i: int| 0 <= i < st.0.len() ==> #[trigger] next.0[i] == st.0[i]
            &&& forall|m: int|
                0 <= m < k ==> {
                    let y = #[trigger] adj[v as int]@[m];
                    next.0.contains(y) && next.2[y as int] <= next.2[v as int] + 1
                }
        }),
    decreases k,
{
    reveal(levels_wf);
    let v = st.0[h];
    let nbrs = adj[v as int]@;
    lemma_visit_leveled_projects(nbrs, v, k, st);
    lemma_visit(adj, s, (st.0, st.1), h, k);
    if k > 0 {
        lemma_visit_leveled(adj, s, st, h, k - 1);
        lemma_visit_leveled_projects(nbrs, v, k - 1, st);
        lemma_visit(adj, s, (st.0, st.1), h, k - 1);
        let prev = visit_leveled(nbrs, v, k - 1, st);
        let w = nbrs[k - 1];
        let next = visit_leveled(nbrs, v, k, st);
        assert(w < adj.len());
        assert(prev.0[h] == v);
        if prev.0.contains(w) {
            assert(next == prev);
            let j = choose|j: int| 0 <= j < prev.0.len() && prev.0[j] == w;
            assert(prev.2[prev.0[j] as int] <= prev.2[prev.0[prev.0.len() - 1] as int]);
        } else {
            let len = prev.0.len() as int;
            let order = next.0;
            let parent = next.1;
            let depth = next.2;
            assert(next == (
                prev.0.push(w),
                prev.1.update(w as int, v),
                prev.2.update(w as int, prev.2[v as int] + 1),
            ));
            assert(v != w);
            assert(s != w) by {
                assert(prev.0[0] == s);
            }
            assert forall|x: int| 0 <= x < len implies #[trigger] depth[prev.0[x] as int] == prev.2[prev.0[x] as int] by {
                assert(prev.0[x] != w);
            }
            assert forall|i: int| 1 <= i < order.len() implies #[trigger] depth[order[i] as int]
                == depth[parent[order[i] as int] as int] + 1 by {
                if i < len {
                    assert(order[i] == prev.0[i]);
                    let p = prev.1[prev.0[i] as int];
                    assert(parent[order[i] as int] == p);
                    assert(prev.0.contains(p));
                    assert(p != w);
                }
            }
            assert forall|i: int, j: int| 0 <= i <= j < order.len() implies depth[#[trigger] order[i] as int]
                <= depth[#[trigger] order[j] as int] by {
                if j == len {
                    if i < len {
                        assert(order[i] == prev.0[i]);
                        assert(prev.2[prev.0[i] as int] <= prev.2[prev.0[len - 1] as int]);
                    }
                } else {
                    assert(order[i] == prev.0[i]);
                    assert(order[j] == prev.0[j]);
                }
            }
            assert forall|i: int, m: int|
                0 <= i < h && i < order.len() && 0 <= m < adj[order[i] as int]@.len() implies {
                let y = #[trigger] adj[order[i] as int]@[m];
                order.contains(y) && depth[y as int] <= depth[order[i] as int] + 1
            } by {
                assert(order[i] == prev.0[i]);
                let y = adj[order[i] as int]@[m];
                assert(prev.0.contains(y));
                let j = choose|j: int| 0 <= j < len && prev.0[j] == y;
                assert(order[j] == y);
            }
            assert forall|m: int| 0 <= m < k implies {
                let y = #[trigger] nbrs[m];
                next.0.contains(y) && next.2[y as int] <= next.2[v as int] + 1
            } by {
                if m < k - 1 {
                    let y = nbrs[m];
                    let j = choose|j: int| 0 <= j < len && prev.0[j] == y;
                    assert(order[j] == y);
                } else {
                    assert(order[len] == w);
                }
            }
            assert(order[h] == v);
        }
    }
}

/// Taking node `h` off the queue, once all its neighbours are discovered
/// at most one level below it, keeps the level structure.
proof fn lemma_level_advance(adj: Seq<Vec<usize>>, s: usize, st: LeveledState, h: int)
    requires
        levels_wf(adj, s, st, h),
        0 <= h < st.0.len(),
        forall|m: int|
            0 <= m < adj[st.0[h] as int]@.len() ==> {
                let y = #[trigger] adj[st.0[h] as int]@[m];
                st.0.contains(y) && st.2[y as int] <= st.2[st.0[h] as int] + 1
            },
    ensures
        levels_wf(adj, s, st, h + 1),
{
    reveal(levels_wf);
    if h + 1 < st.0.len() {
        assert(st.2[st.0[h] as int] <= st.2[st.0[h + 1] as int]);
    }
}

/// Past the end of the queue, taking another step changes nothing.
proof fn lemma_level_settled(adj: Seq<Vec<usize>>, s: usize, st: LeveledState, h: int)
    requires
        levels_wf(adj, s, st, h),
        h >= st.0.len(),
    ensures
        levels_wf(adj, s, st, h + 1),
{
    reveal(levels_wf);
}

proof fn lemma_bfs_levels(adj: Seq<Vec<usize>>, s: usize, k: nat)
    requires
        adjacency_wf(adj, adj.len()),
        s < adj.len(),
    ensures
        levels_wf(adj, s, bfs_leveled(adj, s, k), k as int),
    decreases k,
{
    if k > 0 {
        lemma_bfs_levels(adj, s, (k - 1) as nat);
        lemma_bfs_leveled_projects(adj, s, (k - 1) as nat);
        lemma_bfs_tree(adj, s, (k - 1) as nat);
        let prev = bfs_leveled(adj, s, (k - 1) as nat);
        let h = k - 1;
        if h < prev.0.len() {
            let v = prev.0[h];
            let st = visit_leveled(adj[v as int]@, v, adj[v as int]@.len() as int, prev);
            assert(bfs_leveled(adj, s, k) == st);
            lemma_visit_leveled(adj, s, prev, h, adj[v as int]@.len() as int);
            assert(st.0[h] == v);
            lemma_level_advance(adj, s, st, h);
        } else {
            assert(bfs_leveled(adj, s, k) == prev);
            lemma_level_settled(adj, s, prev, h);
        }
    } else {
        let st = bfs_leveled(adj, s, 0);
        assert(st.0 == seq![s]);
        reveal(levels_wf);
    }
}

/// Each node along a walk from the start is discovered no deeper than its
/// position on the walk.
proof fn lemma_walk_depth(
    adj: Seq<Vec<usize>>,
    s: usize,
    st: LeveledState,
    h: int,
    w: Seq<usize>,
    k: int,
)
    requires
        adjacency_wf(adj, adj.len()),
        levels_wf(adj, s, st, h),
        h >= st.0.len(),
        forall|i: int| 0 <= i < st.0.len() ==> #[trigger] st.0[i] < adj.len(),
        st.0.len() >= 1,
        st.0[0] == s,
        is_walk(adj, w),
        w[0] == s,
        0 <= k < w.len(),
    ensures
        st.0.contains(w[k]),
        st.2[w[k] as int] <= k,
    decreases k,
{
    reveal(levels_wf);
    if k == 0 {
        assert(st.0[0] == s);
    } else {
        lemma_walk_depth(adj, s, st, h, w, k - 1);
        let i = choose|i: int| 0 <= i < st.0.len() && st.0[i] == w[k - 1];
        let j = k - 1;
        assert(adj[w[j] as int]@.contains(w[j + 1]));
        let nbrs = adj[w[k - 1] as int]@;
        let m = choose|m: int| 0 <= m < nbrs.len() && nbrs[m] == w[k];
        assert(adj[st.0[i] as int]@[m] == w[k]);
    }
}

/// The route to the node discovered `i`-th has one more node than its depth.
proof fn lemma_climb_depth(
    adj: Seq<Vec<usize>>,
    s: usize,
    st: LeveledState,
    h: int,
    i: int,
    fuel: nat,
)
    requires
        tree_wf(adj, s, (st.0, st.1)),
        levels_wf(adj, s, st, h),
        0 <= i < st.0.len(),
        fuel >= i,
    ensures
        climb(st.1, s, st.0[i], fuel).len() == st.2[st.0[i] as int] + 1,
    decreases i,
{
    reveal(levels_wf);
    let g = st.0[i];
    if i > 0 {
        assert(g != s) by {
            assert(st.0[0] == s);
        }
        let p = st.1[g as int];
        let j = choose|j: int| 0 <= j < st.0.len() && st.0[j] == p;
        lemma_climb_depth(adj, s, st, h, j, (fuel - 1) as nat);
    }
}

/// A stored route has no more nodes than any walk between its two ends.
pub proof fn lemma_route_fewest_hops(
    nodes: Seq<Point>,
    adj: Seq<Vec<usize>>,
    s: usize,
    g: usize,
    w: Seq<usize>,
)
    requires
        adjacency_wf(adj, nodes.len()),
        nodes.len() <= usize::MAX,
        s < nodes.len(),
        g < nodes.len(),
        is_walk(adj, w),
        w[0] == s,
        w.last() == g,
    ensures
        path_entry(nodes, adj, s, g) matches Some(e) ==> e.1.len() <= w.len(),
{
    let n = adj.len();
    let st = bfs_leveled(adj, s, n);
    lemma_bfs_leveled_projects(adj, s, n);
    lemma_bfs_tree(adj, s, n);
    lemma_bfs_levels(adj, s, n);
    assert(st.0.len() <= n) by {
        lemma_distinct_below(st.0, n as usize);
    }
    lemma_walk_depth(adj, s, st, n as int, w, w.len() - 1);
    if s != g {
        let i = choose|i: int| 0 <= i < st.0.len() && st.0[i] == g;
        lemma_climb_depth(adj, s, st, n as int, i, n);
    }
}

/// A route is stored for two distinct nodes exactly when some walk joins
/// them. A stored route is a walk along visibility edges that starts at the
/// start node and ends at the goal node, and its length is the sum of the
/// lengths of its edges.
pub proof fn lemma_stored_route(nodes: Seq<Point>, adj: Seq<Vec<usize>>, s: usize, g: usize)
    requires
        adjacency_wf(adj, nodes.len()),
        nodes.len() <= usize::MAX,
        s < nodes.len(),
        g < nodes.len(),
        s != g,
    ensures
        path_entry(nodes, adj, s, g) is Some <==> reachable(adj, s, g),
        path_entry(nodes, adj, s, g) matches Some(e) ==> {
            &&& is_walk(adj, e.1)
            &&& e.1[0] == s
            &&& e.1.last() == g
            &&& e.0 == walk_length(nodes, e.1)
        },
{
    let n = adj.len();
    let st = bfs(adj, s, n);
    lemma_bfs_tree(adj, s, n);
    lemma_distinct_below(st.0, n as usize);
    if st.0.contains(g) {
        lemma_discovered_route(nodes, adj, s, g);
    }
    if reachable(adj, s, g) {
        let w = choose|w: Seq<usize>| is_walk(adj, w) && w[0] == s && w.last() == g;
        assert(st.0[0] == s);
        lemma_walk_discovered(adj, st.0, w, w.len() - 1);
    }
}

} // verus!
