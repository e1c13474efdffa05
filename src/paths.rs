use vstd::prelude::*;

use crate::geometry::{dist, Point};

verus! {

/// A cached route between two nodes: its summed edge length and the node
/// indices to follow, start and goal included.
pub struct PathEntry {
    pub length: u128,
    pub nodes: Vec<usize>,
}

impl View for PathEntry {
    type V = (nat, Seq<usize>);

    open spec fn view(&self) -> (nat, Seq<usize>) {
        (self.length as nat, self.nodes@)
    }
}

/// The abstract value of a table cell: `None` where no path is known.
pub open spec fn entry_view(e: Option<PathEntry>) -> Option<(nat, Seq<usize>)> {
    match e {
        Some(p) => Some(p@),
        None => None,
    }
}

/// Adjacency lists over `n` nodes that name only nodes below `n`.
pub open spec fn adjacency_wf(adj: Seq<Vec<usize>>, n: nat) -> bool {
    &&& adj.len() == n
    &&& forall|v: int, i: int|
        0 <= v < n && 0 <= i < adj[v]@.len() ==> #[trigger] adj[v]@[i] < n
}

/// A breadth-first search state: the nodes in the order they were discovered
/// (which is also the queue), and the parent through which each was reached.
/// Nodes not reached yet have the start node as parent.
pub type BfsState = (Seq<usize>, Seq<usize>);

/// The state after looking at the first `k` neighbours `nbrs` of node `v`:
/// each one not discovered yet is appended, with `v` as its parent.
pub open spec fn visit(nbrs: Seq<usize>, v: usize, k: int, st: BfsState) -> BfsState
    decreases k,
{
    if k <= 0 {
        st
    } else {
        let prev = visit(nbrs, v, k - 1, st);
        let w = nbrs[k - 1];
        if prev.0.contains(w) {
            prev
        } else {
            (prev.0.push(w), prev.1.update(w as int, v))
        }
    }
}

/// The state of a search from `s` over `adj` after `steps` nodes were taken off the queue.
pub open spec fn bfs(adj: Seq<Vec<usize>>, s: usize, steps: nat) -> BfsState
    decreases steps,
{
    if steps == 0 {
        (seq![s], Seq::new(adj.len(), |i: int| s))
    } else {
        let prev = bfs(adj, s, (steps - 1) as nat);
        let h = steps - 1;
        if h < prev.0.len() {
            let v = prev.0[h];
            visit(adj[v as int]@, v, adj[v as int]@.len() as int, prev)
        } else {
            prev
        }
    }
}

/// The chain of parents from `g` towards `s`, `g` first, following at most `fuel` links.
pub open spec fn climb(parent: Seq<usize>, s: usize, g: usize, fuel: nat) -> Seq<usize>
    decreases fuel,
{
    if g == s || fuel == 0 {
        seq![g]
    } else {
        seq![g] + climb(parent, s, parent[g as int], (fuel - 1) as nat)
    }
}

/// The summed edge length along `climb(parent, s, g, fuel)`.
pub open spec fn climb_length(
    nodes: Seq<Point>,
    parent: Seq<usize>,
    s: usize,
    g: usize,
    fuel: nat,
) -> nat
    decreases fuel,
{
    if g == s || fuel == 0 {
        0
    } else {
        let p = parent[g as int];
        dist(nodes[g as int], nodes[p as int]) + climb_length(nodes, parent, s, p, (fuel - 1) as nat)
    }
}

/// The table entry for the pair `(s, g)`: the route along the breadth-first
/// search tree rooted at `s`, if the search discovers `g` and `g` differs from `s`.
pub open spec fn path_entry(nodes: Seq<Point>, adj: Seq<Vec<usize>>, s: usize, g: usize) -> Option<
    (nat, Seq<usize>),
> {
    let n = adj.len();
    let st = bfs(adj, s, n);
    if s != g && st.0.contains(g) {
        Some((climb_length(nodes, st.1, s, g, n), climb(st.1, s, g, n).reverse()))
    } else {
        None
    }
}

/// `table` is the route table of the graph `adj` over `nodes`: one row per
/// start node, one cell per goal node, each cell holding `path_entry`.
pub open spec fn route_table(
    table: Seq<Vec<Option<PathEntry>>>,
    nodes: Seq<Point>,
    adj: Seq<Vec<usize>>,
) -> bool {
    let n = nodes.len();
    &&& table.len() == n
    &&& forall|s: int| 0 <= s < n ==> (#[trigger] table[s])@.len() == n
    &&& forall|s: int, g: int|
        0 <= s < n && 0 <= g < n ==> entry_view(#[trigger] table[s]@[g]) == path_entry(
            nodes,
            adj,
            s as usize,
            g as usize,
        )
}

/// Computing the route table twice over the same nodes and graph gives the
/// same table.
pub proof fn lemma_route_table_deterministic(
    t1: Seq<Vec<Option<PathEntry>>>,
    t2: Seq<Vec<Option<PathEntry>>>,
    nodes: Seq<Point>,
    adj: Seq<Vec<usize>>,
)
    requires
        route_table(t1, nodes, adj),
        route_table(t2, nodes, adj),
    ensures
        t1.len() == t2.len(),
        forall|s: int| 0 <= s < t1.len() ==> (#[trigger] t1[s])@.len() == t2[s]@.len(),
        forall|s: int, g: int|
            0 <= s < t1.len() && 0 <= g < t1[s]@.len() ==> entry_view(#[trigger] t1[s]@[g])
                == entry_view(t2[s]@[g]),
{
}

/// A distinct sequence of indices below `n` has at most `n` elements.
pub(crate) proof fn lemma_distinct_below(s: Seq<usize>, n: usize)
    requires
        s.no_duplicates(),
        forall|i: int| 0 <= i < s.len() ==> s[i] < n,
    ensures
        s.len() <= n,
{
    s.unique_seq_to_set();
    let range = <usize as vstd::set_lib::FiniteRange>::range_set(0, n);
    <usize as vstd::set_lib::FiniteRange>::range_properties(0, n);
    assert(s.to_set().subset_of(range)) by {
        assert forall|x: usize| s.to_set().contains(x) implies range.contains(x) by {
            let i = choose|i: int| 0 <= i < s.len() && s[i] == x;
        }
    }
    vstd::set_lib::lemma_len_subset(s.to_set(), range);
}

/// Once the queue is empty the search state no longer changes.
proof fn lemma_bfs_settled(adj: Seq<Vec<usize>>, s: usize, k: nat, m: nat)
    requires
        k <= m,
        bfs(adj, s, k).0.len() <= k,
    ensures
        bfs(adj, s, m) == bfs(adj, s, k),
    decreases m - k,
{
    if k < m {
        lemma_bfs_settled(adj, s, k, (m - 1) as nat);
    }
}

/// Breadth-first search from `s`. Returns the discovery order, the parent of
/// each node, and for each node whether it was discovered.
fn bfs_tree(adj: &Vec<Vec<usize>>, s: usize) -> (res: (Vec<usize>, Vec<usize>, Vec<bool>))
    requires
        adjacency_wf(adj@, adj.len() as nat),
        s < adj.len(),
    ensures
        (res.0@, res.1@) == bfs(adj@, s, adj.len() as nat),
        res.1@.len() == adj.len(),
        res.2@.len() == adj.len(),
        forall|w: int| 0 <= w < adj.len() ==> res.2@[w] == res.0@.contains(w as usize),
        forall|w: int| 0 <= w < adj.len() ==> #[trigger] res.1@[w] < adj.len(),
{
    let n = adj.len();
    let mut seen: Vec<bool> = vec![false; n];
    seen.set(s, true);
    let mut order: Vec<usize> = vec![s];
    let mut parent: Vec<usize> = vec![s; n];
    let mut head: usize = 0;
    assert(parent@ == Seq::new(n as nat, |i: int| s));
    while head < order.len()
        invariant
            n == adj.len(),
            adjacency_wf(adj@, n as nat),
            s < n,
            (order@, parent@) == bfs(adj@, s, head as nat),
            head <= order.len() <= n,
            seen@.len() == n,
            parent@.len() == n,
            forall|w: int| 0 <= w < n ==> seen@[w] == order@.contains(w as usize),
            forall|i: int| 0 <= i < order.len() ==> order@[i] < n,
            forall|w: int| 0 <= w < n ==> #[trigger] parent@[w] < n,
            order@.no_duplicates(),
        decreases n - head,
    {
        let v = order[head];
        let nbrs = &adj[v];
        let ghost before: BfsState = (order@, parent@);
        let mut k: usize = 0;
        while k < nbrs.len()
            invariant
                n == adj.len(),
                adjacency_wf(adj@, n as nat),
                v < n,
                nbrs@ == adj@[v as int]@,
                k <= nbrs.len(),
                (order@, parent@) == visit(nbrs@, v, k as int, before),
                head < order.len() <= n,
                seen@.len() == n,
                parent@.len() == n,
                forall|w: int| 0 <= w < n ==> seen@[w] == order@.contains(w as usize),
                forall|i: int| 0 <= i < order.len() ==> order@[i] < n,
                forall|w: int| 0 <= w < n ==> #[trigger] parent@[w] < n,
                order@.no_duplicates(),
            decreases nbrs.len() - k,
        {
            let w = nbrs[k];
            assert(adj@[v as int]@[k as int] < n);
            if !seen[w] {
                let ghost old_order = order@;
                let ghost old_seen = seen@;
                seen.set(w, true);
                parent.set(w, v);
                order.push(w);
                proof {
                    assert forall|x: int| 0 <= x < n implies seen@[x] == order@.contains(
                        x as usize,
                    ) by {
                        if x != w {
                            assert(old_seen[x] == old_order.contains(x as usize));
                            assert(order@ == old_order.push(w));
                            if order@.contains(x as usize) {
                                let i = choose|i: int|
                                    0 <= i < order.len() && order@[i] == x as usize;
                                assert(old_order[i] == x as usize);
                            }
                            if old_order.contains(x as usize) {
                                let i = choose|i: int|
                                    0 <= i < old_order.len() && old_order[i] == x as usize;
                                assert(order@[i] == x as usize);
                            }
                        } else {
                            assert(order@[order.len() - 1] == w);
                        }
                    }
                    lemma_distinct_below(order@, n);
                }
            } else {
                assert(order@.contains(w));
            }
            k += 1;
        }
        head += 1;
    }
    proof {
        lemma_bfs_settled(adj@, s, head as nat, n as nat);
    }
    (order, parent, seen)
}

/// Walks the parent links from `g` back to `s` and returns the route from
/// `s` to `g` with its summed edge length.
fn trace_route(nodes: &Vec<Point>, parent: &Vec<usize>, s: usize, g: usize) -> (r: PathEntry)
    requires
        parent.len() == nodes.len(),
        s < nodes.len(),
        g < nodes.len(),
        forall|w: int| 0 <= w < parent.len() ==> #[trigger] parent@[w] < parent.len(),
    ensures
        r@ == (
            climb_length(nodes@, parent@, s, g, nodes.len() as nat),
            climb(parent@, s, g, nodes.len() as nat).reverse(),
        ),
{
    let n = nodes.len();
    let mut rev: Vec<usize> = vec![g];
    let mut cur = g;
    let mut fuel = n;
    let mut length: u128 = 0;
    while cur != s && fuel > 0
        invariant
            n == nodes.len(),
            parent.len() == n,
            forall|w: int| 0 <= w < n ==> #[trigger] parent@[w] < n,
            cur < n,
            fuel <= n,
            rev@.len() > 0,
            rev@.last() == cur,
            climb(parent@, s, g, n as nat) == rev@.drop_last() + climb(
                parent@,
                s,
                cur,
                fuel as nat,
            ),
            length + climb_length(nodes@, parent@, s, cur, fuel as nat) == climb_length(
                nodes@,
                parent@,
                s,
                g,
                n as nat,
            ),
            length <= (n - fuel) * 0x2_0000_0000,
        decreases fuel,
    {
        let p = parent[cur];
        let d = nodes[cur].distance(&nodes[p]);
        let ghost old_rev = rev@;
        length = length + d as u128;
        rev.push(p);
        proof {
            assert(climb(parent@, s, cur, fuel as nat) == seq![cur] + climb(
                parent@,
                s,
                p,
                (fuel - 1) as nat,
            ));
            assert(rev@.drop_last() =~= old_rev.drop_last() + seq![cur]);
            assert(rev@.drop_last() + climb(parent@, s, p, (fuel - 1) as nat) =~= old_rev.drop_last()
                + climb(parent@, s, cur, fuel as nat));
        }
        cur = p;
        fuel -= 1;
    }
    assert(rev@ =~= rev@.drop_last() + seq![cur]);
    let mut path: Vec<usize> = Vec::new();
    let mut i = rev.len();
    while i > 0
        invariant
            i <= rev.len(),
            path@.len() == rev.len() - i,
            forall|j: int| 0 <= j < path@.len() ==> path@[j] == rev@[rev.len() - 1 - j],
        decreases i,
    {
        i -= 1;
        path.push(rev[i]);
    }
    assert(path@ =~= rev@.reverse());
    PathEntry { length, nodes: path }
}

/// Computes the route table between every ordered pair of distinct nodes.
///
/// For each start node a breadth-first search runs over the visibility
/// graph, taking neighbours in list order; the route to each discovered goal
/// follows the search tree. The search orders nodes by hop count, not by
/// summed length, so a route has the fewest hops but is not always the
/// shortest by length. Cells of pairs with no route hold `None`.
pub fn compute_all_pairs(nodes: &Vec<Point>, adj: &Vec<Vec<usize>>) -> (table: Vec<
    Vec<Option<PathEntry>>,
>)
    requires
        adjacency_wf(adj@, nodes.len() as nat),
    ensures
        route_table(table@, nodes@, adj@),
{
    let n = nodes.len();
    let mut table: Vec<Vec<Option<PathEntry>>> = Vec::new();
    let mut s: usize = 0;
    while s < n
        invariant
            n == nodes.len(),
            adjacency_wf(adj@, n as nat),
            s <= n,
            table@.len() == s,
            forall|a: int| 0 <= a < s ==> (#[trigger] table@[a])@.len() == n,
            forall|a: int, g: int|
                0 <= a < s && 0 <= g < n ==> entry_view(#[trigger] table@[a]@[g]) == path_entry(
                    nodes@,
                    adj@,
                    a as usize,
                    g as usize,
                ),
        decreases n - s,
    {
        let (order, parent, seen) = bfs_tree(adj, s);
        let mut row: Vec<Option<PathEntry>> = Vec::new();
        let mut g: usize = 0;
        while g < n
            invariant
                n == nodes.len(),
                adjacency_wf(adj@, n as nat),
                s < n,
                g <= n,
                (order@, parent@) == bfs(adj@, s, n as nat),
                parent@.len() == n,
                seen@.len() == n,
                forall|w: int| 0 <= w < n ==> seen@[w] == order@.contains(w as usize),
                forall|w: int| 0 <= w < n ==> #[trigger] parent@[w] < n,
                row@.len() == g,
                forall|b: int|
                    0 <= b < g ==> entry_view(#[trigger] row@[b]) == path_entry(
                        nodes@,
                        adj@,
                        s,
                        b as usize,
                    ),
            decreases n - g,
        {
            if g != s && seen[g] {
                let entry = trace_route(nodes, &parent, s, g);
                row.push(Some(entry));
            } else {
                row.push(None);
            }
            g += 1;
        }
        table.push(row);
        s += 1;
    }
    table
}

} // verus!
