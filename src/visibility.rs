use vstd::prelude::*;

use crate::paths::adjacency_wf;

verus! {

/// `sight` is a square table over `n` nodes: `sight[a][b]` tells whether a
/// ray cast from node `a` towards node `b` met no wall.
pub open spec fn sight_wf(sight: Seq<Vec<bool>>, n: nat) -> bool {
    &&& sight.len() == n
    &&& forall|a: int| 0 <= a < n ==> (#[trigger] sight[a])@.len() == n
}

/// Nodes `a` and `b` see each other: they differ, and the ray from either
/// one towards the other was unobstructed.
pub open spec fn clear_between(sight: Seq<Vec<bool>>, a: int, b: int) -> bool {
    a != b && (sight[a]@[b] || sight[b]@[a])
}

/// The neighbours of `a` among the nodes below `k`, in increasing order.
pub open spec fn visible_row(sight: Seq<Vec<bool>>, a: int, k: int) -> Seq<usize>
    decreases k,
{
    if k <= 0 {
        seq![]
    } else {
        let prev = visible_row(sight, a, k - 1);
        if clear_between(sight, a, k - 1) {
            prev.push((k - 1) as usize)
        } else {
            prev
        }
    }
}

/// Adjacency lists that form an undirected graph without self-loops.
pub open spec fn symmetric_graph(adj: Seq<Vec<usize>>, n: nat) -> bool {
    &&& adjacency_wf(adj, n)
    &&& forall|a: usize, b: usize|
        a < n && (#[trigger] adj[a as int]@.contains(b)) ==> b != a && adj[b as int]@.contains(a)
}

/// The visibility graph that `sight` describes over `n` nodes.
pub open spec fn visibility_graph(adj: Seq<Vec<usize>>, sight: Seq<Vec<bool>>, n: nat) -> bool {
    &&& adj.len() == n
    &&& forall|a: int| 0 <= a < n ==> (#[trigger] adj[a])@ == visible_row(sight, a, n as int)
}

proof fn lemma_visible_row(sight: Seq<Vec<bool>>, a: int, k: int)
    requires
        0 <= k <= usize::MAX,
    ensures
        forall|i: int|
            0 <= i < visible_row(sight, a, k).len() ==> (#[trigger] visible_row(sight, a, k)[i])
                < k,
        forall|b: usize|
            #[trigger] visible_row(sight, a, k).contains(b) <==> (b < k && clear_between(
                sight,
                a,
                b as int,
            )),
    decreases k,
{
    if k > 0 {
        lemma_visible_row(sight, a, k - 1);
        let prev = visible_row(sight, a, k - 1);
        let row = visible_row(sight, a, k);
        assert forall|b: usize| #[trigger] row.contains(b) <==> (b < k && clear_between(
            sight,
            a,
            b as int,
        )) by {
            if row.contains(b) {
                let i = choose|i: int| 0 <= i < row.len() && row[i] == b;
                if clear_between(sight, a, k - 1) {
                    assert(row == prev.push((k - 1) as usize));
                    if i < prev.len() {
                        assert(prev[i] == b);
                        assert(prev.contains(b));
                    }
                } else {
                    assert(row == prev);
                    assert(prev.contains(b));
                }
            }
            if b < k && clear_between(sight, a, b as int) {
                if b < k - 1 {
                    assert(prev.contains(b));
                    let i = choose|i: int| 0 <= i < prev.len() && prev[i] == b;
                    assert(row[i] == b);
                } else {
                    assert(row[row.len() - 1] == b);
                }
            }
        }
    }
}

/// A graph built from `sight` is undirected and has no self-loops.
pub proof fn lemma_visibility_graph_symmetric(
    adj: Seq<Vec<usize>>,
    sight: Seq<Vec<bool>>,
    n: nat,
)
    requires
        visibility_graph(adj, sight, n),
        n <= usize::MAX,
    ensures
        symmetric_graph(adj, n),
{
    assert forall|v: int, i: int| 0 <= v < n && 0 <= i < adj[v]@.len() implies #[trigger] adj[v]@[i]
        < n by {
        lemma_visible_row(sight, v, n as int);
    }
    assert forall|a: usize, b: usize| a < n && (#[trigger] adj[a as int]@.contains(b)) implies b
        != a && adj[b as int]@.contains(a) by {
        lemma_visible_row(sight, a as int, n as int);
        lemma_visible_row(sight, b as int, n as int);
        assert(visible_row(sight, a as int, n as int).contains(b));
        assert(visible_row(sight, b as int, n as int).contains(a));
    }
}

/// Builds the visibility graph: node `b` is listed among the neighbours of
/// node `a`, in increasing order, exactly when the two differ and a ray
/// between them in either direction met no wall.
pub fn build_visibility(sight: &Vec<Vec<bool>>) -> (adj: Vec<Vec<usize>>)
    requires
        sight_wf(sight@, sight.len() as nat),
    ensures
        visibility_graph(adj@, sight@, sight.len() as nat),
        symmetric_graph(adj@, sight.len() as nat),
{
    let n = sight.len();
    let mut adj: Vec<Vec<usize>> = Vec::new();
    let mut a: usize = 0;
    while a < n
        invariant
            n == sight.len(),
            sight_wf(sight@, n as nat),
            a <= n,
            adj@.len() == a,
            forall|i: int| 0 <= i < a ==> (#[trigger] adj@[i])@ == visible_row(sight@, i, n as int),
        decreases n - a,
    {
        let mut row: Vec<usize> = Vec::new();
        let mut b: usize = 0;
        while b < n
            invariant
                n == sight.len(),
                sight_wf(sight@, n as nat),
                a < n,
                b <= n,
                row@ == visible_row(sight@, a as int, b as int),
            decreases n - b,
        {
            if a != b && (sight[a][b] || sight[b][a]) {
                row.push(b);
            }
            b += 1;
        }
        adj.push(row);
        a += 1;
    }
    proof {
        lemma_visibility_graph_symmetric(adj@, sight@, n as nat);
    }
    adj
}

} // verus!
