use vstd::prelude::*;

use crate::geometry::{dist, dist_sq, lemma_dist_symmetric, Point};
use crate::route_facts::{
    is_walk, lemma_route_fewest_hops, lemma_stored_route, reachable, walk_length,
};
use crate::paths::{adjacency_wf, compute_all_pairs, entry_view, path_entry, route_table, PathEntry};
use crate::regions::{
    build_membership, lemma_membership_nodes, membership_wf, region_index, region_index_of, Region,
};
use crate::visibility::{build_visibility, sight_wf, symmetric_graph, visibility_graph};

verus! {

/// The navigation state of one level: the nodes and regions registered so
/// far, the structures derived from them by the one-time precompute pass,
/// and the region that holds the tracked player.
pub struct Pathfinder {
    /// Navigation nodes; a node is known by its index here.
    pub nodes: Vec<Point>,
    /// Regions, in registration order.
    pub regions: Vec<Region>,
    /// For each node, the nodes it sees, in increasing order.
    pub visible: Vec<Vec<usize>>,
    /// For each region, the nodes it owns, in increasing order.
    pub region_to_nodes: Vec<Vec<usize>>,
    /// For each node, the region that owns it.
    pub node_to_region: Vec<Option<usize>>,
    /// `paths[s][g]` holds the route from node `s` to node `g`, if one is known.
    pub paths: Vec<Vec<Option<PathEntry>>>,
    /// The region that held the player when last seen inside one.
    pub player_region: Option<usize>,
    /// The region the player was in before `player_region`.
    pub previous_region: Option<usize>,
    /// Whether the precompute pass has run since the last registration.
    pub precomputed: bool,
}

/// Visibility edges of a built pathfinder go both ways with equal length,
/// and no node is its own neighbour.
pub proof fn lemma_edges_symmetric(pf: &Pathfinder, a: usize, b: usize)
    requires
        pf.consistent(),
    ensures
        !pf.has_edge(a, a),
        pf.has_edge(a, b) ==> pf.has_edge(b, a) && dist(pf.nodes@[a as int], pf.nodes@[b as int])
            == dist(pf.nodes@[b as int], pf.nodes@[a as int]),
{
    lemma_dist_symmetric(pf.nodes@[a as int], pf.nodes@[b as int]);
}

/// In a built pathfinder, a route is stored between two distinct nodes
/// exactly when the visibility graph joins them. A stored route is a walk
/// along visibility edges from the start node to the goal node, no walk
/// between the two has fewer nodes, and its stored length is the sum of its
/// edge lengths (which need not be the least such sum).
pub proof fn lemma_stored_routes(pf: &Pathfinder, s: usize, g: usize)
    requires
        pf.consistent(),
        s < pf.nodes@.len(),
        g < pf.nodes@.len(),
        s != g,
    ensures
        pf.paths@[s as int]@[g as int] is Some <==> reachable(pf.visible@, s, g),
        pf.paths@[s as int]@[g as int] matches Some(e) ==> {
            &&& is_walk(pf.visible@, e.nodes@)
            &&& e.nodes@[0] == s
            &&& e.nodes@.last() == g
            &&& e.length == walk_length(pf.nodes@, e.nodes@)
            &&& forall|w: Seq<usize>|
                is_walk(pf.visible@, w) && w[0] == s && w.last() == g ==> e.nodes@.len()
                    <= w.len()
        },
{
    assert(pf.nodes@.len() == pf.nodes.len());
    lemma_stored_route(pf.nodes@, pf.visible@, s, g);
    assert forall|w: Seq<usize>|
        is_walk(pf.visible@, w) && w[0] == s && w.last() == g implies (
        pf.paths@[s as int]@[g as int] matches Some(e) ==> e.nodes@.len() <= w.len()) by {
        lemma_route_fewest_hops(pf.nodes@, pf.visible@, s, g, w);
    }
    assert(entry_view(pf.paths@[s as int]@[g as int]) == path_entry(pf.nodes@, pf.visible@, s, g));
}

/// `j` is the node of `list` nearest to `p`; among equally near nodes, the
/// one listed first.
pub open spec fn nearest_in(nodes: Seq<Point>, list: Seq<usize>, p: Point, j: usize) -> bool {
    exists|k: int|
        0 <= k < list.len() && list[k] == j && (forall|i: int|
            0 <= i < list.len() ==> dist_sq(nodes[j as int], p) <= dist_sq(
                nodes[#[trigger] list[i] as int],
                p,
            )) && (forall|i: int|
            0 <= i < k ==> dist_sq(nodes[#[trigger] list[i] as int], p) > dist_sq(
                nodes[j as int],
                p,
            ))
}

impl Pathfinder {
    /// Every node that a region lists is a registered node.
    pub open spec fn wf(&self) -> bool {
        forall|r: int, i: int|
            0 <= r < self.region_to_nodes@.len() && 0 <= i < self.region_to_nodes@[r]@.len()
                ==> #[trigger] self.region_to_nodes@[r]@[i] < self.nodes@.len()
    }

    /// The derived structures agree with the registered nodes and regions:
    /// an undirected visibility graph without self-loops, consistent region
    /// membership, and the route table of that graph.
    pub open spec fn consistent(&self) -> bool {
        let n = self.nodes@.len();
        &&& symmetric_graph(self.visible@, n)
        &&& membership_wf(self.regions@, self.nodes@, self.region_to_nodes@, self.node_to_region@)
        &&& route_table(self.paths@, self.nodes@, self.visible@)
    }

    /// Node `b` is a visibility neighbour of node `a`.
    pub open spec fn has_edge(&self, a: usize, b: usize) -> bool {
        a < self.visible@.len() && self.visible@[a as int]@.contains(b)
    }

    /// The route stored for `(s, g)`, empty where none is.
    pub open spec fn stored_path(&self, s: usize, g: usize) -> Seq<usize> {
        if s < self.paths@.len() && g < self.paths@[s as int]@.len() {
            match self.paths@[s as int]@[g as int] {
                Some(e) => e.nodes@,
                None => seq![],
            }
        } else {
            seq![]
        }
    }

    /// The nodes that region `r` lists, empty for an unknown region.
    pub open spec fn region_nodes(&self, r: Option<usize>) -> Seq<usize> {
        match r {
            Some(i) => if i < self.region_to_nodes@.len() {
                self.region_to_nodes@[i as int]@
            } else {
                seq![]
            },
            None => seq![],
        }
    }

    /// The fields that only player tracking changes.
    pub open spec fn same_navigation(&self, other: &Pathfinder) -> bool {
        &&& self.nodes == other.nodes
        &&& self.regions == other.regions
        &&& self.visible == other.visible
        &&& self.region_to_nodes == other.region_to_nodes
        &&& self.node_to_region == other.node_to_region
        &&& self.paths == other.paths
        &&& self.precomputed == other.precomputed
    }

    /// An empty pathfinder, not yet precomputed.
    pub fn new() -> (r: Pathfinder)
        ensures
            r.wf(),
            r.nodes@.len() == 0,
            r.regions@.len() == 0,
            r.visible@.len() == 0,
            r.region_to_nodes@.len() == 0,
            r.node_to_region@.len() == 0,
            r.paths@.len() == 0,
            r.player_region is None,
            r.previous_region is None,
            !r.precomputed,
    {
        Pathfinder {
            nodes: Vec::new(),
            regions: Vec::new(),
            visible: Vec::new(),
            region_to_nodes: Vec::new(),
            node_to_region: Vec::new(),
            paths: Vec::new(),
            player_region: None,
            previous_region: None,
            precomputed: false,
        }
    }

    /// Whether the precompute pass has run since the last registration, so
    /// that query results can be trusted.
    pub fn is_built(&self) -> (r: bool)
        ensures
            r == self.precomputed,
    {
        self.precomputed
    }

    /// Registers more nodes and regions after those already known. Any
    /// registration makes the derived structures stale, so the next
    /// precompute pass rebuilds them.
    pub fn add_nodes_and_regions(&mut self, nodes: Vec<Point>, regions: Vec<Region>)
        requires
            old(self).wf(),
        ensures
            final(self).wf(),
            final(self).nodes@ == old(self).nodes@ + nodes@,
            final(self).regions@ == old(self).regions@ + regions@,
            final(self).precomputed == (old(self).precomputed && nodes@.len() == 0
                && regions@.len() == 0),
            final(self).visible == old(self).visible,
            final(self).region_to_nodes == old(self).region_to_nodes,
            final(self).node_to_region == old(self).node_to_region,
            final(self).paths == old(self).paths,
            final(self).player_region == old(self).player_region,
            final(self).previous_region == old(self).previous_region,
    {
        let mut nodes = nodes;
        let mut regions = regions;
        if nodes.len() > 0 || regions.len() > 0 {
            self.precomputed = false;
        }
        self.nodes.append(&mut nodes);
        self.regions.append(&mut regions);
    }

    /// Rebuilds the visibility graph from the line-of-sight answers in
    /// `sight`, where `sight[a][b]` tells whether a ray from node `a`
    /// towards node `b` met no wall.
    pub fn compute_visibility(&mut self, sight: &Vec<Vec<bool>>)
        requires
            sight_wf(sight@, old(self).nodes@.len()),
        ensures
            visibility_graph(final(self).visible@, sight@, old(self).nodes@.len()),
            symmetric_graph(final(self).visible@, old(self).nodes@.len()),
            final(self).nodes == old(self).nodes,
            final(self).regions == old(self).regions,
            final(self).region_to_nodes == old(self).region_to_nodes,
            final(self).node_to_region == old(self).node_to_region,
            final(self).paths == old(self).paths,
            final(self).player_region == old(self).player_region,
            final(self).previous_region == old(self).previous_region,
            final(self).precomputed == old(self).precomputed,
    {
        self.visible = build_visibility(sight);
    }

    /// Rebuilds the region membership tables from the nodes and regions.
    pub fn compute_regions(&mut self)
        ensures
            final(self).wf(),
            membership_wf(
                final(self).regions@,
                final(self).nodes@,
                final(self).region_to_nodes@,
                final(self).node_to_region@,
            ),
            final(self).nodes == old(self).nodes,
            final(self).regions == old(self).regions,
            final(self).visible == old(self).visible,
            final(self).paths == old(self).paths,
            final(self).player_region == old(self).player_region,
            final(self).previous_region == old(self).previous_region,
            final(self).precomputed == old(self).precomputed,
    {
        let (region_to_nodes, node_to_region) = build_membership(&self.regions, &self.nodes);
        self.region_to_nodes = region_to_nodes;
        self.node_to_region = node_to_region;
        proof {
            assert(self.nodes@.len() == self.nodes.len());
            lemma_membership_nodes(
                self.regions@,
                self.nodes@,
                self.region_to_nodes@,
                self.node_to_region@,
            );
        }
    }

    /// Rebuilds the route table over the current visibility graph.
    pub fn compute_paths(&mut self)
        requires
            adjacency_wf(old(self).visible@, old(self).nodes@.len()),
        ensures
            route_table(final(self).paths@, old(self).nodes@, old(self).visible@),
            final(self).nodes == old(self).nodes,
            final(self).regions == old(self).regions,
            final(self).visible == old(self).visible,
            final(self).region_to_nodes == old(self).region_to_nodes,
            final(self).node_to_region == old(self).node_to_region,
            final(self).player_region == old(self).player_region,
            final(self).previous_region == old(self).previous_region,
            final(self).precomputed == old(self).precomputed,
    {
        self.paths = compute_all_pairs(&self.nodes, &self.visible);
    }

    /// The route from node `start` to node `goal`: the node indices to
    /// follow, both ends included. Empty where no route is known.
    pub fn get_path(&self, start: usize, goal: usize) -> (r: &[usize])
        ensures
            r@ == self.stored_path(start, goal),
            self.consistent() && start < self.nodes@.len() && goal < self.nodes@.len() ==> r@
                == match path_entry(self.nodes@, self.visible@, start, goal) {
                Some(e) => e.1,
                None => seq![],
            },
    {
        if start < self.paths.len() && goal < self.paths[start].len() {
            match &self.paths[start][goal] {
                Some(entry) => entry.nodes.as_slice(),
                None => &[],
            }
        } else {
            &[]
        }
    }

    /// The one-time precompute pass: builds the visibility graph from
    /// `sight`, then region membership, then the route table, and marks the
    /// pathfinder as built. Once built, further calls change nothing.
    pub fn precompute(&mut self, sight: &Vec<Vec<bool>>)
        requires
            old(self).wf(),
            !old(self).precomputed ==> sight_wf(sight@, old(self).nodes@.len()),
        ensures
            final(self).wf(),
            old(self).precomputed ==> *final(self) == *old(self),
            !old(self).precomputed ==> {
                &&& final(self).precomputed
                &&& final(self).consistent()
                &&& visibility_graph(final(self).visible@, sight@, old(self).nodes@.len())
                &&& final(self).nodes == old(self).nodes
                &&& final(self).regions == old(self).regions
                &&& final(self).player_region == old(self).player_region
                &&& final(self).previous_region == old(self).previous_region
            },
    {
        if !self.precomputed {
            self.compute_visibility(sight);
            self.compute_regions();
            self.compute_paths();
            self.precomputed = true;
        }
    }
}

impl Default for Pathfinder {
    fn default() -> (r: Pathfinder)
        ensures
            r.wf(),
            r.nodes@.len() == 0,
            r.regions@.len() == 0,
            r.player_region is None,
            !r.precomputed,
    {
        Pathfinder::new()
    }
}

impl Pathfinder {
    /// The edge length between nodes `a` and `b`, if they see each other.
    pub fn edge_distance(&self, a: usize, b: usize) -> (r: Option<u64>)
        ensures
            r == if self.has_edge(a, b) && a < self.nodes@.len() && b < self.nodes@.len() {
                Some(dist(self.nodes@[a as int], self.nodes@[b as int]) as u64)
            } else {
                None
            },
    {
        if a >= self.visible.len() || a >= self.nodes.len() || b >= self.nodes.len() {
            return None;
        }
        let row = &self.visible[a];
        let mut i: usize = 0;
        while i < row.len()
            invariant
                a < self.visible@.len(),
                a < self.nodes@.len(),
                b < self.nodes@.len(),
                row@ == self.visible@[a as int]@,
                i <= row.len(),
                forall|j: int| 0 <= j < i ==> row@[j] != b,
            decreases row.len() - i,
        {
            if row[i] == b {
                assert(row@.contains(b));
                return Some(self.nodes[a].distance(&self.nodes[b]));
            }
            i += 1;
        }
        None
    }

    /// The index of the first region, in registration order, that holds `p`.
    pub fn get_region_index(&self, p: Point) -> (r: Option<usize>)
        ensures
            r == region_index_of(self.regions@, p),
    {
        region_index(&self.regions, p)
    }

    /// The first region, in registration order, that holds `p`.
    pub fn get_region(&self, p: Point) -> (r: Option<&Region>)
        ensures
            match region_index_of(self.regions@, p) {
                Some(i) => r == Some(&self.regions@[i as int]),
                None => r is None,
            },
    {
        match region_index(&self.regions, p) {
            Some(i) => Some(&self.regions[i]),
            None => None,
        }
    }

    /// The node nearest to `p` among those of the region that holds `p`.
    /// `None` where no region holds `p` or that region has no nodes.
    pub fn closest_node(&self, p: Point) -> (r: Option<usize>)
        requires
            self.wf(),
        ensures
            ({
                let list = self.region_nodes(region_index_of(self.regions@, p));
                match r {
                    Some(j) => nearest_in(self.nodes@, list, p, j),
                    None => list.len() == 0,
                }
            }),
    {
        let region = match region_index(&self.regions, p) {
            Some(i) => i,
            None => return None,
        };
        if region >= self.region_to_nodes.len() {
            return None;
        }
        let list = &self.region_to_nodes[region];
        if list.len() == 0 {
            return None;
        }
        let mut best_at: usize = 0;
        let mut best = self.nodes[list[0]].distance_squared(&p);
        let mut i: usize = 1;
        while i < list.len()
            invariant
                self.wf(),
                region < self.region_to_nodes@.len(),
                list@ == self.region_to_nodes@[region as int]@,
                1 <= i <= list.len(),
                best_at < i,
                best == dist_sq(self.nodes@[list@[best_at as int] as int], p),
                forall|j: int|
                    0 <= j < i ==> best <= dist_sq(self.nodes@[#[trigger] list@[j] as int], p),
                forall|j: int|
                    0 <= j < best_at ==> best < dist_sq(self.nodes@[#[trigger] list@[j] as int], p),
            decreases list.len() - i,
        {
            assert(list@[i as int] < self.nodes@.len());
            let d = self.nodes[list[i]].distance_squared(&p);
            if d < best {
                best = d;
                best_at = i;
            }
            i += 1;
        }
        let j = list[best_at];
        assert(nearest_in(self.nodes@, list@, p, j)) by {
            assert(list@[best_at as int] == j);
        }
        Some(j)
    }

    /// The nodes that region `region` owns, in increasing order; empty for
    /// an unknown region.
    pub fn nodes_in_region(&self, region: usize) -> (r: &[usize])
        ensures
            r@ == self.region_nodes(Some(region)),
    {
        if region < self.region_to_nodes.len() {
            self.region_to_nodes[region].as_slice()
        } else {
            &[]
        }
    }

    /// The nodes of the region that currently holds the player; empty where
    /// that region is unknown.
    pub fn nodes_in_player_region(&self) -> (r: &[usize])
        ensures
            r@ == self.region_nodes(self.player_region),
    {
        match self.player_region {
            Some(i) => if i < self.region_to_nodes.len() {
                self.region_to_nodes[i].as_slice()
            } else {
                &[]
            },
            None => &[],
        }
    }

    /// Updates the player's region from the player's position, once per
    /// frame. Outside every region the last known region is kept.
    pub fn track_player_region(&mut self, player: Point)
        ensures
            final(self).same_navigation(old(self)),
            match region_index_of(old(self).regions@, player) {
                None => final(self).player_region == old(self).player_region
                    && final(self).previous_region == old(self).previous_region,
                Some(r) => final(self).player_region == Some(r) && final(self).previous_region
                    == match old(self).player_region {
                    Some(i) => if i != r {
                        Some(i)
                    } else {
                        old(self).previous_region
                    },
                    None => old(self).previous_region,
                },
            },
    {
        let current = match region_index(&self.regions, player) {
            Some(r) => r,
            None => return ,
        };
        match self.player_region {
            Some(i) => {
                if i != current {
                    self.previous_region = Some(i);
                    self.player_region = Some(current);
                }
            },
            None => {
                self.player_region = Some(current);
            },
        }
    }
}

} // verus!
