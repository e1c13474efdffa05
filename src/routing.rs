use vstd::prelude::*;

use crate::geometry::Point;
use crate::pathfinder::{nearest_in, Pathfinder};
use crate::regions::region_index_of;

verus! {

/// Where an agent heads this tick.
#[derive(Clone, Copy, Debug, PartialEq, Eq, Structural)]
pub enum Steering {
    /// Straight at its target, which it sees.
    Target,
    /// At this navigation node.
    Node(usize),
    /// Nowhere: routing failed this tick.
    Idle,
}

/// Picks the goal node for an agent among `count` candidates: a stable,
/// pseudo-random choice that needs no state shared between agents.
pub fn goal_node_index(agent_index: u32, count: usize) -> (r: usize)
    requires
        count > 0,
    ensures
        r == agent_index as int % count as int,
        r < count,
{
    (agent_index as usize) % count
}

/// The route that an agent at `agent` would follow towards the player's
/// region: the goal is the player-region node picked by `goal_node_index`,
/// the start is the node nearest to the agent.
pub open spec fn planned_route(pf: &Pathfinder, agent: Point, agent_index: u32, route: Seq<usize>) -> bool {
    let goals = pf.region_nodes(pf.player_region);
    let starts = pf.region_nodes(region_index_of(pf.regions@, agent));
    if goals.len() == 0 || starts.len() == 0 {
        route.len() == 0
    } else {
        let goal = goals[agent_index as int % goals.len() as int];
        exists|start: usize|
            nearest_in(pf.nodes@, starts, agent, start) && route == pf.stored_path(start, goal)
    }
}

/// The navigation node to steer at: the last node of `route` that the agent
/// sees, so that it skips corners it can already cut. `in_sight[k]` tells
/// whether the agent sees `route[k]`.
pub fn pick_waypoint(route: &[usize], in_sight: &[bool]) -> (r: Option<usize>)
    requires
        route@.len() == in_sight@.len(),
    ensures
        match r {
            Some(node) => exists|k: int|
                0 <= k < route@.len() && route@[k] == node && in_sight@[k] && forall|j: int|
                    k < j < route@.len() ==> !#[trigger] in_sight@[j],
            None => forall|j: int| 0 <= j < route@.len() ==> !#[trigger] in_sight@[j],
        },
{
    let mut k = route.len();
    while k > 0
        invariant
            k <= route@.len(),
            route@.len() == in_sight@.len(),
            forall|j: int| k <= j < route@.len() ==> !#[trigger] in_sight@[j],
        decreases k,
    {
        k -= 1;
        if in_sight[k] {
            return Some(route[k]);
        }
    }
    None
}

/// The steering decision of one agent for one tick. `target_in_sight`
/// tells whether the agent sees its target directly; otherwise it follows
/// `route`, with `in_sight[k]` telling whether it sees `route[k]`.
pub fn steer(target_in_sight: bool, route: &[usize], in_sight: &[bool]) -> (r: Steering)
    requires
        route@.len() == in_sight@.len(),
    ensures
        target_in_sight ==> r == Steering::Target,
        !target_in_sight ==> match r {
            Steering::Node(node) => exists|k: int|
                0 <= k < route@.len() && route@[k] == node && in_sight@[k] && forall|j: int|
                    k < j < route@.len() ==> !#[trigger] in_sight@[j],
            Steering::Idle => forall|j: int| 0 <= j < route@.len() ==> !#[trigger] in_sight@[j],
            Steering::Target => false,
        },
{
    if target_in_sight {
        Steering::Target
    } else {
        match pick_waypoint(route, in_sight) {
            Some(node) => Steering::Node(node),
            None => Steering::Idle,
        }
    }
}

impl Pathfinder {
    /// The route for the agent numbered `agent_index` at `agent` when it
    /// cannot see the player: from the node nearest to the agent to a node
    /// of the player's region. Empty where either region is unknown or has
    /// no nodes, or where no route joins the two nodes.
    pub fn route_for(&self, agent: Point, agent_index: u32) -> (r: &[usize])
        requires
            self.wf(),
        ensures
            planned_route(self, agent, agent_index, r@),
    {
        let goals = self.nodes_in_player_region();
        if goals.len() == 0 {
            return &[];
        }
        let goal = goals[goal_node_index(agent_index, goals.len())];
        match self.closest_node(agent) {
            Some(start) => self.get_path(start, goal),
            None => &[],
        }
    }
}

} // verus!
