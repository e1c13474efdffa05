//! Navigation core for a top-down game: a visibility graph over hand-placed
//! navigation nodes, rectangular regions that localise queries, a table of
//! precomputed routes between every pair of nodes, and the per-frame queries
//! that agents use to steer around obstacles.
//!
//! Positions are integer world coordinates. Line-of-sight answers come from
//! an outside collision service and are handed in as plain booleans.

pub mod bounds;
pub mod geometry;
pub mod pathfinder;
pub mod paths;
pub mod regions;
pub mod route_facts;
pub mod routing;
pub mod visibility;

pub use geometry::{Point, Rect};
pub use pathfinder::Pathfinder;
pub use paths::{compute_all_pairs, PathEntry};
pub use regions::{build_membership, region_index, Region};
pub use routing::{goal_node_index, pick_waypoint, steer, Steering};
pub use visibility::build_visibility;
