use navgraph::{
    build_visibility, compute_all_pairs, goal_node_index, pick_waypoint, steer, Pathfinder, Point,
    Rect, Region, Steering,
};

fn pt(x: i32, y: i32) -> Point {
    Point::new(x, y)
}

fn region(name: &str, a: Point, b: Point) -> Region {
    Region::new(name.to_string(), Rect::from_corners(a, b))
}

/// A square sight table where every pair sees each other except the listed ones.
fn sight_except(n: usize, blocked: &[(usize, usize)]) -> Vec<Vec<bool>> {
    let mut sight = vec![vec![true; n]; n];
    for &(a, b) in blocked {
        sight[a][b] = false;
        sight[b][a] = false;
    }
    sight
}

/// A square sight table where only the listed pairs see each other.
fn sight_only(n: usize, clear: &[(usize, usize)]) -> Vec<Vec<bool>> {
    let mut sight = vec![vec![false; n]; n];
    for &(a, b) in clear {
        sight[a][b] = true;
        sight[b][a] = true;
    }
    sight
}

fn built(nodes: Vec<Point>, regions: Vec<Region>, sight: &Vec<Vec<bool>>) -> Pathfinder {
    let mut pf = Pathfinder::new();
    pf.add_nodes_and_regions(nodes, regions);
    pf.precompute(sight);
    pf
}

#[test]
fn wall_between_ends_routes_through_middle() {
    // A(0,0) - B(5,0) - C(10,0), with a wall between x = 4 and x = 6 that
    // blocks A from C but not A from B nor B from C.
    let nodes = vec![pt(0, 0), pt(5, 0), pt(10, 0)];
    let sight = sight_except(3, &[(0, 2)]);
    let pf = built(nodes, vec![], &sight);
    assert_eq!(pf.edge_distance(0, 1), Some(5));
    assert_eq!(pf.edge_distance(1, 2), Some(5));
    assert_eq!(pf.edge_distance(0, 2), None);
    assert_eq!(pf.get_path(0, 2), &[0, 1, 2]);
    assert_eq!(pf.paths[0][2].as_ref().map(|e| e.length), Some(10));
    assert_eq!(pf.get_path(2, 0), &[2, 1, 0]);
}

#[test]
fn closest_node_in_region() {
    // Region (0,0)-(10,10) with nodes at (1,1) and (9,9); query (0.5,0.5).
    // Coordinates are in tenths.
    let nodes = vec![pt(10, 10), pt(90, 90)];
    let regions = vec![region("R", pt(0, 0), pt(100, 100))];
    let pf = built(nodes, regions, &sight_except(2, &[]));
    assert_eq!(pf.closest_node(pt(5, 5)), Some(0));
    assert_eq!(pf.closest_node(pt(95, 95)), Some(1));
    assert_eq!(pf.closest_node(pt(200, 5)), None);
}

#[test]
fn closest_node_ties_go_to_first_listed() {
    let nodes = vec![pt(0, 0), pt(10, 0)];
    let regions = vec![region("R", pt(-5, -5), pt(15, 5))];
    let pf = built(nodes, regions, &sight_except(2, &[]));
    assert_eq!(pf.closest_node(pt(5, 0)), Some(0));
}

#[test]
fn closest_node_in_empty_region_is_none() {
    let nodes = vec![pt(50, 50)];
    let regions = vec![region("empty", pt(0, 0), pt(10, 10)), region("full", pt(40, 40), pt(60, 60))];
    let pf = built(nodes, regions, &sight_except(1, &[]));
    assert_eq!(pf.closest_node(pt(5, 5)), None);
    assert_eq!(pf.closest_node(pt(41, 41)), Some(0));
}

#[test]
fn isolated_node_has_no_routes() {
    // D (index 3) sees nobody.
    let nodes = vec![pt(0, 0), pt(10, 0), pt(20, 0), pt(100, 100)];
    let sight = sight_only(4, &[(0, 1), (1, 2)]);
    let pf = built(nodes, vec![], &sight);
    for a in 0..4 {
        assert!(pf.get_path(a, 3).is_empty());
        assert!(pf.get_path(3, a).is_empty());
    }
    assert_eq!(pf.get_path(0, 2), &[0, 1, 2]);
}

#[test]
fn player_region_switches_between_frames() {
    let nodes = vec![pt(1, 1), pt(2, 2), pt(21, 1), pt(22, 2), pt(23, 3)];
    let regions = vec![region("A", pt(0, 0), pt(10, 10)), region("B", pt(20, 0), pt(30, 10))];
    let mut pf = built(nodes, regions, &sight_except(5, &[]));
    assert!(pf.nodes_in_player_region().is_empty());
    pf.track_player_region(pt(5, 5));
    assert_eq!(pf.nodes_in_player_region(), &[0, 1]);
    assert_eq!(pf.player_region, Some(0));
    pf.track_player_region(pt(25, 5));
    assert_eq!(pf.nodes_in_player_region(), &[2, 3, 4]);
    assert_eq!(pf.player_region, Some(1));
    assert_eq!(pf.previous_region, Some(0));
}

#[test]
fn player_outside_regions_keeps_last_region() {
    let nodes = vec![pt(1, 1)];
    let regions = vec![region("A", pt(0, 0), pt(10, 10))];
    let mut pf = built(nodes, regions, &sight_except(1, &[]));
    pf.track_player_region(pt(5, 5));
    pf.track_player_region(pt(50, 50));
    assert_eq!(pf.player_region, Some(0));
    assert_eq!(pf.previous_region, None);
    assert_eq!(pf.nodes_in_player_region(), &[0]);
}

#[test]
fn visibility_is_symmetric_without_self_loops() {
    // Rays from 0 towards 1 and from 2 towards 3 pass; the reverse rays do not.
    let mut sight = vec![vec![false; 4]; 4];
    sight[0][1] = true;
    sight[2][3] = true;
    sight[2][2] = true;
    let adj = build_visibility(&sight);
    assert_eq!(adj, vec![vec![1], vec![0], vec![3], vec![2]]);
    let nodes = vec![pt(0, 0), pt(3, 4), pt(10, 10), pt(10, 13)];
    let pf = built(nodes, vec![], &sight);
    for a in 0..4 {
        assert_eq!(pf.edge_distance(a, a), None);
        for b in 0..4 {
            assert_eq!(pf.edge_distance(a, b), pf.edge_distance(b, a));
        }
    }
    assert_eq!(pf.edge_distance(1, 0), Some(5));
    assert_eq!(pf.edge_distance(3, 2), Some(3));
}

#[test]
fn disjoint_regions_have_disjoint_node_lists() {
    let nodes = vec![pt(1, 1), pt(21, 1), pt(2, 2), pt(50, 50), pt(22, 2)];
    let regions = vec![region("A", pt(0, 0), pt(10, 10)), region("B", pt(20, 0), pt(30, 10))];
    let pf = built(nodes, regions, &sight_except(5, &[]));
    assert_eq!(pf.region_to_nodes, vec![vec![0, 2], vec![1, 4]]);
    assert_eq!(pf.node_to_region, vec![Some(0), Some(1), Some(0), None, Some(1)]);
    for n in &pf.region_to_nodes[0] {
        assert!(!pf.region_to_nodes[1].contains(n));
    }
}

#[test]
fn overlapping_regions_first_match_wins() {
    let nodes = vec![pt(5, 5), pt(15, 5)];
    let regions = vec![region("A", pt(0, 0), pt(10, 10)), region("B", pt(0, 0), pt(20, 10))];
    let pf = built(nodes, regions, &sight_except(2, &[]));
    assert_eq!(pf.get_region_index(pt(5, 5)), Some(0));
    assert_eq!(pf.get_region_index(pt(15, 5)), Some(1));
    assert_eq!(pf.region_to_nodes, vec![vec![0], vec![1]]);
}

#[test]
fn region_of_point_inside_and_outside() {
    let mut pf = Pathfinder::new();
    pf.add_nodes_and_regions(
        vec![],
        vec![region("A", pt(0, 0), pt(10, 10)), region("B", pt(20, 0), pt(30, 10))],
    );
    assert_eq!(pf.get_region_index(pt(25, 5)), Some(1));
    assert_eq!(pf.get_region_index(pt(5, 5)), Some(0));
    assert_eq!(pf.get_region(pt(25, 5)).map(|r| r.name.clone()), Some("B".to_string()));
    assert_eq!(pf.get_region_index(pt(15, 5)), None);
    assert!(pf.get_region(pt(15, 5)).is_none());
    // Borders belong to the rectangle.
    assert_eq!(pf.get_region_index(pt(10, 10)), Some(0));
    assert_eq!(pf.get_region_index(pt(10, 11)), None);
}

#[test]
fn route_table_is_the_same_when_computed_twice() {
    let nodes = vec![pt(0, 0), pt(0, 33), pt(0, 66), pt(100, 50), pt(0, 100)];
    let sight = sight_only(5, &[(0, 1), (1, 2), (2, 4), (0, 3), (3, 4)]);
    let mut pf = built(nodes, vec![], &sight);
    let view = |pf: &Pathfinder| -> Vec<Vec<Option<(u128, Vec<usize>)>>> {
        pf.paths
            .iter()
            .map(|row| row.iter().map(|c| c.as_ref().map(|e| (e.length, e.nodes.clone()))).collect())
            .collect()
    };
    let first = view(&pf);
    pf.compute_paths();
    assert_eq!(view(&pf), first);
    let again = compute_all_pairs(&pf.nodes, &pf.visible);
    let again: Vec<Vec<Option<(u128, Vec<usize>)>>> = again
        .iter()
        .map(|row| row.iter().map(|c| c.as_ref().map(|e| (e.length, e.nodes.clone()))).collect())
        .collect();
    assert_eq!(again, first);
}

#[test]
fn routes_favour_fewer_hops_over_shorter_length() {
    // A(0) reaches D(4) in two hops through X(3), 111 + 111 long, or in three
    // hops through Y(1) and Z(2), 100 long. The search takes the two-hop route.
    let nodes = vec![pt(0, 0), pt(0, 33), pt(0, 66), pt(100, 50), pt(0, 100)];
    let sight = sight_only(5, &[(0, 1), (1, 2), (2, 4), (0, 3), (3, 4)]);
    let pf = built(nodes, vec![], &sight);
    assert_eq!(pf.get_path(0, 4), &[0, 3, 4]);
    assert_eq!(pf.paths[0][4].as_ref().map(|e| e.length), Some(222));
    assert_eq!(pf.get_path(1, 2), &[1, 2]);
    assert_eq!(pf.paths[1][2].as_ref().map(|e| e.length), Some(33));
}

#[test]
fn no_route_from_a_node_to_itself() {
    let pf = built(vec![pt(0, 0), pt(1, 0)], vec![], &sight_except(2, &[]));
    assert!(pf.get_path(0, 0).is_empty());
    assert_eq!(pf.get_path(0, 1), &[0, 1]);
    assert!(pf.get_path(0, 7).is_empty());
}

#[test]
fn empty_pathfinder_answers_nothing() {
    let mut pf = Pathfinder::default();
    assert!(!pf.is_built());
    pf.precompute(&vec![]);
    assert!(pf.is_built());
    assert_eq!(pf.closest_node(pt(0, 0)), None);
    assert!(pf.get_path(0, 0).is_empty());
    assert!(pf.nodes_in_player_region().is_empty());
    assert!(pf.get_region(pt(0, 0)).is_none());
    pf.track_player_region(pt(0, 0));
    assert_eq!(pf.player_region, None);
    assert!(pf.route_for(pt(0, 0), 3).is_empty());
}

#[test]
fn precompute_runs_once_until_new_registrations() {
    let mut pf = Pathfinder::new();
    pf.add_nodes_and_regions(vec![pt(0, 0), pt(10, 0)], vec![]);
    pf.precompute(&sight_except(2, &[]));
    assert_eq!(pf.get_path(0, 1), &[0, 1]);
    // Already built: a second pass with other answers changes nothing.
    pf.precompute(&sight_only(2, &[]));
    assert_eq!(pf.get_path(0, 1), &[0, 1]);
    // Nothing new registered: still built.
    pf.add_nodes_and_regions(vec![], vec![]);
    assert!(pf.is_built());
    // A new node makes the structures stale; the next pass rebuilds them.
    pf.add_nodes_and_regions(vec![pt(20, 0)], vec![]);
    assert!(!pf.is_built());
    pf.precompute(&sight_only(3, &[(1, 2)]));
    assert!(pf.is_built());
    assert!(pf.get_path(0, 1).is_empty());
    assert_eq!(pf.get_path(1, 2), &[1, 2]);
}

#[test]
fn distances_round_down() {
    assert_eq!(pt(0, 0).distance(&pt(3, 4)), 5);
    assert_eq!(pt(0, 0).distance(&pt(1, 1)), 1);
    assert_eq!(pt(0, 0).distance(&pt(100, 50)), 111);
    assert_eq!(pt(-3, -4).distance(&pt(0, 0)), 5);
    assert_eq!(pt(0, 0).distance_squared(&pt(3, 4)), 25);
    let far = pt(i32::MIN, i32::MIN).distance(&pt(i32::MAX, i32::MAX));
    // (2^32 - 1) * sqrt(2) = 6074000998.6...
    assert_eq!(far, 6_074_000_998);
}

#[test]
fn rectangles_from_corners_and_containment() {
    let r = Rect::from_corners(pt(10, -5), pt(-10, 5));
    assert_eq!(r.min, pt(-10, -5));
    assert_eq!(r.max, pt(10, 5));
    assert!(r.contains(pt(0, 0)));
    assert!(r.contains(pt(-10, 5)));
    assert!(!r.contains(pt(11, 0)));
}

#[test]
fn regions_from_pixel_coordinates() {
    let r = Region::from_pixel_coords("hall".to_string(), pt(26, 18), pt(142, 28));
    assert_eq!(r.name, "hall");
    assert_eq!(r.area.min, pt(-230, 210));
    assert_eq!(r.area.max, pt(-88, 238));
}

#[test]
fn goal_node_is_agent_index_modulo_count() {
    assert_eq!(goal_node_index(7, 3), 1);
    assert_eq!(goal_node_index(2, 5), 2);
    assert_eq!(goal_node_index(0, 1), 0);
}

#[test]
fn waypoint_is_last_visible_route_node() {
    assert_eq!(pick_waypoint(&[4, 5, 6], &[true, true, false]), Some(5));
    assert_eq!(pick_waypoint(&[4, 5, 6], &[true, false, true]), Some(6));
    assert_eq!(pick_waypoint(&[4, 5, 6], &[false, false, false]), None);
    assert_eq!(pick_waypoint(&[], &[]), None);
}

#[test]
fn steering_decisions() {
    assert_eq!(steer(true, &[1, 2], &[false, false]), Steering::Target);
    assert_eq!(steer(false, &[1, 2], &[true, false]), Steering::Node(1));
    assert_eq!(steer(false, &[1, 2], &[false, false]), Steering::Idle);
    assert_eq!(steer(false, &[], &[]), Steering::Idle);
}

#[test]
fn agent_route_towards_player_region() {
    // Region L holds nodes 0 and 1; region R holds nodes 2 and 3. A wall
    // between the regions leaves only 1 and 2 in sight of each other.
    let nodes = vec![pt(0, 0), pt(40, 0), pt(60, 0), pt(100, 0)];
    let regions = vec![region("L", pt(-10, -10), pt(45, 10)), region("R", pt(55, -10), pt(110, 10))];
    let sight = sight_only(4, &[(0, 1), (1, 2), (2, 3)]);
    let mut pf = built(nodes, regions, &sight);
    pf.track_player_region(pt(90, 0));
    assert_eq!(pf.nodes_in_player_region(), &[2, 3]);
    // Agent 5 goes for node 3 (5 mod 2), starting from node 0.
    assert_eq!(pf.route_for(pt(1, 1), 5), &[0, 1, 2, 3]);
    // Agent 4 goes for node 2, starting from node 1.
    assert_eq!(pf.route_for(pt(39, 0), 4), &[1, 2]);
    // An agent outside every region gets no route.
    assert!(pf.route_for(pt(50, 50), 4).is_empty());
}

#[test]
fn characters_outside_regions_go_back_to_a_spawner() {
    let mut pf = Pathfinder::new();
    pf.add_nodes_and_regions(vec![], vec![region("A", pt(0, 0), pt(10, 10))]);
    let spawners = vec![pt(1, 1), pt(2, 2), pt(3, 3)];
    assert_eq!(pf.relocation(pt(50, 50), &spawners, 1), Some(pt(2, 2)));
    assert_eq!(pf.relocation(pt(50, 50), &spawners, 3), None);
    assert_eq!(pf.relocation(pt(5, 5), &spawners, 1), None);
    assert_eq!(pf.relocate(pt(5, 5), &spawners), None);
    assert_eq!(pf.relocate(pt(50, 50), &vec![]), None);
    assert_eq!(pf.relocate(pt(50, 50), &vec![pt(7, 7)]), Some(pt(7, 7)));
    for _ in 0..20 {
        let spot = pf.relocate(pt(-1, 5), &spawners).unwrap();
        assert!(spawners.contains(&spot));
    }
}

#[test]
fn map_pixels_to_world_points() {
    assert_eq!(Point::from_pixel_coords(pt(0, 0)), pt(-256, 256));
    assert_eq!(Point::from_pixel_coords(pt(156, 34)), pt(-100, 222));
    assert_eq!(Point::from_pixel_coords(pt(512, 512)), pt(256, -256));
}

#[test]
fn nodes_listed_per_region() {
    let nodes = vec![pt(1, 1), pt(21, 1), pt(2, 2)];
    let regions = vec![region("A", pt(0, 0), pt(10, 10)), region("B", pt(20, 0), pt(30, 10))];
    let pf = built(nodes, regions, &sight_except(3, &[]));
    assert_eq!(pf.nodes_in_region(0), &[0, 2]);
    assert_eq!(pf.nodes_in_region(1), &[1]);
    assert!(pf.nodes_in_region(2).is_empty());
}
