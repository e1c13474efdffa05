use vstd::prelude::*;

use crate::geometry::{in_rect, Point, Rect};

verus! {

/// Half the side of the square map, in pixels.
pub const MAP_HALF_SIZE: i32 = 256;

/// A named rectangular zone of the map.
pub struct Region {
    pub name: String,
    pub area: Rect,
}

/// `r` is the first region, in registration order, whose rectangle holds `p`.
pub open spec fn first_region(regions: Seq<Region>, p: Point, r: usize) -> bool {
    &&& r < regions.len()
    &&& in_rect(regions[r as int].area, p)
    &&& forall|j: int| 0 <= j < r ==> !in_rect(#[trigger] regions[j].area, p)
}

/// No region's rectangle holds `p`.
pub open spec fn outside_regions(regions: Seq<Region>, p: Point) -> bool {
    forall|j: int| 0 <= j < regions.len() ==> !in_rect(#[trigger] regions[j].area, p)
}

/// The index of the first region that holds `p`, if any.
pub open spec fn region_index_of(regions: Seq<Region>, p: Point) -> Option<usize> {
    if outside_regions(regions, p) {
        None
    } else {
        Some(choose|r: usize| first_region(regions, p, r))
    }
}

/// The nodes among the first `k` whose region is `r`, in increasing order.
pub open spec fn members(regions: Seq<Region>, nodes: Seq<Point>, r: usize, k: int) -> Seq<usize>
    decreases k,
{
    if k <= 0 {
        seq![]
    } else {
        let prev = members(regions, nodes, r, k - 1);
        if region_index_of(regions, nodes[k - 1]) == Some(r) {
            prev.push((k - 1) as usize)
        } else {
            prev
        }
    }
}

/// The region membership tables agree with the nodes and regions: each
/// node's owner is the first region that holds it, and each region lists
/// exactly the nodes it owns, in increasing order.
pub open spec fn membership_wf(
    regions: Seq<Region>,
    nodes: Seq<Point>,
    region_to_nodes: Seq<Vec<usize>>,
    node_to_region: Seq<Option<usize>>,
) -> bool {
    &&& region_to_nodes.len() == regions.len()
    &&& node_to_region.len() == nodes.len()
    &&& forall|r: int|
        0 <= r < regions.len() ==> (#[trigger] region_to_nodes[r])@ == members(
            regions,
            nodes,
            r as usize,
            nodes.len() as int,
        )
    &&& forall|j: int|
        0 <= j < nodes.len() ==> #[trigger] node_to_region[j] == region_index_of(regions, nodes[j])
}

proof fn lemma_members(regions: Seq<Region>, nodes: Seq<Point>, r: usize, k: int)
    requires
        0 <= k <= nodes.len(),
        k <= usize::MAX,
    ensures
        forall|x: usize|
            #[trigger] members(regions, nodes, r, k).contains(x) <==> (x < k && region_index_of(
                regions,
                nodes[x as int],
            ) == Some(r)),
    decreases k,
{
    if k > 0 {
        lemma_members(regions, nodes, r, k - 1);
        let prev = members(regions, nodes, r, k - 1);
        let cur = members(regions, nodes, r, k);
        assert forall|x: usize| #[trigger] cur.contains(x) <==> (x < k && region_index_of(
            regions,
            nodes[x as int],
        ) == Some(r)) by {
            if region_index_of(regions, nodes[k - 1]) == Some(r) {
                assert(cur == prev.push((k - 1) as usize));
                if cur.contains(x) {
                    let i = choose|i: int| 0 <= i < cur.len() && cur[i] == x;
                    if i < prev.len() {
                        assert(prev[i] == x);
                        assert(prev.contains(x));
                    }
                }
                if x < k - 1 && region_index_of(regions, nodes[x as int]) == Some(r) {
                    assert(prev.contains(x));
                    let i = choose|i: int| 0 <= i < prev.len() && prev[i] == x;
                    assert(cur[i] == x);
                }
                if x == k - 1 {
                    assert(cur[cur.len() - 1] == x);
                }
            } else {
                assert(cur == prev);
            }
        }
    }
}

/// Two regions never list a common node; in particular regions with
/// disjoint rectangles have disjoint node lists.
pub proof fn lemma_region_lists_disjoint(
    regions: Seq<Region>,
    nodes: Seq<Point>,
    region_to_nodes: Seq<Vec<usize>>,
    node_to_region: Seq<Option<usize>>,
    r1: usize,
    r2: usize,
)
    requires
        membership_wf(regions, nodes, region_to_nodes, node_to_region),
        nodes.len() <= usize::MAX,
        r1 < regions.len(),
        r2 < regions.len(),
        r1 != r2,
        forall|p: Point|
            !(in_rect(regions[r1 as int].area, p) && in_rect(regions[r2 as int].area, p)),
    ensures
        forall|x: usize|
            !(region_to_nodes[r1 as int]@.contains(x) && #[trigger] region_to_nodes[r2 as int]@.contains(x)),
{
    lemma_members(regions, nodes, r1, nodes.len() as int);
    lemma_members(regions, nodes, r2, nodes.len() as int);
    assert forall|x: usize|
        !(region_to_nodes[r1 as int]@.contains(x) && #[trigger] region_to_nodes[r2 as int]@.contains(x)) by {
        if region_to_nodes[r1 as int]@.contains(x) {
            assert(members(regions, nodes, r1, nodes.len() as int).contains(x));
        }
        if region_to_nodes[r2 as int]@.contains(x) {
            assert(members(regions, nodes, r2, nodes.len() as int).contains(x));
        }
    }
}

/// Every node listed by a region belongs to that region.
pub proof fn lemma_listed_node_owner(
    regions: Seq<Region>,
    nodes: Seq<Point>,
    region_to_nodes: Seq<Vec<usize>>,
    node_to_region: Seq<Option<usize>>,
    r: usize,
    x: usize,
)
    requires
        membership_wf(regions, nodes, region_to_nodes, node_to_region),
        nodes.len() <= usize::MAX,
        r < regions.len(),
        region_to_nodes[r as int]@.contains(x),
    ensures
        x < nodes.len(),
        node_to_region[x as int] == Some(r),
{
    lemma_members(regions, nodes, r, nodes.len() as int);
    assert(members(regions, nodes, r, nodes.len() as int).contains(x));
}

/// Every node that a region lists is a registered node.
pub proof fn lemma_membership_nodes(
    regions: Seq<Region>,
    nodes: Seq<Point>,
    region_to_nodes: Seq<Vec<usize>>,
    node_to_region: Seq<Option<usize>>,
)
    requires
        membership_wf(regions, nodes, region_to_nodes, node_to_region),
        nodes.len() <= usize::MAX,
    ensures
        forall|r: int, i: int|
            0 <= r < region_to_nodes.len() && 0 <= i < region_to_nodes[r]@.len()
                ==> #[trigger] region_to_nodes[r]@[i] < nodes.len(),
{
    assert forall|r: int, i: int|
        0 <= r < region_to_nodes.len() && 0 <= i < region_to_nodes[r]@.len() implies #[trigger] region_to_nodes[r]@[i] < nodes.len() by {
        lemma_listed_node_owner(regions, nodes, region_to_nodes, node_to_region, r as usize, region_to_nodes[r]@[i]);
    }
}

proof fn lemma_region_index_of(regions: Seq<Region>, p: Point, r: usize)
    requires
        first_region(regions, p, r),
    ensures
        region_index_of(regions, p) == Some(r),
{
    assert(!outside_regions(regions, p));
    let q = choose|q: usize| first_region(regions, p, q);
    if q < r {
        assert(!in_rect(regions[q as int].area, p));
    } else if r < q {
        assert(!in_rect(regions[r as int].area, p));
    }
}

/// A point strictly inside one region's rectangle and in no other region
/// belongs to that region; a point outside every rectangle belongs to none.
pub proof fn lemma_region_of_point(regions: Seq<Region>, p: Point, r: usize)
    requires
        r < regions.len(),
        regions[r as int].area.min.x < p.x < regions[r as int].area.max.x,
        regions[r as int].area.min.y < p.y < regions[r as int].area.max.y,
        forall|j: int| 0 <= j < regions.len() && j != r ==> !in_rect(#[trigger] regions[j].area, p),
    ensures
        region_index_of(regions, p) == Some(r),
{
    lemma_region_index_of(regions, p, r);
}

/// A point outside every region's rectangle belongs to no region.
pub proof fn lemma_outside_point(regions: Seq<Region>, p: Point)
    requires
        outside_regions(regions, p),
    ensures
        region_index_of(regions, p) is None,
{
}

/// Finds the first region, in registration order, whose rectangle holds `p`.
pub fn region_index(regions: &Vec<Region>, p: Point) -> (r: Option<usize>)
    ensures
        r == region_index_of(regions@, p),
        r matches Some(i) ==> first_region(regions@, p, i),
        r is None <==> outside_regions(regions@, p),
{
    let mut i: usize = 0;
    while i < regions.len()
        invariant
            i <= regions.len(),
            forall|j: int| 0 <= j < i ==> !in_rect(#[trigger] regions@[j].area, p),
        decreases regions.len() - i,
    {
        if regions[i].area.contains(p) {
            proof {
                lemma_region_index_of(regions@, p, i);
            }
            return Some(i);
        }
        i += 1;
    }
    None
}

impl Point {
    /// The world point of the pixel at `pixel` on the map image, whose
    /// origin is its top-left corner with `y` pointing down. World units are
    /// pixels from the map's centre, `y` up.
    pub fn from_pixel_coords(pixel: Point) -> (r: Point)
        requires
            0 <= pixel.x <= 0x1000_0000,
            0 <= pixel.y <= 0x1000_0000,
        ensures
            r.x == pixel.x - MAP_HALF_SIZE,
            r.y == MAP_HALF_SIZE - pixel.y,
    {
        Point::new(pixel.x - MAP_HALF_SIZE, MAP_HALF_SIZE - pixel.y)
    }
}

impl Region {
    pub fn new(name: String, area: Rect) -> (r: Region)
        ensures
            r.name@ == name@,
            r.area == area,
    {
        Region { name, area }
    }

    /// The region drawn on the map image with its top-left corner at
    /// `top_left` and the given `size`, both in pixels with `y` pointing down.
    /// The result is in world units: pixels from the map's centre, `y` up.
    pub fn from_pixel_coords(name: String, top_left: Point, size: Point) -> (r: Region)
        requires
            0 <= top_left.x <= 0x1000_0000,
            0 <= top_left.y <= 0x1000_0000,
            0 <= size.x <= 0x1000_0000,
            0 <= size.y <= 0x1000_0000,
        ensures
            r.name@ == name@,
            r.area.min.x == top_left.x - MAP_HALF_SIZE,
            r.area.max.x == top_left.x - MAP_HALF_SIZE + size.x,
            r.area.min.y == MAP_HALF_SIZE - top_left.y - size.y,
            r.area.max.y == MAP_HALF_SIZE - top_left.y,
    {
        let corner = Point::from_pixel_coords(top_left);
        let opposite = Point::new(corner.x + size.x, corner.y - size.y);
        Region { name, area: Rect::from_corners(corner, opposite) }
    }
}

/// Builds both membership tables: each node goes to the first region that
/// holds it, so a node sits in at most one region's list.
pub fn build_membership(regions: &Vec<Region>, nodes: &Vec<Point>) -> (res: (
    Vec<Vec<usize>>,
    Vec<Option<usize>>,
))
    ensures
        membership_wf(regions@, nodes@, res.0@, res.1@),
{
    let mut region_to_nodes: Vec<Vec<usize>> = Vec::new();
    let mut r: usize = 0;
    while r < regions.len()
        invariant
            r <= regions.len(),
            region_to_nodes@.len() == r,
            forall|q: int| 0 <= q < r ==> (#[trigger] region_to_nodes@[q])@ == Seq::<usize>::empty(),
        decreases regions.len() - r,
    {
        region_to_nodes.push(Vec::new());
        r += 1;
    }
    let mut node_to_region: Vec<Option<usize>> = Vec::new();
    let mut j: usize = 0;
    while j < nodes.len()
        invariant
            j <= nodes.len(),
            region_to_nodes@.len() == regions.len(),
            node_to_region@.len() == j,
            forall|q: int|
                0 <= q < regions.len() ==> (#[trigger] region_to_nodes@[q])@ == members(
                    regions@,
                    nodes@,
                    q as usize,
                    j as int,
                ),
            forall|i: int|
                0 <= i < j ==> #[trigger] node_to_region@[i] == region_index_of(regions@, nodes@[i]),
        decreases nodes.len() - j,
    {
        let owner = region_index(regions, nodes[j]);
        if let Some(q) = owner {
            region_to_nodes[q].push(j);
        }
        node_to_region.push(owner);
        j += 1;
    }
    (region_to_nodes, node_to_region)
}

} // verus!
