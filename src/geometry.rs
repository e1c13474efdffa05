use vstd::prelude::*;

verus! {

/// A point of the map, in integer world units.
#[derive(Clone, Copy, Debug, PartialEq, Eq, Structural)]
pub struct Point {
    pub x: i32,
    pub y: i32,
}

/// An axis-aligned rectangle given by its smallest and largest corner.
/// Both borders belong to the rectangle.
#[derive(Clone, Copy, Debug, PartialEq, Eq, Structural)]
pub struct Rect {
    pub min: Point,
    pub max: Point,
}

/// Squared Euclidean distance between two points.
pub open spec fn dist_sq(a: Point, b: Point) -> nat {
    let dx = a.x - b.x;
    let dy = a.y - b.y;
    (dx * dx + dy * dy) as nat
}

/// `r` is the integer square root of `n`: the largest integer whose square is at most `n`.
pub open spec fn is_isqrt(n: nat, r: nat) -> bool {
    r * r <= n && n < (r + 1) * (r + 1)
}

/// The integer square root of `n`, rounded down.
pub open spec fn isqrt(n: nat) -> nat
    decreases n,
{
    if n == 0 {
        0
    } else {
        let r = isqrt((n - 1) as nat);
        if (r + 1) * (r + 1) <= n {
            r + 1
        } else {
            r
        }
    }
}

/// Euclidean distance between two points, rounded down to an integer.
pub open spec fn dist(a: Point, b: Point) -> nat {
    isqrt(dist_sq(a, b))
}

/// Whether `p` lies in `r`, borders included.
pub open spec fn in_rect(r: Rect, p: Point) -> bool {
    r.min.x <= p.x && p.x <= r.max.x && r.min.y <= p.y && p.y <= r.max.y
}

/// Distance does not depend on the direction in which it is measured.
pub proof fn lemma_dist_symmetric(a: Point, b: Point)
    ensures
        dist_sq(a, b) == dist_sq(b, a),
        dist(a, b) == dist(b, a),
{
    let dx = a.x - b.x;
    let dy = a.y - b.y;
    assert(dx * dx == (-dx) * (-dx)) by (nonlinear_arith);
    assert(dy * dy == (-dy) * (-dy)) by (nonlinear_arith);
}

proof fn lemma_isqrt_is_root(n: nat)
    ensures
        is_isqrt(n, isqrt(n)),
    decreases n,
{
    if n > 0 {
        lemma_isqrt_is_root((n - 1) as nat);
        let r = isqrt((n - 1) as nat);
        if (r + 1) * (r + 1) <= n {
            assert(n < (r + 2) * (r + 2)) by (nonlinear_arith)
                requires
                    n - 1 < (r + 1) * (r + 1),
                    (r + 1) * (r + 1) <= n,
            ;
            assert(is_isqrt(n, r + 1));
        } else {
            assert(is_isqrt(n, r));
        }
        assert(isqrt(n) == if (r + 1) * (r + 1) <= n { r + 1 } else { r });
    } else {
        assert(isqrt(0) == 0);
        assert(is_isqrt(0, 0)) by (nonlinear_arith);
    }
}

proof fn lemma_isqrt_unique(n: nat, r: nat)
    requires
        is_isqrt(n, r),
    ensures
        r == isqrt(n),
{
    lemma_isqrt_is_root(n);
    let q = isqrt(n);
    if r < q {
        assert((r + 1) * (r + 1) <= q * q) by (nonlinear_arith)
            requires r + 1 <= q;
    } else if q < r {
        assert((q + 1) * (q + 1) <= r * r) by (nonlinear_arith)
            requires q + 1 <= r;
    }
}

/// Integer square root by bisection over `[0, 2^33)`.
fn isqrt_exec(n: u128) -> (r: u64)
    requires
        n < 0x4_0000_0000_0000_0000,
    ensures
        r == isqrt(n as nat),
        r < 0x2_0000_0000,
{
    let mut lo: u128 = 0;
    let mut hi: u128 = 0x2_0000_0000;
    assert(n < hi * hi) by (nonlinear_arith)
        requires hi == 0x2_0000_0000, n < 0x4_0000_0000_0000_0000;
    while hi - lo > 1
        invariant
            lo < hi <= 0x2_0000_0000,
            lo * lo <= n,
            n < hi * hi,
        decreases hi - lo,
    {
        let mid: u128 = lo + (hi - lo) / 2;
        assert(mid * mid <= 0x4_0000_0000_0000_0000) by (nonlinear_arith)
            requires mid <= 0x2_0000_0000;
        if mid * mid <= n {
            lo = mid;
        } else {
            hi = mid;
        }
    }
    proof {
        lemma_isqrt_unique(n as nat, lo as nat);
    }
    lo as u64
}

impl Point {
    pub fn new(x: i32, y: i32) -> (r: Point)
        ensures
            r.x == x,
            r.y == y,
    {
        Point { x, y }
    }

    /// Squared Euclidean distance to `other`.
    pub fn distance_squared(&self, other: &Point) -> (r: u128)
        ensures
            r == dist_sq(*self, *other),
    {
        let dx: i128 = self.x as i128 - other.x as i128;
        let dy: i128 = self.y as i128 - other.y as i128;
        assert(0 <= dx * dx <= 0x1_0000_0000_0000_0000) by (nonlinear_arith)
            requires -0x1_0000_0000 <= dx <= 0x1_0000_0000;
        assert(0 <= dy * dy <= 0x1_0000_0000_0000_0000) by (nonlinear_arith)
            requires -0x1_0000_0000 <= dy <= 0x1_0000_0000;
        (dx * dx + dy * dy) as u128
    }

    /// Euclidean distance to `other`, rounded down.
    pub fn distance(&self, other: &Point) -> (r: u64)
        ensures
            r == dist(*self, *other),
            r < 0x2_0000_0000,
    {
        let d = self.distance_squared(other);
        assert(d <= 0x2_0000_0000_0000_0000) by {
            let dx = self.x - other.x;
            let dy = self.y - other.y;
            assert(0 <= dx * dx <= 0x1_0000_0000_0000_0000) by (nonlinear_arith)
                requires -0x1_0000_0000 <= dx <= 0x1_0000_0000;
            assert(0 <= dy * dy <= 0x1_0000_0000_0000_0000) by (nonlinear_arith)
                requires -0x1_0000_0000 <= dy <= 0x1_0000_0000;
        }
        isqrt_exec(d)
    }
}

impl Rect {
    /// The rectangle spanned by two opposite corners, in either order.
    pub fn from_corners(a: Point, b: Point) -> (r: Rect)
        ensures
            r.min.x == if a.x <= b.x { a.x } else { b.x },
            r.min.y == if a.y <= b.y { a.y } else { b.y },
            r.max.x == if a.x <= b.x { b.x } else { a.x },
            r.max.y == if a.y <= b.y { b.y } else { a.y },
    {
        let (min_x, max_x) = if a.x <= b.x { (a.x, b.x) } else { (b.x, a.x) };
        let (min_y, max_y) = if a.y <= b.y { (a.y, b.y) } else { (b.y, a.y) };
        Rect { min: Point { x: min_x, y: min_y }, max: Point { x: max_x, y: max_y } }
    }

    /// Whether `p` lies in the rectangle, borders included.
    pub fn contains(&self, p: Point) -> (r: bool)
        ensures
            r == in_rect(*self, p),
    {
        self.min.x <= p.x && p.x <= self.max.x && self.min.y <= p.y && p.y <= self.max.y
    }
}

} // verus!
