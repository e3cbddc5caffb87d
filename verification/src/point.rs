use vstd::prelude::*;

verus! {

/// A cell coordinate on the unbounded plane. Points are plain values:
/// copied freely, compared by their fields.
#[derive(Clone, Copy, PartialEq, Eq, Hash, Debug, Structural)]
pub struct Point {
    pub x: i64,
    pub y: i64,
}

impl Point {
    /// Component-wise addition.
    pub fn plus(self, other: Point) -> (r: Point)
        requires
            i64::MIN <= self.x + other.x <= i64::MAX,
            i64::MIN <= self.y + other.y <= i64::MAX,
        ensures
            r.x == self.x + other.x,
            r.y == self.y + other.y,
    {
        Point { x: self.x + other.x, y: self.y + other.y }
    }

    /// Component-wise subtraction.
    pub fn minus(self, other: Point) -> (r: Point)
        requires
            i64::MIN <= self.x - other.x <= i64::MAX,
            i64::MIN <= self.y - other.y <= i64::MAX,
        ensures
            r.x == self.x - other.x,
            r.y == self.y - other.y,
    {
        Point { x: self.x - other.x, y: self.y - other.y }
    }
}

/// The point with the given mathematical coordinates.
pub open spec fn pt(x: int, y: int) -> Point {
    Point { x: x as i64, y: y as i64 }
}

/// All eight Moore neighbors of `p` exist as `i64` coordinate pairs.
pub open spec fn has_neighbor_room(p: Point) -> bool {
    &&& i64::MIN < p.x < i64::MAX
    &&& i64::MIN < p.y < i64::MAX
}

/// `p` is far enough from the coordinate limits that a tick may look at
/// its neighbors, and at the neighbors of those neighbors, without leaving
/// the `i64` range.
pub open spec fn tick_safe(p: Point) -> bool {
    &&& i64::MIN + 2 <= p.x <= i64::MAX - 2
    &&& i64::MIN + 2 <= p.y <= i64::MAX - 2
}

/// The Moore neighborhood of `p`: the eight surrounding points, in a fixed
/// order.
pub open spec fn spec_neighbors(p: Point) -> Seq<Point> {
    seq![
        pt(p.x - 1, p.y + 1),
        pt(p.x as int, p.y + 1),
        pt(p.x + 1, p.y + 1),
        pt(p.x - 1, p.y as int),
        pt(p.x + 1, p.y as int),
        pt(p.x - 1, p.y - 1),
        pt(p.x as int, p.y - 1),
        pt(p.x + 1, p.y - 1),
    ]
}

/// The eight points surrounding `point`, in a fixed, deterministic order.
pub fn neighbors(point: Point) -> (r: Vec<Point>)
    requires
        has_neighbor_room(point),
    ensures
        r@ == spec_neighbors(point),
{
    let mut r: Vec<Point> = Vec::new();
    r.push(Point { x: point.x - 1, y: point.y + 1 });
    r.push(Point { x: point.x, y: point.y + 1 });
    r.push(Point { x: point.x + 1, y: point.y + 1 });
    r.push(Point { x: point.x - 1, y: point.y });
    r.push(Point { x: point.x + 1, y: point.y });
    r.push(Point { x: point.x - 1, y: point.y - 1 });
    r.push(Point { x: point.x, y: point.y - 1 });
    r.push(Point { x: point.x + 1, y: point.y - 1 });
    proof {
        assert(r@ =~= spec_neighbors(point));
    }
    r
}

} // verus!
