//! Points and the errors shared by the resampler and the triangulator.
use vstd::prelude::*;

verus! {

/// A 2D coordinate in fixed-point units of the caller's choosing (for instance
/// 1/256 pixel). Also used for displacements, such as normals and offsets.
#[derive(Clone, Copy, Debug, PartialEq, Eq, Structural)]
pub struct Point2 {
    pub x: i64,
    pub y: i64,
}

impl Point2 {
    pub fn new(x: i64, y: i64) -> (r: Point2)
        ensures
            r.x == x,
            r.y == y,
    {
        Point2 { x, y }
    }

    /// Both coordinates lie within `[-limit, limit]`.
    pub open spec fn within(self, limit: int) -> bool {
        -limit <= self.x <= limit && -limit <= self.y <= limit
    }
}

/// The point with the given coordinates, which must fit in `i64`.
pub open spec fn point(x: int, y: int) -> Point2 {
    Point2 { x: x as i64, y: y as i64 }
}

/// Every point of `pts` lies within `[-limit, limit]` on both axes.
pub open spec fn all_within(pts: Seq<Point2>, limit: int) -> bool {
    forall|i: int| 0 <= i < pts.len() ==> (#[trigger] pts[i]).within(limit)
}

/// Whether every point of `points` lies within `[-limit, limit]` on both axes.
pub(crate) fn all_within_exec(points: &Vec<Point2>, limit: i64) -> (r: bool)
    requires
        limit >= 0,
    ensures
        r == all_within(points@, limit as int),
{
    let mut i: usize = 0;
    while i < points.len()
        invariant
            limit >= 0,
            i <= points@.len(),
            forall|j: int| 0 <= j < i ==> (#[trigger] points@[j]).within(limit as int),
        decreases points@.len() - i,
    {
        let p = points[i];
        if p.x < -limit || p.x > limit || p.y < -limit || p.y > limit {
            assert(!points@[i as int].within(limit as int));
            return false;
        }
        i = i + 1;
    }
    true
}

/// Why an input was refused.
#[derive(Clone, Copy, Debug, PartialEq, Eq, Structural)]
pub enum GeometryError {
    /// A polyline needs at least two points.
    TooFewPoints,
    /// The sampling density is zero, or has a zero length.
    InvalidDensity,
    /// The stroke thickness is zero.
    InvalidThickness,
    /// A coordinate is outside the range the computation is exact for.
    OutOfRange,
    /// Two consecutive points of a polyline coincide, so their segment has no direction.
    RepeatedPoint,
    /// The polyline turns back on itself at a joint, so the miter has no finite length.
    FoldBack,
}

} // verus!
